use std::collections::VecDeque;

use topsnek::gamelogger::{replay_filename, GameLogger};
use topsnek::logic::{Board, Direction, Game, Point, Tile};
use topsnek::protocol;
use topsnek::snakes::deadline::deadline_within;
use topsnek::snakes::simple::{look_ahead, wipeout};
use topsnek::snakes::spaceheater::scorecard::Scorecard;
use topsnek::snakes::spaceheater::{evaluate_game, score_game, SpaceHeater};
use topsnek::snakes::spaceheater2::Spaceheater2;
use topsnek::snakes::spaceheater3::{base_depth, Spaceheater3};
use topsnek::snakes::suspicious_salami::Salami;

fn p(x: i8, y: i8) -> Point {
    Point { x, y }
}

fn a_snake(id: &str, body: Vec<Point>) -> protocol::Snake {
    protocol::Snake {
        id: id.into(),
        name: id.into(),
        health: 100,
        latency: "0".into(),
        head: body[0],
        length: body.len(),
        body: VecDeque::from(body),
        shout: "".into(),
        squad: "".into(),
        customizations: protocol::Customizations { color: "#ffffff".into(), head: "".into(), tail: "".into() },
    }
}

fn request(you: protocol::Snake, others: Vec<protocol::Snake>) -> protocol::Request {
    let mut snakes = vec![you.clone()];
    snakes.extend(others);
    protocol::Request {
        game: protocol::Game {
            id: "game".into(),
            ruleset: protocol::Ruleset {
                name: "standard".into(),
                version: "v1".into(),
                settings: protocol::RulesetSettings {
                    food_spawn_chance: 15,
                    minimum_food: 1,
                    hazard_damage_per_turn: 14,
                    royale: protocol::RoyaleRules { shrink_every_n_turns: 0 },
                    squad: protocol::SquadRules {
                        allow_body_collisions: false,
                        shared_elimination: false,
                        shared_health: false,
                        shared_length: false,
                    },
                },
            },
            map: "standard".into(),
            timeout: 500,
            source: "test".into(),
        },
        turn: 1,
        board: protocol::Board { height: 11, width: 11, food: vec![], hazards: vec![], snakes },
        you,
    }
}

#[test]
fn scorecard_keeps_the_lowest_score() {
    let mut card = Scorecard::new();
    assert_eq!(card.post_score(vec![Direction::Up], 10, None), 0);
    assert_eq!(card.post_score(vec![Direction::Up], 7, None), 10);
    assert_eq!(card.post_score(vec![Direction::Up], 12, None), 7);
    assert_eq!(card.get(&vec![Direction::Up]), 7);
    assert_eq!(card.get(&vec![Direction::Down]), 0);
}

#[test]
fn scorecard_backs_up_the_best_extension() {
    let mut card = Scorecard::new();
    card.post_score(vec![Direction::Up], 5, None);
    card.post_score(vec![Direction::Up, Direction::Left], 9, Some("leaf".to_string()));
    card.post_score(vec![Direction::Down], 6, None);
    card.post_score(vec![Direction::Down, Direction::Left], 8, None);
    card.post_certain_death(vec![Direction::Down]);
    card.max_step(2);
    assert_eq!(card.get(&vec![Direction::Up]), 9);
    assert_eq!(card.get(&vec![Direction::Down]), 6);
    assert!(card.is_certain_death(&vec![Direction::Down]));
    assert!(!card.is_certain_death(&vec![Direction::Up]));
    assert_eq!(card.top_score(), (Direction::Up, 9));
}

#[test]
fn scorecard_top_score_of_an_empty_card() {
    let card = Scorecard::new();
    assert_eq!(card.top_score(), (Direction::Right, 0));
}

#[test]
fn evaluate_game_plays_out_one_turn() {
    let game = Game::from(&request(a_snake("you", vec![p(5, 5), p(4, 5), p(3, 5)]), vec![]));
    let mut card = Scorecard::new();
    let successors = evaluate_game(vec![], &game, &mut card);
    let dirs: Vec<Direction> = successors.iter().map(|(d, _)| *d).collect();
    assert_eq!(dirs, vec![Direction::Up, Direction::Down, Direction::Right]);
    assert_eq!(card.get(&vec![Direction::Up]), 200);
    assert_eq!(card.get(&vec![Direction::Left]), 100);
    assert_eq!(score_game(&successors[0].1), 200);
}

#[test]
fn evaluate_game_skips_a_dead_snake() {
    let mut you = a_snake("you", vec![p(5, 5), p(4, 5), p(3, 5)]);
    you.health = 0;
    let game = Game::from(&request(you, vec![]));
    let mut card = Scorecard::new();
    assert_eq!(evaluate_game(vec![Direction::Up], &game, &mut card).len(), 0);
    assert_eq!(card.get(&vec![Direction::Up, Direction::Up]), 0);
}

#[test]
fn latency_estimate_follows_slow_turns() {
    let mut heater = SpaceHeater::new();
    assert_eq!(heater.last_turn_latency_estimate, 55);
    let d = heater.calculate_latency(600, 500);
    assert_eq!(d, std::time::Duration::from_millis(187));
    let d = heater.calculate_latency(30, 500);
    assert_eq!(d, std::time::Duration::from_millis(187));
    let d = heater.calculate_latency(1000, 200);
    assert_eq!(d, std::time::Duration::from_millis(100));
}

#[test]
fn wipeout_finds_head_to_head_fights() {
    let you = a_snake("you", vec![p(5, 5), p(4, 5), p(3, 5)]);
    let other = a_snake("other", vec![p(7, 5), p(8, 5), p(9, 5)]);
    let req = request(you.clone(), vec![other]);
    let board = Board::from(&req.board);
    let res = wipeout(&board, req.board.snakes.clone(), &you, &you.head);
    assert_eq!(
        res,
        vec![
            (Direction::Left, false, false),
            (Direction::Right, true, true),
            (Direction::Up, false, false),
            (Direction::Down, false, false),
        ]
    );
}

#[test]
fn look_ahead_leaves_the_board_alone() {
    let req = request(a_snake("you", vec![p(0, 0)]), vec![]);
    let mut board = Board::from(&req.board);
    let before = board.clone();
    let (dir, turns) = look_ahead(&mut board, &p(0, 0), 3);
    assert_eq!(board, before);
    assert!(turns <= 3);
    if turns > 0 {
        assert!(dir == Direction::Up || dir == Direction::Right);
    }
    let (dir, turns) = look_ahead(&mut board, &p(0, 0), 0);
    assert_eq!((dir, turns), (Direction::Down, 0));
}

#[test]
fn snakes_have_default_looks() {
    let s2 = Spaceheater2::new(0u8, 1u8, 2u8, None);
    assert_eq!(s2.customizations.color, "#b54d47");
    assert_eq!(s2.customizations.head, "scarf");
    let s3 = Spaceheater3::new(5i32, None);
    assert_eq!(s3.customizations.tail, "rocket");
    assert_eq!(s3.scorer, 5);
    let salami = Salami::new((), None);
    assert_eq!(salami.customizations.color, "#FF5C75");
    let mine = protocol::Customizations { color: "#000000".into(), head: "a".into(), tail: "b".into() };
    let s3 = Spaceheater3::new(1i32, Some(mine.clone()));
    assert_eq!(s3.customizations, mine);
}

#[test]
fn search_depth_shrinks_with_opponents() {
    assert_eq!(base_depth(0), 5);
    assert_eq!(base_depth(1), 3);
    assert_eq!(base_depth(4), 2);
    assert_eq!(base_depth(7), 1);
}

#[test]
fn logger_records_games() {
    let req = request(a_snake("you", vec![p(0, 0)]), vec![]);
    let mut logger = GameLogger::new();
    logger.new_game(req.clone());
    assert!(logger.record_move(req.clone(), None));
    let mut other = req.clone();
    other.game.id = "elsewhere".into();
    assert!(!logger.record_move(other, None));
    let game = logger.close_game(req.clone()).unwrap();
    assert_eq!(game.moves.len(), 1);
    assert!(game.end_request.is_some());
    assert_eq!(replay_filename(&game), "logs/you_game.json");
    assert!(logger.close_game(req).is_none());
}

#[test]
fn logger_gives_back_what_was_recorded() {
    let mut start = request(a_snake("you", vec![p(0, 0)]), vec![]);
    start.turn = 0;
    let mut logger = GameLogger::new();
    logger.new_game(start.clone());
    let mut first = start.clone();
    first.turn = 1;
    let mut second = start.clone();
    second.turn = 2;
    let answer = protocol::MoveResponse { direction: Direction::Left, shout: "hello".into() };
    assert!(logger.record_move(first, Some(&answer)));
    assert!(logger.record_move(second, None));
    let mut end = start.clone();
    end.turn = 3;
    let game = logger.close_game(end).unwrap();
    assert_eq!(game.start_request.turn, 0);
    assert_eq!(game.moves.len(), 2);
    assert_eq!(game.moves[0].0.turn, 1);
    let kept = game.moves[0].1.as_ref().unwrap();
    assert_eq!(kept.direction, Direction::Left);
    assert_eq!(kept.shout, "hello");
    assert_eq!(game.moves[1].0.turn, 2);
    assert!(game.moves[1].1.is_none());
    assert_eq!(game.end_request.unwrap().turn, 3);
}

#[test]
fn tile_is_only_food_where_food_is() {
    let req = request(a_snake("you", vec![p(0, 0)]), vec![]);
    let board = Board::from(&req.board);
    assert_eq!(board.get(&p(0, 0)), Tile::Head);
}

#[test]
fn replay_file_names_are_made_safe() {
    let req = request(a_snake("you/x", vec![p(0, 0)]), vec![]);
    let mut logger = GameLogger::new();
    logger.new_game(req.clone());
    let game = logger.close_game(req).unwrap();
    assert_eq!(replay_filename(&game), "logs/youx_game.json");
}

#[test]
fn squads_are_read_as_numbers() {
    let mut s = a_snake("you", vec![p(0, 0)]);
    s.squad = "7".into();
    assert_eq!(topsnek::logic::Snake::from(&s).squad, 7);
    s.squad = "blue".into();
    assert_eq!(topsnek::logic::Snake::from(&s).squad, 0);
}

#[test]
fn squad_numbers_are_read_as_str_parse_reads_them() {
    let mut s = a_snake("you", vec![p(0, 0)]);
    for (text, expected) in [("+12", 12), ("255", 255), ("256", 0), ("", 0), ("+", 0), ("-1", 0), ("007", 7), ("1 2", 0)] {
        s.squad = text.into();
        assert_eq!(topsnek::logic::Snake::from(&s).squad, expected, "squad {:?}", text);
        assert_eq!(text.parse::<u8>().unwrap_or(0), expected);
    }
}

#[test]
fn a_deadline_is_formed_even_when_already_past() {
    let short = std::time::Duration::from_millis(50);
    let margin = std::time::Duration::from_millis(100);
    assert!(deadline_within(&short, &margin).is_some());
    let long = std::time::Duration::from_millis(1000);
    assert!(deadline_within(&long, &margin).is_some());
}

#[test]
fn look_ahead_counts_the_longest_walk() {
    let req = request(a_snake("you", vec![p(0, 0)]), vec![]);
    let mut board = Board::from(&req.board);
    let (dir, turns) = look_ahead(&mut board, &p(0, 0), 3);
    assert_eq!(turns, 3);
    assert!(dir == Direction::Up || dir == Direction::Right);
}

#[test]
fn scorecard_text_lists_paths_by_depth() {
    let mut card = Scorecard::new();
    card.post_score(vec![Direction::Up], 5, None);
    card.post_score(vec![Direction::Up, Direction::Left], -9, Some("leaf".to_string()));
    card.post_score(vec![Direction::Down], 120, None);
    assert_eq!(
        card.to_text(),
        "[Up]: score 5 - \n[Down]: score 120 - \n[Up, Left]: score -9 - leaf\n"
    );
    assert_eq!(Scorecard::new().to_text(), "");
}
