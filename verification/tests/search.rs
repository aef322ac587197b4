use std::collections::VecDeque;
use std::time::{Duration, Instant};

use topsnek::logic::game::fits;
use topsnek::logic::scoring::tournament::{tournament_fits_game, TournamentScore};
use topsnek::logic::scoring::tournament_score;
use topsnek::logic::scoring::winter::{score_from_flood, score_parts_fit, SnakeScore, Weights};
use topsnek::logic::scoring::Scorer;
use topsnek::logic::search::{calculate_distances, find_path, voronoi as wrapped_voronoi};
use topsnek::logic::Board;
use topsnek::snakes::simple::{search_for_food, SimpleSnake};
use topsnek::Battlesnake;
use topsnek::logic::{Direction, Game, Point};
use topsnek::protocol;
use topsnek::snakes::spaceheater2::scores::Scoretree;
use topsnek::snakes::spaceheater2::solve::solve as solve_paths;
use topsnek::snakes::spaceheater2::Spaceheater2;
use topsnek::snakes::spaceheater3::alphabeta::AlphaBeta;
use topsnek::snakes::spaceheater3::leaves::{max_leaf_nodes_max_node, max_leaf_nodes_min_node};
use topsnek::snakes::spaceheater3::max::MaximizingNode;
use topsnek::snakes::spaceheater3::min::MinimizingNode;
use topsnek::snakes::spaceheater3::{deepen, Spaceheater3};

fn p(x: i8, y: i8) -> Point {
    Point { x, y }
}

fn a_snake(id: &str, body: Vec<Point>) -> protocol::Snake {
    protocol::Snake {
        id: id.into(),
        name: id.into(),
        health: 100,
        latency: "0".into(),
        head: body[0],
        length: body.len(),
        body: VecDeque::from(body),
        shout: "".into(),
        squad: "".into(),
        customizations: protocol::Customizations { color: "#ffffff".into(), head: "".into(), tail: "".into() },
    }
}

fn game_of(rules: &str, you: protocol::Snake, others: Vec<protocol::Snake>) -> Game {
    Game::from(&request_of(rules, you, others, vec![]))
}

fn request_of(rules: &str, you: protocol::Snake, others: Vec<protocol::Snake>, food: Vec<Point>) -> protocol::Request {
    let mut snakes = vec![you.clone()];
    snakes.extend(others);
    let req = protocol::Request {
        game: protocol::Game {
            id: "game".into(),
            ruleset: protocol::Ruleset {
                name: rules.into(),
                version: "v1".into(),
                settings: protocol::RulesetSettings {
                    food_spawn_chance: 15,
                    minimum_food: 1,
                    hazard_damage_per_turn: 14,
                    royale: protocol::RoyaleRules { shrink_every_n_turns: 0 },
                    squad: protocol::SquadRules {
                        allow_body_collisions: false,
                        shared_elimination: false,
                        shared_health: false,
                        shared_length: false,
                    },
                },
            },
            map: "standard".into(),
            timeout: 500,
            source: "test".into(),
        },
        turn: 1,
        board: protocol::Board { height: 11, width: 11, food, hazards: vec![], snakes },
        you,
    };
    req
}

/// Our snake in the bottom left corner, its neck above its head: only a move right
/// survives.
fn cornered() -> Game {
    game_of("standard", a_snake("you", vec![p(0, 0), p(0, 1), p(0, 2)]), vec![])
}

struct Length;

impl Scorer for Length {
    fn spec_score(&self, game: Game) -> i64 {
        self.score(&game)
    }

    fn score(&self, game: &Game) -> i64 {
        game.you.length as i64 + game.you.health as i64
    }
}

/// A score that does not change as the search deepens, so that deepening stops.
struct Alive;

impl Scorer for Alive {
    fn spec_score(&self, game: Game) -> i64 {
        self.score(&game)
    }

    fn score(&self, game: &Game) -> i64 {
        if game.you.health > 0 {
            1
        } else {
            0
        }
    }
}

fn soon() -> Instant {
    Instant::now() + Duration::from_secs(20)
}

#[test]
fn alpha_beta_prunes_once_the_bounds_cross() {
    let root = AlphaBeta::new(1, 5);
    assert!(!root.should_be_pruned());
    let mut child = root.new_child();
    assert!(!child.should_be_pruned());
    assert_eq!(child.new_alpha_score(3), 1);
    assert_eq!(child.alpha, 3);
    assert_eq!(child.new_alpha_score(2), 3);
    assert_eq!(child.alpha, 3);
    assert_eq!(child.new_beta_score(3), 5);
    assert!(child.should_be_pruned());
    let mut lone = AlphaBeta::new(1, 5);
    lone.new_beta_score(0);
    assert!(!lone.should_be_pruned());
}

#[test]
fn leaf_counts_grow_with_depth_and_opponents() {
    assert_eq!(max_leaf_nodes_max_node(0, 0), 1);
    assert_eq!(max_leaf_nodes_max_node(0, 3), 27);
    assert_eq!(max_leaf_nodes_max_node(1, 2), 81);
    assert_eq!(max_leaf_nodes_min_node(1, 2), 27);
    assert_eq!(max_leaf_nodes_max_node(3, 100), usize::MAX);
    assert_eq!(max_leaf_nodes_max_node(200, 1), usize::MAX);
    assert_eq!(max_leaf_nodes_min_node(200, 1), usize::MAX / 3);
}

#[test]
fn node_scores_order_their_children() {
    let mut low = MinimizingNode::new(Direction::Up);
    low.score = Some(3);
    let mut high = MinimizingNode::new(Direction::Down);
    high.score = Some(9);
    let none = MinimizingNode::new(Direction::Left);
    assert_eq!(high.cmp_scores(&low), std::cmp::Ordering::Less);
    assert_eq!(none.cmp_scores(&low), std::cmp::Ordering::Greater);
    let mut a = MaximizingNode::new(cornered());
    a.score = Some((Direction::Up, 4));
    let b = MaximizingNode::new(cornered());
    assert_eq!(a.cmp_scores(&b), std::cmp::Ordering::Less);
    assert_eq!(b.cmp_scores(&b), std::cmp::Ordering::Equal);
}

#[test]
fn maximizing_node_avoids_certain_death() {
    let mut root = MaximizingNode::new(cornered());
    let (res, count) = root.solve(&soon(), 1, &Length, &AlphaBeta::new(i64::MIN, i64::MAX));
    let (dir, _) = res.expect("a score");
    assert_eq!(dir, Direction::Right);
    assert!(count >= 1);
    assert_eq!(root.children.len(), 1);
    assert_eq!(root.children[0].my_move, Direction::Right);
    assert_eq!(root.score, res);
}

#[test]
fn maximizing_node_at_depth_zero_scores_the_game() {
    let game = cornered();
    let expected = Length.score(&game);
    let mut root = MaximizingNode::new(game);
    let (res, count) = root.solve(&soon(), 0, &Length, &AlphaBeta::new(i64::MIN, i64::MAX));
    assert_eq!(res, Some((Direction::Up, expected)));
    assert_eq!(count, 1);
}

#[test]
fn maximizing_node_past_the_deadline_gives_nothing() {
    let mut root = MaximizingNode::new(cornered());
    let past = Instant::now() - Duration::from_millis(10);
    let (res, count) = root.solve(&past, 3, &Length, &AlphaBeta::new(i64::MIN, i64::MAX));
    assert_eq!(res, None);
    assert_eq!(count, 0);
    assert_eq!(root.score, None);
}

#[test]
fn deepening_finds_the_only_way_out() {
    let mut root = MaximizingNode::new(cornered());
    let res = deepen(&mut root, &soon(), 1, &Alive);
    assert_eq!(res, Some((Direction::Right, 1)));
    let snake = Spaceheater3::new(Alive, None);
    let res = snake.solve(cornered(), &soon(), "game".into());
    assert_eq!(res.map(|r| r.0), Some(Direction::Right));
}

#[test]
fn path_search_avoids_certain_death() {
    let game = cornered();
    let scores = Scoretree::<i64>::new();
    let (path, _) = solve_paths(&game, vec![], &|g: &Game| g.you.health as i64, &scores, &soon(), 2, None, None);
    assert!(!path.is_empty());
    assert_eq!(path[0], Direction::Right);
    let (path, score) = solve_paths(&game, vec![], &|g: &Game| g.turn as i64, &scores, &soon(), 0, None, None);
    assert!(path.is_empty());
    assert_eq!(score, 1);
}

#[test]
fn scoretree_remembers_the_last_score_of_a_path() {
    let mut tree = Scoretree::<i64>::new();
    tree.insert(vec![Direction::Up], 5);
    tree.insert(vec![Direction::Up, Direction::Left], 7);
    tree.insert(vec![Direction::Up], 6);
    assert_eq!(tree.get_score(&vec![Direction::Up]), Some(6));
    assert_eq!(tree.get_score(&vec![Direction::Left]), None);
    let found = tree.get_scores(&vec![vec![Direction::Up, Direction::Left], vec![Direction::Down]]);
    assert_eq!(found, vec![(vec![Direction::Up, Direction::Left], 7)]);
}

#[test]
fn wrapped_voronoi_counts_our_tiles() {
    let alone = game_of("wrapped", a_snake("you", vec![p(5, 5), p(5, 4), p(5, 3)]), vec![]);
    assert_eq!(wrapped_voronoi(&alone), 121 - 2);
    let duel = game_of(
        "wrapped",
        a_snake("you", vec![p(2, 5), p(2, 4), p(2, 3)]),
        vec![a_snake("them", vec![p(8, 5), p(8, 4), p(8, 3)])],
    );
    let mine = wrapped_voronoi(&duel);
    assert!(mine > 20 && mine < 100);
}

fn weights() -> Weights {
    Weights {
        points_per_food: 7,
        points_per_tile: 2,
        points_per_hazard: 0,
        points_per_length_rank: 0,
        points_per_health: 1,
        points_per_distance_to_food: -1,
        food_distance_cap: 10,
        points_per_kill: 20,
        points_per_turn_survived: 5,
        points_per_distance_to_smaller_enemies: 0,
        enemy_distance_cap: 0,
        points_when_dead: -1000,
        hungry_mode_max_health: 50,
        points_per_length_diff: 0,
        length_diff_cap: 0,
    }
}

fn flood() -> Vec<SnakeScore> {
    let blank = SnakeScore {
        food_count: 0,
        tile_count: 0,
        hazard_count: 0,
        food_distance: u16::MAX,
        food_at_min_distance: 0,
        distance_to_collision: [u16::MAX; 12],
    };
    let mut f = vec![blank; 12];
    f[0].tile_count = 10;
    f[0].food_count = 2;
    f[0].food_distance = 3;
    f
}

#[test]
fn weighted_score_of_a_live_snake() {
    let game = cornered();
    assert_eq!(score_from_flood(&weights(), &game, &flood()), (5 + 100 + 20, 14 - 3, false));
}

#[test]
fn weighted_score_of_a_dead_snake() {
    let mut game = cornered();
    game.you.health = 0;
    game.dead_snakes = 2;
    assert_eq!(score_from_flood(&weights(), &game, &flood()), (40 + 5 - 5 - 20 - 1000, 0, false));
}

#[test]
fn a_turn_keeps_the_board_size() {
    let mut game = game_of(
        "standard",
        a_snake("you", vec![p(2, 5), p(2, 4), p(2, 3)]),
        vec![a_snake("them", vec![p(8, 5), p(8, 4), p(8, 3)])],
    );
    let (w, h) = (game.board.width(), game.board.height());
    let turn = game.turn;
    game.execute_moves(Direction::Up, &vec![Direction::Up]);
    assert_eq!((game.board.width(), game.board.height()), (w, h));
    assert_eq!(game.turn, turn + 1);
    assert_eq!(game.others.len(), 1);
    assert!(game.others.iter().all(|s| s.health > 0));
}

/// Distances from the bottom left corner of a 3 by 3 grid.
fn manhattan() -> Vec<Vec<Option<i64>>> {
    (0..3).map(|x| (0..3).map(|y| Some((x + y) as i64)).collect()).collect()
}

#[test]
fn path_walks_back_along_falling_distances() {
    let path = find_path(&manhattan(), &p(0, 0), &p(2, 2));
    assert_eq!(path, vec![Direction::Right, Direction::Right, Direction::Up, Direction::Up]);
}

#[test]
fn path_reaches_the_target_from_where_the_walk_ends() {
    let mut distances = manhattan();
    distances[1][0] = None;
    distances[0][1] = None;
    let path = find_path(&distances, &p(0, 0), &p(2, 2));
    let mut at = p(2, 2);
    for d in path.iter().rev() {
        at = match d {
            Direction::Up => p(at.x, at.y - 1),
            Direction::Down => p(at.x, at.y + 1),
            Direction::Left => p(at.x + 1, at.y),
            Direction::Right => p(at.x - 1, at.y),
        };
    }
    assert_ne!(at, p(0, 0));
    assert_eq!(path, vec![Direction::Up, Direction::Up]);
    assert_eq!(at, p(2, 0));
    let mut back = at;
    for d in path.iter() {
        back = back.neighbour(*d);
    }
    assert_eq!(back, p(2, 2));
}

#[test]
fn path_to_a_target_off_the_grid_or_at_the_start_is_empty() {
    assert!(find_path(&manhattan(), &p(0, 0), &p(5, 5)).is_empty());
    assert!(find_path(&manhattan(), &p(0, 0), &p(-1, 0)).is_empty());
    assert!(find_path(&manhattan(), &p(1, 1), &p(1, 1)).is_empty());
    assert!(find_path(&vec![], &p(0, 0), &p(1, 1)).is_empty());
}

#[test]
fn spaceheater2_moves_out_of_the_corner() {
    let snake = Spaceheater2::new(|g: &Game| g.you.health as i64, (), (), None);
    let (dir, _) = snake.solve(&cornered(), soon(), 2);
    assert_eq!(dir, Direction::Right);
    let (dir, score) = snake.solve(&cornered(), soon(), 0);
    assert_eq!((dir, score), (Direction::Down, 100));
}

fn board_with_food(you: Vec<Point>, food: Vec<Point>) -> Board {
    let req = request_of("standard", a_snake("you", you), vec![], food);
    Board::from(&req.board)
}

#[test]
fn distances_count_the_steps_to_food() {
    let board = board_with_food(vec![p(5, 5), p(5, 4), p(5, 3)], vec![p(5, 8)]);
    let d = calculate_distances(&board, &p(5, 5));
    assert_eq!(d.len(), 11);
    assert!(d.iter().all(|row| row.len() == 11));
    assert_eq!(d[5][5], Some(0));
    assert_eq!(d[5][6], Some(1));
    assert_eq!(d[5][7], Some(2));
    assert_eq!(d[5][8], Some(3));
}

#[test]
fn distances_without_food_reach_the_whole_board() {
    let board = board_with_food(vec![p(5, 5), p(5, 4), p(5, 3)], vec![]);
    let d = calculate_distances(&board, &p(5, 5));
    assert!(d.iter().all(|row| row.iter().all(|v| v.is_some())));
    assert_eq!(d[0][0], Some(10));
    assert!(d[5][4].unwrap() >= 9999999);
}

#[test]
fn food_search_heads_for_near_food() {
    let board = board_with_food(vec![p(5, 5), p(5, 4), p(5, 3)], vec![p(5, 8)]);
    assert_eq!(search_for_food(&board, &vec![p(5, 8)], &p(5, 5), 100), Some(Direction::Up));
}

#[test]
fn food_search_waits_while_not_hungry() {
    let board = board_with_food(vec![p(10, 10), p(10, 9), p(10, 8)], vec![p(0, 0)]);
    assert_eq!(search_for_food(&board, &vec![p(0, 0)], &p(10, 10), 100), None);
    assert_eq!(search_for_food(&board, &vec![p(0, 0)], &p(10, 10), 15), None);
    assert_eq!(search_for_food(&board, &vec![p(0, 0)], &p(10, 10), 25), Some(Direction::Left));
}

#[test]
fn simple_snake_eats_when_it_can() {
    let req = request_of("standard", a_snake("you", vec![p(5, 5), p(5, 4), p(5, 3)]), vec![], vec![p(5, 8)]);
    let res = SimpleSnake {}.make_move(&req).expect("a move");
    assert_eq!(res.direction, Direction::Up);
    assert_eq!(res.shout, "nom nom nom");
    assert_eq!(SimpleSnake {}.snake_info().color, "#ffff00");
}

#[test]
fn simple_snake_takes_a_fight_it_wins() {
    let req = request_of(
        "standard",
        a_snake("you", vec![p(5, 5), p(5, 4), p(5, 3), p(5, 2)]),
        vec![a_snake("them", vec![p(7, 5), p(8, 5), p(9, 5)])],
        vec![],
    );
    let res = SimpleSnake {}.make_move(&req).expect("a move");
    assert_eq!(res.direction, Direction::Right);
}

#[test]
fn requests_of_ordinary_size_fit() {
    let req = request_of("standard", a_snake("you", vec![p(0, 0), p(0, 1), p(0, 2)]), vec![], vec![]);
    assert!(fits(&req));
}

#[test]
fn tournament_scorer_scores_fitting_games() {
    let game = cornered();
    assert!(tournament_fits_game(&game));
    assert_eq!(TournamentScore.score(&game), tournament_score(&game));
    let mut dead = cornered();
    dead.you.health = 0;
    assert!(!tournament_fits_game(&dead));
    assert_eq!(TournamentScore.score(&dead), i64::MIN);
}

#[test]
fn flood_scoring_fits_small_games_only() {
    let game = cornered();
    assert!(score_parts_fit(&game));
    let mut long = cornered();
    long.turn = 0x4000_0001;
    assert!(!score_parts_fit(&long));
    let mut hot = cornered();
    hot.rules.hazard_damage_per_turn = 100;
    assert!(!score_parts_fit(&hot));
    hot.you.health = 0;
    assert!(score_parts_fit(&hot));
}

#[test]
fn minimax_snake_answers_with_its_best_move() {
    let req = request_of("standard", a_snake("you", vec![p(0, 0), p(0, 1), p(0, 2)]), vec![], vec![]);
    let snake = Spaceheater3::new(Alive, None);
    let res = snake.make_move(&req).expect("a move");
    assert_eq!(res.direction, Direction::Right);
    assert_eq!(res.shout, "1");
    assert_eq!(snake.snake_info().head, "scarf");
    let mut hurried = req.clone();
    hurried.game.timeout = 50;
    let late = snake.make_move(&hurried).expect("a move");
    assert_eq!(late.direction, Direction::Up);
    assert_eq!(late.shout, "no result");
}
