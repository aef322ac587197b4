use std::collections::VecDeque;

use topsnek::logic::scoring::encoding::{decode_text, encode_bytes};
use topsnek::logic::scoring::winter::{floodfill, winter_floodfill};
use topsnek::logic::scoring::{classic, kills, tournament_score, turns_survived, voronoi, voronoi_all, voronoi_me};
use topsnek::logic::{voronoi as partition, Game, Point};
use topsnek::protocol;

fn p(x: i8, y: i8) -> Point {
    Point { x, y }
}

fn a_snake(id: &str, body: Vec<Point>) -> protocol::Snake {
    protocol::Snake {
        id: id.into(),
        name: id.into(),
        health: 100,
        latency: "0".into(),
        head: body[0],
        length: body.len(),
        body: VecDeque::from(body),
        shout: "".into(),
        squad: "".into(),
        customizations: protocol::Customizations { color: "#ffffff".into(), head: "".into(), tail: "".into() },
    }
}

fn game_on(width: usize, height: usize, you: protocol::Snake, others: Vec<protocol::Snake>, food: Vec<Point>) -> Game {
    let mut snakes = vec![you.clone()];
    snakes.extend(others);
    let req = protocol::Request {
        game: protocol::Game {
            id: "g".into(),
            ruleset: protocol::Ruleset {
                name: "standard".into(),
                version: "v1".into(),
                settings: protocol::RulesetSettings {
                    food_spawn_chance: 15,
                    minimum_food: 1,
                    hazard_damage_per_turn: 14,
                    royale: protocol::RoyaleRules { shrink_every_n_turns: 0 },
                    squad: protocol::SquadRules {
                        allow_body_collisions: false,
                        shared_elimination: false,
                        shared_health: false,
                        shared_length: false,
                    },
                },
            },
            map: "standard".into(),
            timeout: 500,
            source: "test".into(),
        },
        turn: 7,
        board: protocol::Board { height, width, food, hazards: vec![], snakes },
        you,
    };
    Game::from(&req)
}

fn corridor_duel() -> Game {
    game_on(11, 1, a_snake("you", vec![p(0, 0)]), vec![a_snake("other", vec![p(10, 0)])], vec![])
}

#[test]
fn floodfill_splits_a_corridor() {
    let scores = floodfill(&corridor_duel(), u16::MAX);
    assert_eq!(scores.len(), 12);
    assert_eq!(scores[0].tile_count, 5);
    assert_eq!(scores[1].tile_count, 5);
    assert_eq!(scores[2].tile_count, 0);
    assert_eq!(scores[0].distance_to_collision[1], 5);
    assert_eq!(scores[1].distance_to_collision[0], 5);
    assert_eq!(scores[0].distance_to_collision[0], 0);
    assert_eq!(scores[0].food_distance, u16::MAX);
}

#[test]
fn floodfill_counts_food() {
    let game = game_on(11, 1, a_snake("you", vec![p(0, 0)]), vec![], vec![p(3, 0), p(5, 0)]);
    let scores = floodfill(&game, u16::MAX);
    assert_eq!(scores[0].tile_count, 11);
    assert_eq!(scores[0].food_count, 2);
    assert_eq!(scores[0].food_distance, 3);
    assert_eq!(scores[0].food_at_min_distance, 1);
}

#[test]
fn floodfill_covers_an_open_board() {
    let game = game_on(11, 11, a_snake("you", vec![p(5, 5), p(4, 5), p(3, 5)]), vec![], vec![]);
    let scores = floodfill(&game, u16::MAX);
    assert_eq!(scores[0].tile_count, 121);
}

#[test]
fn floodfill_stops_at_max_distance() {
    let game = game_on(11, 1, a_snake("you", vec![p(0, 0)]), vec![], vec![]);
    let scores = floodfill(&game, 4);
    assert_eq!(scores[0].tile_count, 4);
}

#[test]
fn winter_floodfill_numbers_opponents_from_one() {
    let scores = winter_floodfill(&corridor_duel(), 11, 1, 2, u16::MAX);
    assert_eq!(scores.len(), 2);
    assert_eq!(scores[0].tile_count, 5);
    assert_eq!(scores[1].tile_count, 5);
    assert_eq!(scores[0].distance_to_collision[1], 5);
}

#[test]
fn voronoi_splits_a_corridor() {
    let game = corridor_duel();
    assert_eq!(partition::all(&game), vec![5, 5]);
    assert_eq!(partition::me(&game), 5);
    assert_eq!(partition::me_range_limit(&game, 3), 3);
    assert_eq!(voronoi_me(&game), 5);
    assert_eq!(voronoi_all(&game), 5);
}

#[test]
fn scores_of_a_live_snake() {
    let game = corridor_duel();
    assert_eq!(turns_survived(&game), 7);
    assert_eq!(kills(&game), 0);
    let c = classic(&game);
    assert_eq!(c.turns_survived, 7);
    assert_eq!(c.kills, 0);
    assert_eq!(c.length, 1);
    let v = voronoi(&game);
    assert_eq!(v.tiles_controlled, 5);
    assert_eq!(v.length, 1);
    assert_eq!(tournament_score(&game), 5 * 1000 + 7);
}

#[test]
fn scores_compare_by_survival_first() {
    let game = corridor_duel();
    let a = classic(&game);
    let mut b = a;
    b.turns_survived += 1;
    b.length = 0;
    assert!(a < b);
}

#[test]
fn voronoi_keeps_our_head_tile() {
    assert_eq!(partition::me_range_limit(&corridor_duel(), 0), 1);
    let boxed = game_on(
        3,
        3,
        a_snake("you", vec![p(0, 0), p(1, 0), p(1, 1), p(0, 1)]),
        vec![a_snake("other", vec![p(2, 2)])],
        vec![],
    );
    assert_eq!(partition::me(&boxed), 1);
    assert_eq!(voronoi_me(&boxed), 1);
    assert_eq!(voronoi_all(&boxed), 1);
}

#[test]
fn floodfill_leaves_a_draw_to_nobody() {
    let game = game_on(7, 7, a_snake("you", vec![p(2, 3)]), vec![a_snake("other", vec![p(4, 3)])], vec![]);
    let r = floodfill(&game, 2);
    assert_eq!(r[0].tile_count, 4);
    assert_eq!(r[1].tile_count, 4);
    assert_eq!(r[0].distance_to_collision[1], 1);
    assert_eq!(r[1].distance_to_collision[0], 1);
    assert_eq!(r[0].food_count, 0);
    for k in 2..12 {
        assert_eq!(r[k].tile_count, 0);
    }
}

#[test]
fn voronoi_leaves_a_draw_to_nobody() {
    let game = game_on(5, 1, a_snake("you", vec![p(0, 0)]), vec![a_snake("other", vec![p(4, 0)])], vec![]);
    assert_eq!(partition::me(&game), 2);
    assert_eq!(partition::all(&game), vec![2, 2]);
}

#[test]
fn voronoi_scores_rank_by_tiles_after_survival() {
    let game = corridor_duel();
    let a = voronoi(&game);
    let mut b = a;
    b.tiles_controlled += 1;
    b.kills = 0;
    b.length = -5;
    assert!(a < b);
    let mut c = a;
    c.turns_survived -= 1;
    c.tiles_controlled += 100;
    assert!(c < a);
    assert_eq!(a.partial_cmp(&a), Some(std::cmp::Ordering::Equal));
}

#[test]
fn encoded_bytes_decode_to_themselves() {
    let table: Vec<char> = "abcdefghij".chars().collect();
    let bytes: Vec<u8> = vec![3, 0, 9, 9, 1];
    let text = encode_bytes(&table, &bytes);
    assert_eq!(text, vec!['d', 'a', 'j', 'j', 'b']);
    assert_eq!(decode_text(&table, &text), Ok(bytes));
}

#[test]
fn decoding_refuses_the_first_unknown_character() {
    let table: Vec<char> = "abca".chars().collect();
    let text: Vec<char> = "cazy".chars().collect();
    assert_eq!(decode_text(&table, &text), Err('z'));
    let repeated: Vec<char> = "aa".chars().collect();
    assert_eq!(decode_text(&table, &repeated), Ok(vec![0, 0]));
}

#[test]
fn characters_past_the_byte_range_are_refused() {
    let mut table: Vec<char> = (0..256).map(|i| char::from_u32(0x100 + i).unwrap()).collect();
    table.push('!');
    let text: Vec<char> = vec![table[255], '!'];
    assert_eq!(decode_text(&table, &text), Err('!'));
}

#[test]
fn within_one_step_we_hold_only_our_head() {
    let you = a_snake("you", vec![p(2, 2), p(2, 1), p(2, 0)]);
    let others = vec![a_snake("a", vec![p(6, 6), p(6, 5)]), a_snake("b", vec![p(0, 6), p(0, 5), p(0, 4), p(0, 3)])];
    let game = game_on(8, 8, you, others, vec![]);
    assert_eq!(partition::me_range_limit(&game, 1), 1);
    assert_eq!(partition::me_range_limit(&game, 0), 1);
    assert!(partition::me_range_limit(&game, 2) > 1);
}

#[test]
fn a_snake_keeps_its_head_tile() {
    let you = a_snake("you", vec![p(0, 0), p(1, 0), p(1, 1), p(0, 1)]);
    let game = game_on(11, 11, you, vec![a_snake("other", vec![p(5, 5), p(5, 4)])], vec![]);
    assert_eq!(winter_floodfill(&game, 11, 11, 2, 1)[0].tile_count, 1);
    assert_eq!(floodfill(&game, 1)[0].tile_count, 1);
    let alone = game_on(11, 11, a_snake("you", vec![p(0, 0)]), vec![], vec![]);
    assert!(winter_floodfill(&alone, 11, 11, 1, 1)[0].tile_count >= 1);
}
