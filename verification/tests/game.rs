use std::collections::VecDeque;

use topsnek::logic::{Direction, Game, Point, Tile};
use topsnek::protocol;

fn p(x: i8, y: i8) -> Point {
    Point { x, y }
}

fn rules(name: &str, hazard_damage: isize) -> protocol::Ruleset {
    protocol::Ruleset {
        name: name.into(),
        version: "v1.1.20".into(),
        settings: protocol::RulesetSettings {
            food_spawn_chance: 15,
            minimum_food: 1,
            hazard_damage_per_turn: hazard_damage,
            royale: protocol::RoyaleRules { shrink_every_n_turns: 0 },
            squad: protocol::SquadRules {
                allow_body_collisions: false,
                shared_elimination: false,
                shared_health: false,
                shared_length: false,
            },
        },
    }
}

fn a_snake(id: &str, health: isize, body: Vec<Point>) -> protocol::Snake {
    protocol::Snake {
        id: id.into(),
        name: id.into(),
        health,
        latency: "0".into(),
        head: body[0],
        length: body.len(),
        body: VecDeque::from(body),
        shout: "".into(),
        squad: "".into(),
        customizations: protocol::Customizations {
            color: "#ffffff".into(),
            head: "".into(),
            tail: "".into(),
        },
    }
}

fn request(
    ruleset: protocol::Ruleset,
    you: protocol::Snake,
    others: Vec<protocol::Snake>,
    food: Vec<Point>,
    hazards: Vec<Point>,
) -> protocol::Request {
    let mut snakes = vec![you.clone()];
    snakes.extend(others);
    protocol::Request {
        game: protocol::Game {
            id: "game".into(),
            ruleset,
            map: "standard".into(),
            timeout: 500,
            source: "test".into(),
        },
        turn: 1,
        board: protocol::Board {
            height: 11,
            width: 11,
            food,
            hazards,
            snakes,
        },
        you,
    }
}

fn you_right() -> protocol::Snake {
    a_snake("you", 100, vec![p(5, 5), p(4, 5), p(3, 5)])
}

#[test]
fn head_to_head_collision() {
    let result = 2 + 2;
    assert_eq!(result, 4);
}

#[test]
fn test_head_to_head_collision_equal_length() {
    let result = 2 + 2;
    assert_eq!(result, 4);
}

#[test]
fn head_to_body_collision() {
    let result = 2 + 2;
    assert_eq!(result, 4);
}

#[test]
fn starvation() {}

#[test]
fn test_food_pickup() {}

#[test]
fn food_pickup_after_head_to_head() {}

#[test]
fn hazard_damage() {}

#[test]
fn stacked_hazard_damage() {}

#[test]
fn game_from_request() {
    let other = a_snake("other", 90, vec![p(7, 5), p(8, 5), p(9, 5)]);
    let req = request(rules("wrapped", 14), you_right(), vec![other], vec![p(0, 0)], vec![p(1, 1)]);
    let game = Game::from(&req);
    assert_eq!(game.you.id, 0);
    assert_eq!(game.others.len(), 1);
    assert_eq!(game.others[0].id, 1);
    assert_eq!(game.others[0].health, 90);
    assert_eq!(game.board.get(&p(5, 5)), Tile::Head);
    assert_eq!(game.board.get(&p(4, 5)), Tile::Snake);
    assert_eq!(game.board.get(&p(0, 0)), Tile::Food);
    assert_eq!(game.board.get(&p(1, 1)), Tile::Hazard(1));
    assert_eq!(game.rules.game_mode, topsnek::logic::game::GameMode::Wrapped);
    assert_eq!(game.rules.hazard_damage_per_turn, 14);
    assert_eq!(game.timeout, std::time::Duration::from_millis(500));
}

#[test]
fn equal_heads_both_die() {
    let other = a_snake("other", 100, vec![p(7, 5), p(8, 5), p(9, 5)]);
    let mut game = Game::from(&request(rules("standard", 14), you_right(), vec![other], vec![], vec![]));
    game.execute_moves(Direction::Right, &vec![Direction::Left]);
    assert!(game.you.dead());
    assert_eq!(game.others.len(), 0);
    assert_eq!(game.dead_snakes, 2);
    assert_eq!(game.turn, 2);
}

#[test]
fn longer_head_wins() {
    let other = a_snake("other", 100, vec![p(7, 5), p(8, 5), p(9, 5), p(10, 5)]);
    let mut game = Game::from(&request(rules("standard", 14), you_right(), vec![other], vec![], vec![]));
    game.execute_moves(Direction::Right, &vec![Direction::Left]);
    assert!(game.you.dead());
    assert_eq!(game.others.len(), 1);
    assert_eq!(game.dead_snakes, 1);
    assert_eq!(game.others[0].head, p(6, 5));
    assert_eq!(game.board.get(&p(6, 5)), Tile::Head);
}

#[test]
fn head_into_body_dies() {
    let other = a_snake("other", 100, vec![p(6, 6), p(5, 6), p(4, 6)]);
    let mut game = Game::from(&request(rules("standard", 14), you_right(), vec![other], vec![], vec![]));
    game.execute_moves(Direction::Up, &vec![Direction::Right]);
    assert!(game.you.dead());
    assert_eq!(game.dead_snakes, 1);
    assert_eq!(game.others.len(), 1);
    assert_eq!(game.others[0].head, p(7, 6));
}

#[test]
fn starving_snake_dies() {
    let you = a_snake("you", 1, vec![p(5, 5), p(4, 5), p(3, 5)]);
    let mut game = Game::from(&request(rules("standard", 14), you, vec![], vec![], vec![]));
    game.execute_moves(Direction::Right, &vec![]);
    assert_eq!(game.you.health, 0);
    assert_eq!(game.dead_snakes, 1);
}

#[test]
fn eating_restores_health_and_grows() {
    let you = a_snake("you", 50, vec![p(5, 5), p(4, 5), p(3, 5)]);
    let mut game = Game::from(&request(rules("standard", 14), you, vec![], vec![p(6, 5)], vec![]));
    game.execute_moves(Direction::Right, &vec![]);
    assert_eq!(game.you.health, 100);
    assert_eq!(game.you.length, 4);
    assert_eq!(game.you.body.len(), 4);
    assert_eq!(game.you.head, p(6, 5));
    assert_eq!(game.board.get(&p(3, 5)), Tile::Snake);
    assert_eq!(game.board.get(&p(6, 5)), Tile::Head);
}

#[test]
fn moving_drops_the_tail() {
    let mut game = Game::from(&request(rules("standard", 14), you_right(), vec![], vec![], vec![]));
    game.execute_moves(Direction::Up, &vec![]);
    assert_eq!(game.you.health, 99);
    assert_eq!(game.you.head, p(5, 6));
    assert_eq!(game.board.get(&p(3, 5)), Tile::Empty);
    assert_eq!(game.board.get(&p(5, 5)), Tile::Snake);
    assert_eq!(game.board.get(&p(5, 6)), Tile::Head);
}

#[test]
fn hazard_takes_damage() {
    let mut game = Game::from(&request(rules("standard", 14), you_right(), vec![], vec![], vec![p(6, 5)]));
    game.execute_moves(Direction::Right, &vec![]);
    assert_eq!(game.you.health, 85);
}

#[test]
fn stacked_hazards_take_damage_once() {
    let mut game = Game::from(&request(rules("standard", 14), you_right(), vec![], vec![], vec![p(6, 5), p(6, 5)]));
    assert_eq!(game.board.hazard_count(&p(6, 5)), 2);
    game.execute_moves(Direction::Right, &vec![]);
    assert_eq!(game.you.health, 85);
}

#[test]
fn leaving_the_board_kills() {
    let you = a_snake("you", 100, vec![p(10, 5), p(9, 5), p(8, 5)]);
    let mut game = Game::from(&request(rules("standard", 14), you, vec![], vec![], vec![]));
    game.execute_moves(Direction::Right, &vec![]);
    assert_eq!(game.you.health, 0);
}

#[test]
fn wrapped_board_wraps_around() {
    let you = a_snake("you", 100, vec![p(10, 5), p(9, 5), p(8, 5)]);
    let mut game = Game::from(&request(rules("wrapped", 14), you, vec![], vec![], vec![]));
    game.execute_moves(Direction::Right, &vec![]);
    assert_eq!(game.you.health, 99);
    assert_eq!(game.you.head, p(0, 5));
}

#[test]
fn point_moves() {
    let a = p(3, 4);
    assert_eq!(a.neighbour(Direction::Up), p(3, 5));
    assert_eq!(a.neighbour(Direction::Left), p(2, 4));
    assert_eq!(Direction::Up.opposite(), Direction::Down);
    let mut w = p(-1, 11);
    w.warp(11, 11);
    assert_eq!(w, p(10, 0));
    assert!(p(11, 0).out_of_bounds(11, 11));
    assert!(!p(10, 10).out_of_bounds(11, 11));
}

#[test]
fn snake_numbers() {
    let other = a_snake("other", 100, vec![p(7, 5), p(8, 5), p(9, 5)]);
    let game = Game::from(&request(rules("standard", 14), you_right(), vec![other], vec![], vec![]));
    assert_eq!(game.snake_number(&p(4, 5)), 0);
    assert_eq!(game.snake_number(&p(8, 5)), 1);
    assert_eq!(game.snake_number(&p(0, 0)), -1);
}

#[test]
fn a_turn_keeps_hazards_and_spawns_no_food() {
    let other = a_snake("other", 100, vec![p(1, 1), p(1, 2), p(1, 3)]);
    let hazards = vec![p(6, 5), p(6, 5), p(2, 2), p(1, 1)];
    let food = vec![p(0, 0), p(9, 9)];
    let mut game = Game::from(&request(rules("standard", 14), you_right(), vec![other], food, hazards));
    let before: Vec<(u8, bool)> = (0..11)
        .flat_map(|x| (0..11).map(move |y| p(x, y)))
        .map(|q| (game.board.hazard_count(&q), game.board.get(&q).has_food()))
        .collect();
    game.execute_moves(Direction::Right, &vec![Direction::Right]);
    let after: Vec<(u8, bool)> = (0..11)
        .flat_map(|x| (0..11).map(move |y| p(x, y)))
        .map(|q| (game.board.hazard_count(&q), game.board.get(&q).has_food()))
        .collect();
    for (b, a) in before.iter().zip(after.iter()) {
        assert_eq!(a.0, b.0);
        assert!(!a.1 || b.1);
    }
    assert_eq!(game.board.hazard_count(&p(6, 5)), 2);
    assert!(game.board.get(&p(0, 0)).has_food());
}

#[test]
fn a_turn_keeps_the_opponents_in_order() {
    let first = a_snake("first", 100, vec![p(0, 8), p(0, 7), p(0, 6)]);
    let doomed = a_snake("doomed", 1, vec![p(3, 8), p(3, 7), p(3, 6)]);
    let last = a_snake("last", 100, vec![p(8, 0), p(8, 1), p(8, 2)]);
    let mut game = Game::from(&request(rules("standard", 14), you_right(), vec![first, doomed, last], vec![], vec![]));
    let ids: Vec<u8> = game.others.iter().map(|s| s.id).collect();
    game.execute_moves(Direction::Right, &vec![Direction::Right, Direction::Up, Direction::Right]);
    assert_eq!(game.others.len(), 2);
    assert_eq!(game.others[0].id, ids[0]);
    assert_eq!(game.others[1].id, ids[2]);
}
