//! The recorded games of the benchmarks, in the wire format of the Battlesnake API with
//! unsigned coordinates.
use vstd::prelude::*;

verus! {

pub struct Point {
    pub x: u64,
    pub y: u64,
}

pub struct SnakeInfo {
    pub apiversion: String,
    pub author: String,
    pub color: String,
    pub head: String,
    pub tail: String,
    pub version: String,
}

pub struct Game {
    pub id: String,
    pub ruleset: Ruleset,
    pub map: String,
    pub timeout: i64,
    pub source: String,
}

pub struct Ruleset {
    pub name: String,
    pub version: String,
}

pub struct Board {
    pub height: u64,
    pub width: u64,
    pub food: Vec<Point>,
    pub hazards: Vec<Point>,
    pub snakes: Vec<Snake>,
}

pub struct Snake {
    pub id: String,
    pub name: String,
    pub health: u64,
    pub body: Vec<Point>,
    pub latency: u64,
    pub head: Point,
    pub length: u64,
    pub shout: String,
    pub squad: u64,
    pub customizations: Customizations,
}

pub struct Customizations {
    pub color: String,
    pub head: String,
    pub tail: String,
}

pub struct Request {
    pub game: Game,
    pub turn: u64,
    pub board: Board,
    pub you: Snake,
}

pub struct MoveResponse {
    pub direction: Direction,
    pub shout: String,
}

#[derive(Clone, Copy, PartialEq, Eq, Structural, Debug)]
pub enum Direction {
    Up,
    Down,
    Left,
    Right,
}

} // verus!
