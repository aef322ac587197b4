//! The wire format of the Battlesnake API, as plain data.
//! See <https://docs.battlesnake.com/api>.
use vstd::prelude::*;

use std::collections::VecDeque;

verus! {

/// A position on the board; `(0, 0)` is the bottom left corner.
#[derive(Default, Hash, Eq, PartialEq, Structural, Clone, Copy, Debug)]
pub struct Point {
    pub x: i8,
    pub y: i8,
}

/// What a snake tells the server about itself.
#[derive(Clone, Debug)]
pub struct SnakeInfo {
    pub apiversion: String,
    pub author: String,
    pub color: String,
    pub head: String,
    pub tail: String,
    pub version: String,
}

#[derive(Clone, Debug)]
pub struct Game {
    pub id: String,
    pub ruleset: Ruleset,
    pub map: String,
    pub timeout: isize,
    pub source: String,
}

#[derive(Clone, Eq, PartialEq, Debug)]
pub struct Ruleset {
    pub name: String,
    pub version: String,
    pub settings: RulesetSettings,
}

#[derive(Clone, Eq, PartialEq, Debug)]
pub struct RulesetSettings {
    pub food_spawn_chance: usize,
    pub minimum_food: usize,
    pub hazard_damage_per_turn: isize,
    pub royale: RoyaleRules,
    pub squad: SquadRules,
}

#[derive(Clone, Copy, Eq, PartialEq, Debug)]
pub struct RoyaleRules {
    pub shrink_every_n_turns: usize,
}

#[derive(Clone, Copy, Eq, PartialEq, Debug)]
pub struct SquadRules {
    pub allow_body_collisions: bool,
    pub shared_elimination: bool,
    pub shared_health: bool,
    pub shared_length: bool,
}

#[derive(Clone, Debug)]
pub struct Board {
    pub height: usize,
    pub width: usize,
    pub food: Vec<Point>,
    pub hazards: Vec<Point>,
    pub snakes: Vec<Snake>,
}

#[derive(Clone, Hash, Eq, PartialEq, Debug)]
pub struct Snake {
    pub id: String,
    pub name: String,
    pub health: isize,
    pub body: VecDeque<Point>,
    pub latency: String,
    pub head: Point,
    pub length: usize,
    pub shout: String,
    pub squad: String,
    pub customizations: Customizations,
}

#[derive(Clone, Hash, Eq, PartialEq, Debug)]
pub struct Customizations {
    pub color: String,
    pub head: String,
    pub tail: String,
}

/// The body of the start, move and end requests.
#[derive(Clone, Debug)]
pub struct Request {
    pub game: Game,
    pub turn: usize,
    pub board: Board,
    pub you: Snake,
}

/// The answer to a move request.
#[derive(Clone, Debug)]
pub struct MoveResponse {
    pub direction: Direction,
    pub shout: String,
}

/// One of the four moves a snake can make.
#[derive(Eq, PartialEq, Structural, Hash, Debug, Copy, Clone)]
pub enum Direction {
    Up,
    Down,
    Left,
    Right,
}

pub open spec fn spec_all_directions() -> Seq<Direction> {
    seq![Direction::Up, Direction::Down, Direction::Left, Direction::Right]
}

/// The four directions, in the order in which the search algorithms try them.
pub fn all_directions() -> (res: [Direction; 4])
    ensures
        res@ == spec_all_directions(),
{
    [Direction::Up, Direction::Down, Direction::Left, Direction::Right]
}

/// The name of a direction, as it is printed.
pub open spec fn spec_name(d: Direction) -> Seq<char> {
    match d {
        Direction::Up => "Up"@,
        Direction::Down => "Down"@,
        Direction::Left => "Left"@,
        Direction::Right => "Right"@,
    }
}

impl Direction {
    /// The name of the direction, as it is printed.
    pub fn name(&self) -> (res: &'static str)
        ensures
            res@ == spec_name(*self),
    {
        match self {
            Direction::Up => "Up",
            Direction::Down => "Down",
            Direction::Left => "Left",
            Direction::Right => "Right",
        }
    }
}

} // verus!
