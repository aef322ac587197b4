//! The rules of the game: points, tiles, boards, snakes and the game state.
use vstd::prelude::*;

pub mod board;
pub mod game;
pub mod laws;
pub mod snake;
pub mod voronoi;
pub mod point;
pub mod scoring;
pub mod queue;
pub mod search;

pub use board::Board;
pub use point::Point;

pub use snake::Snake;
pub use game::Game;
pub use crate::protocol::Direction;

verus! {

/// What occupies one tile of the board. Hazard variants carry the number of
/// stacked hazards on the tile.
#[derive(Clone, Copy, Debug, Eq, PartialEq, Structural)]
pub enum Tile {
    Empty,
    Snake,
    Head,
    Food,
    Hazard(u8),
    HazardWithFood(u8),
    HazardWithSnake(u8),
    HazardWithHead(u8),
    Wall,
}

/// The number of hazards stacked on a tile.
pub open spec fn spec_hazard_count(t: Tile) -> u8 {
    match t {
        Tile::Hazard(x) | Tile::HazardWithFood(x) | Tile::HazardWithSnake(x) | Tile::HazardWithHead(x) => x,
        _ => 0,
    }
}

pub open spec fn spec_has_food(t: Tile) -> bool {
    t is Food || t is HazardWithFood
}

pub open spec fn spec_is_hazard(t: Tile) -> bool {
    t is Hazard || t is HazardWithFood || t is HazardWithSnake || t is HazardWithHead
}

pub open spec fn spec_is_snake(t: Tile) -> bool {
    t is Snake || t is Head || t is HazardWithSnake || t is HazardWithHead
}

/// A tile a snake can move onto without colliding: empty or food, with or without hazards
/// under the food.
pub open spec fn spec_is_safe(t: Tile) -> bool {
    t is Empty || t is Food || t is HazardWithFood
}

/// The tile after putting `t` on top of `s`: food, snakes and heads keep the hazards of a
/// hazard tile; anything else replaces it.
pub open spec fn spec_tile_add(s: Tile, t: Tile) -> Tile {
    match s {
        Tile::Hazard(n) => match t {
            Tile::Snake => Tile::HazardWithSnake(n),
            Tile::Head => Tile::HazardWithHead(n),
            Tile::Food => Tile::HazardWithFood(n),
            _ => t,
        },
        _ => t,
    }
}

/// The tile without a snake on it.
pub open spec fn spec_tile_clear_snake(s: Tile) -> Tile {
    match s {
        Tile::Snake | Tile::Head => Tile::Empty,
        Tile::HazardWithSnake(n) | Tile::HazardWithHead(n) => Tile::Hazard(n),
        _ => s,
    }
}

/// The tile without food on it (food under hazards leaves an empty tile).
pub open spec fn spec_tile_clear_food(s: Tile) -> Tile {
    match s {
        Tile::Food | Tile::HazardWithFood(_) => Tile::Empty,
        _ => s,
    }
}

pub open spec fn spec_opposite(d: Direction) -> Direction {
    match d {
        Direction::Up => Direction::Down,
        Direction::Down => Direction::Up,
        Direction::Left => Direction::Right,
        Direction::Right => Direction::Left,
    }
}

impl Tile {
    pub fn add(&self, t: Tile) -> (res: Tile)
        ensures
            res == spec_tile_add(*self, t),
    {
        match self {
            Tile::Hazard(n) => match t {
                Tile::Snake => Tile::HazardWithSnake(*n),
                Tile::Head => Tile::HazardWithHead(*n),
                Tile::Food => Tile::HazardWithFood(*n),
                _ => t,
            },
            _ => t,
        }
    }

    pub fn clear_snake(&self) -> (res: Tile)
        ensures
            res == spec_tile_clear_snake(*self),
    {
        match self {
            Tile::Snake => Tile::Empty,
            Tile::Head => Tile::Empty,
            Tile::HazardWithSnake(n) => Tile::Hazard(*n),
            Tile::HazardWithHead(n) => Tile::Hazard(*n),
            _ => *self,
        }
    }

    pub fn clear_food(&self) -> (res: Tile)
        ensures
            res == spec_tile_clear_food(*self),
    {
        match self {
            Tile::Food => Tile::Empty,
            Tile::HazardWithFood(_) => Tile::Empty,
            _ => *self,
        }
    }

    pub fn has_food(&self) -> (res: bool)
        ensures
            res == spec_has_food(*self),
    {
        match self {
            Tile::Food => true,
            Tile::HazardWithFood(_) => true,
            _ => false,
        }
    }

    pub fn is_hazard(&self) -> (res: bool)
        ensures
            res == spec_is_hazard(*self),
    {
        match self {
            Tile::Hazard(_) => true,
            Tile::HazardWithFood(_) => true,
            Tile::HazardWithSnake(_) => true,
            Tile::HazardWithHead(_) => true,
            _ => false,
        }
    }

    pub fn is_snake(&self) -> (res: bool)
        ensures
            res == spec_is_snake(*self),
    {
        match self {
            Tile::Snake => true,
            Tile::Head => true,
            Tile::HazardWithSnake(_) => true,
            Tile::HazardWithHead(_) => true,
            _ => false,
        }
    }

    pub fn is_safe(&self) -> (res: bool)
        ensures
            res == spec_is_safe(*self),
    {
        match self {
            Tile::Empty => true,
            Tile::Food => true,
            Tile::HazardWithFood(_) => true,
            _ => false,
        }
    }

    pub fn hazard_count(&self) -> (res: u8)
        ensures
            res == spec_hazard_count(*self),
    {
        match self {
            Tile::Hazard(x) => *x,
            Tile::HazardWithFood(x) => *x,
            Tile::HazardWithSnake(x) => *x,
            Tile::HazardWithHead(x) => *x,
            _ => 0,
        }
    }

    /// The character that stands for the tile when a board is drawn.
    pub fn symbol(&self) -> (res: &'static str)
        ensures
            res@ == spec_symbol(*self),
    {
        match self {
            Tile::Empty => ".",
            Tile::Snake => "O",
            Tile::Head => "o",
            Tile::Hazard(_) => "x",
            Tile::Food => "+",
            Tile::HazardWithFood(_) => "*",
            Tile::HazardWithSnake(_) => "⦻",
            Tile::HazardWithHead(_) => "⦻",
            Tile::Wall => "#",
        }
    }
}

impl Direction {
    pub fn opposite(&self) -> (res: Direction)
        ensures
            res == spec_opposite(*self),
    {
        match self {
            Direction::Up => Direction::Down,
            Direction::Down => Direction::Up,
            Direction::Left => Direction::Right,
            Direction::Right => Direction::Left,
        }
    }
}

/// The opposite of the opposite direction is the direction itself.
pub proof fn lemma_opposite_involution(d: Direction)
    ensures
        spec_opposite(spec_opposite(d)) == d,
{
}

/// Clearing a snake from a tile leaves no snake on it and keeps its hazards.
pub proof fn lemma_clear_snake_removes_snake(t: Tile)
    ensures
        !spec_is_snake(spec_tile_clear_snake(t)),
        spec_hazard_count(spec_tile_clear_snake(t)) == spec_hazard_count(t),
{
}

/// Putting food, a snake or a head on a plain hazard keeps the hazard count.
pub proof fn lemma_add_keeps_hazards(n: u8, t: Tile)
    requires
        t is Food || t is Snake || t is Head,
    ensures
        spec_hazard_count(spec_tile_add(Tile::Hazard(n), t)) == n,
        spec_is_hazard(spec_tile_add(Tile::Hazard(n), t)),
{
}

/// The character that stands for a tile when a board is drawn.
pub open spec fn spec_symbol(t: Tile) -> Seq<char> {
    match t {
        Tile::Empty => "."@,
        Tile::Snake => "O"@,
        Tile::Head => "o"@,
        Tile::Hazard(_) => "x"@,
        Tile::Food => "+"@,
        Tile::HazardWithFood(_) => "*"@,
        Tile::HazardWithSnake(_) => "⦻"@,
        Tile::HazardWithHead(_) => "⦻"@,
        Tile::Wall => "#"@,
    }
}

/// Anything that holds tiles on a board of some size.
pub trait BoardLike {
    fn get(&self, p: &Point) -> Tile;

    fn set(&mut self, p: &Point, v: Tile);

    fn width(&self) -> isize;

    fn height(&self) -> isize;

    /// The number of boards stacked in this one.
    fn layers(&self) -> (res: usize)
        ensures
            res == 1,
    {
        1
    }
}

impl BoardLike for Board {
    fn get(&self, p: &Point) -> (res: Tile)
        ensures
            res == self.tile_at(*p),
    {
        Board::get(self, p)
    }

    fn set(&mut self, p: &Point, v: Tile)
        ensures
            final(self)@ == old(self)@.set(*p, v),
    {
        Board::set(self, p, v)
    }

    fn width(&self) -> (res: isize)
        ensures
            res == self@.width,
    {
        Board::width(self)
    }

    fn height(&self) -> (res: isize)
        ensures
            res == self@.height,
    {
        Board::height(self)
    }
}

} // verus!
