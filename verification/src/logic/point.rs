//! Moving points around the board.
use vstd::prelude::*;

pub use crate::protocol::Point;
use crate::protocol::Direction;
#[allow(unused_imports)]
use super::spec_opposite;

verus! {

/// The point one step away from `p` in direction `d` (`Up` increases `y`).
pub open spec fn spec_neighbour(p: Point, d: Direction) -> Point {
    match d {
        Direction::Up => Point { x: p.x, y: (p.y + 1) as i8 },
        Direction::Down => Point { x: p.x, y: (p.y - 1) as i8 },
        Direction::Left => Point { x: (p.x - 1) as i8, y: p.y },
        Direction::Right => Point { x: (p.x + 1) as i8, y: p.y },
    }
}

/// A point whose four neighbours are representable.
pub open spec fn has_neighbours(p: Point) -> bool {
    i8::MIN < p.x < i8::MAX && i8::MIN < p.y < i8::MAX
}

/// Whether `p` lies off a board of the given size, with the size narrowed to `i8`
/// as the game engine does.
pub open spec fn spec_out_of_bounds(p: Point, width: isize, height: isize) -> bool {
    p.x < 0 || p.y < 0 || p.x >= width as i8 || p.y >= height as i8
}

/// One coordinate after wrapping around a board edge of length `len` (already narrowed
/// to `i8`): `-1` becomes `len - 1`, then `len` becomes `0`.
pub open spec fn spec_warp_coord(c: i8, len: i8) -> i8 {
    let c1 = if c == -1 { (len - 1) as i8 } else { c };
    if c1 == len { 0 } else { c1 }
}

/// The point after wrapping both coordinates around a board of the given size.
pub open spec fn spec_warp(p: Point, width: isize, height: isize) -> Point {
    Point { x: spec_warp_coord(p.x, width as i8), y: spec_warp_coord(p.y, height as i8) }
}

/// Board sizes for which wrapping is defined: their narrowed lengths minus one fit in `i8`.
pub open spec fn warp_size_ok(width: isize, height: isize) -> bool {
    width as i8 != i8::MIN && height as i8 != i8::MIN
}

/// The neighbour of `p` in direction `d` has `i8` coordinates.
pub open spec fn fits_step(p: Point, d: Direction) -> bool {
    match d {
        Direction::Up => p.y < i8::MAX,
        Direction::Down => p.y > i8::MIN,
        Direction::Left => p.x > i8::MIN,
        Direction::Right => p.x < i8::MAX,
    }
}

impl Point {
    pub fn neighbour(&self, d: Direction) -> (res: Point)
        requires
            fits_step(*self, d),
        ensures
            res == spec_neighbour(*self, d),
    {
        match d {
            Direction::Up => Point { x: self.x, y: self.y + 1 },
            Direction::Down => Point { x: self.x, y: self.y - 1 },
            Direction::Left => Point { x: self.x - 1, y: self.y },
            Direction::Right => Point { x: self.x + 1, y: self.y },
        }
    }

    /// The four neighbours of the point, in the order up, down, left, right.
    pub fn neighbours(&self) -> (res: [(Direction, Point); 4])
        requires
            has_neighbours(*self),
        ensures
            res@[0] == (Direction::Up, spec_neighbour(*self, Direction::Up)),
            res@[1] == (Direction::Down, spec_neighbour(*self, Direction::Down)),
            res@[2] == (Direction::Left, spec_neighbour(*self, Direction::Left)),
            res@[3] == (Direction::Right, spec_neighbour(*self, Direction::Right)),
    {
        [
            (Direction::Up, Point { x: self.x, y: self.y + 1 }),
            (Direction::Down, Point { x: self.x, y: self.y - 1 }),
            (Direction::Left, Point { x: self.x - 1, y: self.y }),
            (Direction::Right, Point { x: self.x + 1, y: self.y }),
        ]
    }

    pub fn out_of_bounds(&self, width: isize, height: isize) -> (res: bool)
        ensures
            res == spec_out_of_bounds(*self, width, height),
    {
        let (width, height) = (width as i8, height as i8);
        self.x < 0 || self.y < 0 || self.x >= width || self.y >= height
    }

    pub fn warp(&mut self, width: isize, height: isize)
        requires
            warp_size_ok(width, height),
        ensures
            *final(self) == spec_warp(*old(self), width, height),
    {
        let (width, height) = (width as i8, height as i8);
        if self.x == -1 {
            self.x = width - 1;
        }
        if self.x == width {
            self.x = 0;
        }
        if self.y == -1 {
            self.y = height - 1;
        }
        if self.y == height {
            self.y = 0;
        }
    }
}

/// Stepping in a direction and then in the opposite direction returns to the start.
pub proof fn lemma_neighbour_opposite(p: Point, d: Direction)
    requires
        fits_step(p, d),
    ensures
        spec_neighbour(spec_neighbour(p, d), spec_opposite(d)) == p,
{
}

/// On a board of sensible size, wrapping brings a point at most one step off the board
/// back onto it, and leaves points on the board where they are.
pub proof fn lemma_warp_on_board(p: Point, width: isize, height: isize)
    requires
        0 < width < 128,
        0 < height < 128,
        -1 <= p.x <= width,
        -1 <= p.y <= height,
    ensures
        !spec_out_of_bounds(spec_warp(p, width, height), width, height),
        !spec_out_of_bounds(p, width, height) ==> spec_warp(p, width, height) == p,
{
    assert(width as i8 == width);
    assert(height as i8 == height);
}

} // verus!
