//! A compact board: every tile is stored in four bits, two for the kind of tile
//! and two for the number of stacked hazards.
use vstd::prelude::*;
use vstd::string::*;

use super::Tile;
use crate::protocol::{self, Point};

verus! {

/// The largest number of hazards that can be stacked on one tile.
pub const MAX_HAZARDS: u8 = 3;

pub const TILE_MASK: u8 = 0b1111;
pub const HAZARD_MASK: u8 = 0b1100;
pub const TILE_TYPE_MASK: u8 = 0b0011;
pub const EMPTY: u8 = 0b00;
pub const SNAKE: u8 = 0b01;
pub const HEAD: u8 = 0b10;
pub const FOOD: u8 = 0b11;

/// The tile with the given kind (the two low bits of a stored cell: empty, snake, head, food)
/// and hazard count.
pub open spec fn make_tile(kind: u8, hazards: u8) -> Tile {
    if hazards > 0 {
        if kind == EMPTY {
            Tile::Hazard(hazards)
        } else if kind == SNAKE {
            Tile::HazardWithSnake(hazards)
        } else if kind == HEAD {
            Tile::HazardWithHead(hazards)
        } else {
            Tile::HazardWithFood(hazards)
        }
    } else {
        if kind == EMPTY {
            Tile::Empty
        } else if kind == SNAKE {
            Tile::Snake
        } else if kind == HEAD {
            Tile::Head
        } else {
            Tile::Food
        }
    }
}

/// The kind of a tile as stored in the two low bits of a cell.
pub open spec fn spec_kind(t: Tile) -> u8 {
    match t {
        Tile::Snake | Tile::HazardWithSnake(_) => SNAKE,
        Tile::Head | Tile::HazardWithHead(_) => HEAD,
        Tile::Food | Tile::HazardWithFood(_) => FOOD,
        _ => EMPTY,
    }
}

/// The tile that a stored 4-bit cell stands for.
pub open spec fn decode(n: u8) -> Tile {
    make_tile(n & TILE_TYPE_MASK, (n & HAZARD_MASK) >> 2u8)
}

/// A stack of hazards as a tile holds it: at most `MAX_HAZARDS`.
pub open spec fn hazard_cap(x: u8) -> u8 {
    if x > MAX_HAZARDS {
        MAX_HAZARDS
    } else {
        x
    }
}

/// A tile with its stack of hazards capped at `MAX_HAZARDS`.
pub open spec fn capped(t: Tile) -> Tile {
    match t {
        Tile::Hazard(x) => Tile::Hazard(hazard_cap(x)),
        Tile::HazardWithFood(x) => Tile::HazardWithFood(hazard_cap(x)),
        Tile::HazardWithSnake(x) => Tile::HazardWithSnake(hazard_cap(x)),
        Tile::HazardWithHead(x) => Tile::HazardWithHead(hazard_cap(x)),
        _ => t,
    }
}

/// The 4-bit cell that `Board::set` stores for a tile; hazard counts are capped at three
/// and a wall is stored as three hazards.
pub open spec fn encode(t: Tile) -> u8 {
    match t {
        Tile::Empty => EMPTY,
        Tile::Snake => SNAKE,
        Tile::Head => HEAD,
        Tile::Food => FOOD,
        Tile::Hazard(x) => hazard_cap(x) << 2u8,
        Tile::HazardWithFood(x) => (hazard_cap(x) << 2u8) | FOOD,
        Tile::HazardWithSnake(x) => (hazard_cap(x) << 2u8) | SNAKE,
        Tile::HazardWithHead(x) => (hazard_cap(x) << 2u8) | HEAD,
        Tile::Wall => 3u8 << 2u8,
    }
}

/// The tiles that `Board::set` stores and `Board::get` reads back unchanged: anything
/// but a wall, with between one and `MAX_HAZARDS` hazards on hazard tiles.
pub open spec fn storable(t: Tile) -> bool {
    match t {
        Tile::Hazard(x) | Tile::HazardWithFood(x) | Tile::HazardWithSnake(x) | Tile::HazardWithHead(x) =>
            1 <= x <= MAX_HAZARDS,
        Tile::Wall => false,
        _ => true,
    }
}

/// The result of writing `value` into the bits of `old` that `mask` selects.
pub open spec fn merge(mask: u8, old: u8, value: u8) -> u8 {
    ((!mask & old) | (mask & value)) & TILE_MASK
}

spec fn nibble(b: u8, odd: bool) -> u8 {
    if odd {
        b & TILE_MASK
    } else {
        (b >> 4u8) & TILE_MASK
    }
}

spec fn cell_of(data: Seq<u8>, i: int) -> u8 {
    nibble(data[2 + i / 2], i % 2 == 1)
}

/// The stored tiles of a board.
///
/// The first two bytes hold the width and the height, the rest two tiles per byte,
/// row after row from the bottom; a tile at an even index is kept in the high four bits.
#[derive(PartialEq, Eq, Hash, Debug)]
pub struct Board {
    pub(super) data: Vec<u8>,
}

/// What a board holds: its size and the tile at each point on it.
pub struct BoardModel {
    pub width: int,
    pub height: int,
    pub tiles: Map<Point, Tile>,
}

impl BoardModel {
    pub open spec fn in_bounds(self, p: Point) -> bool {
        0 <= p.x < self.width && 0 <= p.y < self.height
    }

    /// The tile at a point, a wall off the board.
    pub open spec fn tile(self, p: Point) -> Tile {
        if self.in_bounds(p) {
            self.tiles[p]
        } else {
            Tile::Wall
        }
    }

    /// The board with the tile at `p` replaced; off the board nothing changes.
    pub open spec fn update(self, p: Point, t: Tile) -> BoardModel {
        if self.in_bounds(p) {
            BoardModel { tiles: self.tiles.insert(p, t), ..self }
        } else {
            self
        }
    }

    /// A board of the given size with nothing on it.
    pub open spec fn empty(width: int, height: int) -> BoardModel {
        BoardModel {
            width,
            height,
            tiles: Map::new(|p: Point| 0 <= p.x < width && 0 <= p.y < height, |p: Point| Tile::Empty),
        }
    }

    /// The board after `Board::set`.
    pub open spec fn set(self, p: Point, t: Tile) -> BoardModel {
        self.update(p, decode(encode(t)))
    }

    /// The board after `Board::add`.
    pub open spec fn add(self, p: Point, t: Tile) -> BoardModel {
        self.update(p, spec_board_add(self.tile(p), t))
    }

    /// The board after `Board::clear_snake`.
    pub open spec fn clear_snake(self, p: Point) -> BoardModel {
        self.add(p, Tile::Empty)
    }

    /// The board after `Board::remove_hazards`.
    pub open spec fn remove_hazards(self, p: Point, count: u8) -> BoardModel {
        let present = super::spec_hazard_count(self.tile(p));
        self.update(
            p,
            make_tile(spec_kind(self.tile(p)), if present > count { (present - count) as u8 } else { 0 }),
        )
    }
}

impl View for Board {
    type V = BoardModel;

    closed spec fn view(&self) -> BoardModel {
        BoardModel {
            width: self.spec_width(),
            height: self.spec_height(),
            tiles: Map::new(
                |p: Point| 0 <= p.x < self.spec_width() && 0 <= p.y < self.spec_height(),
                |p: Point| decode(self.cell(p.x as int, p.y as int)),
            ),
        }
    }
}

impl Clone for Board {
    fn clone(&self) -> (res: Self)
        ensures
            res@ == self@,
    {
        proof {
            use_type_invariant(self);
        }
        let data = self.data.clone();
        proof {
            assert(data@ =~= self.data@);
        }
        let res = Board { data };
        proof {
            assert(res@.tiles =~= self@.tiles);
        }
        res
    }
}

impl Board {
    #[verifier::type_invariant]
    spec fn wf(&self) -> bool {
        &&& self.data@.len() >= 2
        &&& 2 * (self.data@.len() - 2) >= self.data@[0] * self.data@[1]
    }

    pub closed spec fn spec_width(&self) -> int {
        self.data@[0] as int
    }

    pub closed spec fn spec_height(&self) -> int {
        self.data@[1] as int
    }

    /// The stored 4-bit cell of the tile at `(x, y)`; meaningful on the board only.
    pub closed spec fn cell(&self, x: int, y: int) -> u8 {
        cell_of(self.data@, x + y * self.spec_width())
    }

    pub open spec fn in_bounds(&self, p: Point) -> bool {
        self@.in_bounds(p)
    }

    /// The tile at a point, a wall off the board.
    pub open spec fn tile_at(&self, p: Point) -> Tile {
        self@.tile(p)
    }

    /// The bounds test of the `is_*` queries, which narrow the board size to `i8`: on
    /// boards of width or height 128 or more it holds of no point.
    pub open spec fn in_narrow_bounds(&self, p: Point) -> bool {
        0 <= p.x && 0 <= p.y && p.x < (self@.width as u8) as i8 && p.y < (self@.height as u8) as i8
    }

    /// The board's size fits in a byte each way and its tiles are exactly those on it.
    pub proof fn lemma_model(&self)
        ensures
            0 <= self@.width <= 255,
            0 <= self@.height <= 255,
            forall|p: Point| #[trigger] self@.tiles.dom().contains(p) <==> self@.in_bounds(p),
            forall|p: Point| super::spec_hazard_count(#[trigger] self@.tile(p)) <= MAX_HAZARDS,
    {
        assert forall|p: Point| super::spec_hazard_count(#[trigger] self@.tile(p)) <= MAX_HAZARDS by {
            if self@.in_bounds(p) {
                self.lemma_cell_small(p.x as int, p.y as int);
                lemma_decode_kind(self.cell(p.x as int, p.y as int));
            }
        }
    }

    /// A board of `w` by `h` empty tiles; both sizes are stored in one byte each (taken
    /// modulo 256).
    pub fn new(w: usize, h: usize) -> (res: Board)
        requires
            w * h + 3 <= usize::MAX,
        ensures
            res@ == BoardModel::empty(w as u8 as int, h as u8 as int),
    {
        let mut count = w * h + 2;
        if count % 2 == 1 {
            count += 1
        }
        let mut data = vec![0u8; count];
        data.set(0, w as u8);
        data.set(1, h as u8);
        proof {
            assert((w as u8) as usize <= w) by (bit_vector);
            assert((h as u8) as usize <= h) by (bit_vector);
            let (w8, h8) = ((w as u8) as int, (h as u8) as int);
            assert(w8 * h8 <= w * h) by (nonlinear_arith)
                requires
                    0 <= w8 <= w,
                    0 <= h8 <= h,
            ;
            assert forall|p: Point|
                0 <= p.x < w8 && 0 <= p.y < h8 implies cell_of(data@, p.x + p.y * w8) == 0 by {
                lemma_index_in_board(p.x as int, p.y as int, w8, h8);
                let i = p.x + p.y * w8;
                assert(data@[2 + i / 2] == 0);
                assert(nibble(0, true) == 0 && nibble(0, false) == 0) by (bit_vector);
            }
            assert(decode(0) == Tile::Empty) by {
                assert(0u8 & 3u8 == 0 && (0u8 & 12u8) >> 2u8 == 0) by (bit_vector);
            }
        }
        let res = Board { data };
        proof {
            assert(res@.tiles =~= BoardModel::empty(w as u8 as int, h as u8 as int).tiles);
        }
        res
    }

    pub fn width(&self) -> (res: isize)
        ensures
            res == self@.width,
            0 <= res <= 255,
    {
        proof {
            use_type_invariant(self);
        }
        self.data[0] as isize
    }

    pub fn height(&self) -> (res: isize)
        ensures
            res == self@.height,
            0 <= res <= 255,
    {
        proof {
            use_type_invariant(self);
        }
        self.data[1] as isize
    }

    fn cell_index(&self, x: i8, y: i8) -> (idx: usize)
        requires
            0 <= x < self.spec_width(),
            0 <= y < self.spec_height(),
        ensures
            idx == x + y * self.spec_width(),
            2 + idx / 2 < self.data@.len(),
    {
        proof {
            use_type_invariant(self);
            lemma_index_in_board(x as int, y as int, self.spec_width(), self.spec_height());
            let (w, h) = (self.spec_width(), self.spec_height());
            assert(w * h <= 255 * 255) by (nonlinear_arith)
                requires
                    0 <= w <= 255,
                    0 <= h <= 255,
            ;
            assert(y * w <= w * h) by (nonlinear_arith)
                requires
                    0 <= y < h,
                    0 <= w,
            ;
        }
        let w = self.data[0] as usize;
        x as usize + y as usize * w
    }

    fn read_cell(&self, x: i8, y: i8) -> (n: u8)
        requires
            0 <= x < self.spec_width(),
            0 <= y < self.spec_height(),
        ensures
            n == self.cell(x as int, y as int),
            n < 16,
    {
        let idx = self.cell_index(x, y);
        let b = self.data[2 + idx / 2];
        proof {
            assert(b & 15u8 < 16 && (b >> 4u8) & 15u8 < 16) by (bit_vector);
        }
        if idx % 2 == 0 {
            (b >> 4) & TILE_MASK
        } else {
            b & TILE_MASK
        }
    }

    /// Writes `value` into the bits that `mask` selects of the cell at `(x, y)`.
    fn write_cell(&mut self, x: i8, y: i8, mask: u8, value: u8)
        requires
            0 <= x < old(self).spec_width(),
            0 <= y < old(self).spec_height(),
            mask < 16,
            value < 16,
        ensures
            final(self).spec_width() == old(self).spec_width(),
            final(self).spec_height() == old(self).spec_height(),
            final(self).cell(x as int, y as int) == merge(mask, old(self).cell(x as int, y as int), value),
            forall|x2: int, y2: int|
                0 <= x2 < old(self).spec_width() && 0 <= y2 < old(self).spec_height() && (x2 != x || y2 != y)
                    ==> #[trigger] final(self).cell(x2, y2) == old(self).cell(x2, y2),
    {
        proof {
            use_type_invariant(&*self);
        }
        let idx = self.cell_index(x, y);
        let k = 2 + idx / 2;
        let v = self.data[k];
        let nv = if idx % 2 == 0 {
            let m = mask << 4;
            let val = value << 4;
            proof {
                lemma_write_high(v, mask, value);
            }
            !m & v | m & val
        } else {
            proof {
                lemma_write_low(v, mask, value);
            }
            !mask & v | mask & value
        };
        let ghost old_data = self.data@;
        let ghost w = self.spec_width();
        let ghost h = self.spec_height();
        self.data[k] = nv;
        proof {
            assert(self.data@ == old_data.update(k as int, nv));
            assert forall|x2: int, y2: int|
                0 <= x2 < w && 0 <= y2 < h && (x2 != x || y2 != y)
                    implies #[trigger] cell_of(self.data@, x2 + y2 * w) == cell_of(old_data, x2 + y2 * w) by {
                lemma_index_in_board(x2, y2, w, h);
                lemma_index_distinct(x as int, y as int, x2, y2, w);
            }
        }
    }

    /// Whether the point is on the board and its stored kind has all the bits of `mask`.
    fn check_type(&self, p: &Point, mask: u8) -> (res: bool)
        requires
            mask < 4,
        ensures
            res == (self.in_narrow_bounds(*p) && spec_kind(self.tile_at(*p)) & mask == mask),
    {
        proof {
            use_type_invariant(self);
        }
        if p.x < 0 || p.y < 0 || p.x >= self.data[0] as i8 || p.y >= self.data[1] as i8 {
            return false;
        }
        proof {
            let (w, h) = (self.data@[0], self.data@[1]);
            assert((w as i8) < 0 || (w as i8) == w) by (bit_vector);
            assert((h as i8) < 0 || (h as i8) == h) by (bit_vector);
        }
        let n = self.read_cell(p.x, p.y);
        proof {
            lemma_decode_kind(n);
            assert(n & mask == (n & 3u8) & mask) by (bit_vector)
                requires
                    mask < 4,
            ;
        }
        n & mask == mask
    }

    /// Whether a snake's body, or food, lies on the point (the kinds with the low bit set).
    pub fn is_snake(&self, p: &Point) -> (res: bool)
        ensures
            res == (self.in_narrow_bounds(*p) && spec_kind(self.tile_at(*p)) & SNAKE == SNAKE),
    {
        self.check_type(p, SNAKE)
    }

    /// Whether a snake's head, or food, lies on the point (the kinds with the high bit set).
    pub fn is_head(&self, p: &Point) -> (res: bool)
        ensures
            res == (self.in_narrow_bounds(*p) && spec_kind(self.tile_at(*p)) & HEAD == HEAD),
    {
        self.check_type(p, HEAD)
    }

    pub fn is_food(&self, p: &Point) -> (res: bool)
        ensures
            res == (self.in_narrow_bounds(*p) && spec_kind(self.tile_at(*p)) == FOOD),
    {
        proof {
            lemma_and_three();
        }
        self.check_type(p, FOOD)
    }

    /// Whether the point is on the board: every kind passes the empty test.
    pub fn is_empty(&self, p: &Point) -> (res: bool)
        ensures
            res == self.in_narrow_bounds(*p),
    {
        proof {
            lemma_and_zero();
        }
        self.check_type(p, EMPTY)
    }

    pub fn hazard_count(&self, p: &Point) -> (res: u8)
        ensures
            res == super::spec_hazard_count(self.tile_at(*p)),
            res <= MAX_HAZARDS,
    {
        if p.x < 0 || p.y < 0 || p.x as isize >= self.width() || p.y as isize >= self.height() {
            return 0;
        }
        let n = self.read_cell(p.x, p.y);
        proof {
            lemma_decode_kind(n);
        }
        (n & HAZARD_MASK) >> 2
    }

    /// Stores a tile; a stack of more than three hazards is stored as three.
    pub fn set(&mut self, p: &Point, t: Tile)
        ensures
            final(self)@ == old(self)@.set(*p, t),
            old(self)@.in_bounds(*p) && storable(capped(t)) ==> final(self)@.tile(*p) == capped(t),
    {
        if p.x < 0 || p.y < 0 || p.x as isize >= self.width() || p.y as isize >= self.height() {
            return;
        }
        let v = match t {
            Tile::Empty => EMPTY,
            Tile::Snake => SNAKE,
            Tile::Head => HEAD,
            Tile::Food => FOOD,
            Tile::Hazard(x) => cap_hazards(x) << 2,
            Tile::HazardWithFood(x) => (cap_hazards(x) << 2) | FOOD,
            Tile::HazardWithSnake(x) => (cap_hazards(x) << 2) | SNAKE,
            Tile::HazardWithHead(x) => (cap_hazards(x) << 2) | HEAD,
            Tile::Wall => 3 << 2,
        };
        proof {
            lemma_set_capped(t);
        }
        proof {
            lemma_encode_small(t);
            lemma_merge_full(self.cell(p.x as int, p.y as int), v);
        }
        self.write_cell(p.x, p.y, TILE_MASK, v);
        proof {
            self.lemma_view_from_cells(old(self), *p);
        }
    }

    /// The damage a snake takes for moving onto an empty or hazard tile (the hazard damage
    /// times the number of hazards), onto food (none) or onto a snake (`i8::MAX`).
    pub fn damage(&self, p: &Point, hazard_dmg: i8) -> (res: i8)
        requires
            self.in_bounds(*p),
            spec_kind(self.tile_at(*p)) == EMPTY ==> i8::MIN <= hazard_dmg * super::spec_hazard_count(self.tile_at(*p)) <= i8::MAX,
        ensures
            res == if spec_kind(self.tile_at(*p)) == EMPTY {
                hazard_dmg * super::spec_hazard_count(self.tile_at(*p))
            } else if spec_kind(self.tile_at(*p)) == FOOD {
                0
            } else {
                i8::MAX as int
            },
    {
        let t = self.read_cell(p.x, p.y);
        proof {
            lemma_decode_kind(t);
        }
        let kind = t & TILE_TYPE_MASK;
        if kind == EMPTY {
            let hazards = (t & HAZARD_MASK) >> 2;
            hazard_dmg * hazards as i8
        } else if kind == FOOD {
            0
        } else {
            i8::MAX
        }
    }

    pub fn get(&self, p: &Point) -> (res: Tile)
        ensures
            res == self.tile_at(*p),
    {
        if p.x < 0 || p.y < 0 || p.x as isize >= self.width() || p.y as isize >= self.height() {
            return Tile::Wall;
        }
        let value = self.read_cell(p.x, p.y);
        let hazards = (value & HAZARD_MASK) >> 2;
        let kind = value & TILE_TYPE_MASK;
        if hazards > 0 {
            if kind == EMPTY {
                Tile::Hazard(hazards)
            } else if kind == SNAKE {
                Tile::HazardWithSnake(hazards)
            } else if kind == HEAD {
                Tile::HazardWithHead(hazards)
            } else {
                Tile::HazardWithFood(hazards)
            }
        } else {
            if kind == EMPTY {
                Tile::Empty
            } else if kind == SNAKE {
                Tile::Snake
            } else if kind == HEAD {
                Tile::Head
            } else {
                Tile::Food
            }
        }
    }

    /// Puts a tile on top of what is there. Empty, snake, head and food replace the kind
    /// of tile and keep its hazards; a hazard tile adds its hazards to those present (at most
    /// `MAX_HAZARDS` in all) and keeps the kind, unless it carries food, a snake or a head,
    /// which then replaces the kind; a wall fills the tile with hazards. Off the board nothing
    /// changes.
    pub fn add(&mut self, p: &Point, t: Tile)
        requires
            super::spec_is_hazard(t) ==> super::spec_hazard_count(t) <= u8::MAX - MAX_HAZARDS,
        ensures
            final(self)@ == old(self)@.add(*p, t),
    {
        if p.x < 0 || p.y < 0 || p.x as isize >= self.width() || p.y as isize >= self.height() {
            return;
        }
        let ghost old_cell = self.cell(p.x as int, p.y as int);
        proof {
            self.lemma_cell_small(p.x as int, p.y as int);
            lemma_decode_kind(old_cell);
        }
        match t {
            Tile::Empty => {
                proof { lemma_merge_kind(old_cell, EMPTY); }
                self.write_cell(p.x, p.y, TILE_TYPE_MASK, EMPTY)
            },
            Tile::Snake => {
                proof { lemma_merge_kind(old_cell, SNAKE); }
                self.write_cell(p.x, p.y, TILE_TYPE_MASK, SNAKE)
            },
            Tile::Head => {
                proof { lemma_merge_kind(old_cell, HEAD); }
                self.write_cell(p.x, p.y, TILE_TYPE_MASK, HEAD)
            },
            Tile::Food => {
                proof { lemma_merge_kind(old_cell, FOOD); }
                self.write_cell(p.x, p.y, TILE_TYPE_MASK, FOOD)
            },
            Tile::Hazard(x) => {
                let hazard_count = capped_hazards(self.hazard_count(p), x);
                proof { lemma_merge_hazards(old_cell, hazard_count); }
                self.write_cell(p.x, p.y, HAZARD_MASK, hazard_count << 2)
            },
            Tile::HazardWithFood(x) => {
                let hazard_count = capped_hazards(self.hazard_count(p), x);
                proof { lemma_full_cell(hazard_count, FOOD, old_cell); }
                self.write_cell(p.x, p.y, TILE_MASK, (hazard_count << 2) | FOOD)
            },
            Tile::HazardWithSnake(x) => {
                let hazard_count = capped_hazards(self.hazard_count(p), x);
                proof { lemma_full_cell(hazard_count, SNAKE, old_cell); }
                self.write_cell(p.x, p.y, TILE_MASK, (hazard_count << 2) | SNAKE)
            },
            Tile::HazardWithHead(x) => {
                let hazard_count = capped_hazards(self.hazard_count(p), x);
                proof { lemma_full_cell(hazard_count, HEAD, old_cell); }
                self.write_cell(p.x, p.y, TILE_MASK, (hazard_count << 2) | HEAD)
            },
            Tile::Wall => {
                proof { lemma_merge_hazards(old_cell, 3); }
                self.write_cell(p.x, p.y, HAZARD_MASK, 3 << 2)
            },
        }
        proof {
            self.lemma_view_from_cells(old(self), *p);
        }
    }

    /// Takes up to `count` hazards off the tile at `p`, keeping what else is on it.
    pub fn remove_hazards(&mut self, p: &Point, count: u8)
        ensures
            final(self)@ == old(self)@.remove_hazards(*p, count),
    {
        if p.x < 0 || p.y < 0 || p.x as isize >= self.width() || p.y as isize >= self.height() {
            return;
        }
        let ghost old_cell = self.cell(p.x as int, p.y as int);
        proof {
            self.lemma_cell_small(p.x as int, p.y as int);
            lemma_decode_kind(old_cell);
        }
        let present = self.hazard_count(p);
        let remaining = if present > count { present - count } else { 0 };
        proof { lemma_merge_hazards(old_cell, remaining); }
        self.write_cell(p.x, p.y, HAZARD_MASK, remaining << 2);
        proof {
            self.lemma_view_from_cells(old(self), *p);
        }
    }

    /// Removes a snake from a tile, keeping its hazards.
    pub fn clear_snake(&mut self, p: &Point)
        ensures
            final(self)@ == old(self)@.clear_snake(*p),
    {
        self.add(p, Tile::Empty);
    }

    /// Every tile on the board can be stored back as it is.
    pub proof fn lemma_tiles_storable(&self)
        ensures
            forall|p: Point| self@.in_bounds(p) ==> storable(#[trigger] self@.tile(p)),
    {
        assert forall|p: Point| self@.in_bounds(p) implies storable(#[trigger] self@.tile(p)) by {
            self.lemma_cell_small(p.x as int, p.y as int);
            lemma_decode_kind(self.cell(p.x as int, p.y as int));
        }
    }

    pub proof fn lemma_cell_small(&self, x: int, y: int)
        ensures
            self.cell(x, y) < 16,
    {
        let b = self.data@[2 + (x + y * self.spec_width()) / 2];
        assert(b & 15u8 < 16 && (b >> 4u8) & 15u8 < 16) by (bit_vector);
    }

    proof fn lemma_view_from_cells(&self, old_board: &Board, p: Point)
        requires
            old_board@.in_bounds(p),
            self.spec_width() == old_board.spec_width(),
            self.spec_height() == old_board.spec_height(),
            forall|x2: int, y2: int|
                0 <= x2 < old_board.spec_width() && 0 <= y2 < old_board.spec_height() && (x2 != p.x || y2 != p.y)
                    ==> #[trigger] self.cell(x2, y2) == old_board.cell(x2, y2),
        ensures
            self@ == old_board@.update(p, self@.tile(p)),
    {
        assert(self@.tiles =~= old_board@.tiles.insert(p, self@.tile(p))) by {
            assert forall|q: Point| #[trigger] self@.tiles.dom().contains(q) && q != p implies self@.tiles[q]
                == old_board@.tiles[q] by {
                assert(self.cell(q.x as int, q.y as int) == old_board.cell(q.x as int, q.y as int));
            }
        }
    }
}

/// The board after adding `t` at each of the points, first to last.
pub open spec fn spec_add_all(m: BoardModel, points: Seq<Point>, t: Tile) -> BoardModel
    decreases points.len(),
{
    if points.len() == 0 {
        m
    } else {
        spec_add_all(m, points.drop_last(), t).add(points.last(), t)
    }
}

proof fn lemma_add_all_size(m: BoardModel, points: Seq<Point>, t: Tile)
    ensures
        spec_add_all(m, points, t).width == m.width,
        spec_add_all(m, points, t).height == m.height,
    decreases points.len(),
{
    if points.len() > 0 {
        lemma_add_all_size(m, points.drop_last(), t);
    }
}

proof fn lemma_add_snakes_size(m: BoardModel, snakes: Seq<protocol::Snake>)
    ensures
        spec_add_snakes(m, snakes).width == m.width,
        spec_add_snakes(m, snakes).height == m.height,
    decreases snakes.len(),
{
    if snakes.len() > 0 {
        lemma_add_snakes_size(m, snakes.drop_last());
        lemma_add_all_size(spec_add_snakes(m, snakes.drop_last()), snakes.last().body@, Tile::Snake);
    }
}

/// The board after drawing each snake in turn: its body, then its head.
pub open spec fn spec_add_snakes(m: BoardModel, snakes: Seq<protocol::Snake>) -> BoardModel
    decreases snakes.len(),
{
    if snakes.len() == 0 {
        m
    } else {
        let s = snakes.last();
        spec_add_all(spec_add_snakes(m, snakes.drop_last()), s.body@, Tile::Snake).add(s.head, Tile::Head)
    }
}

/// The board described by a request: the snakes, then the food, then one hazard for each
/// hazard entry, on an empty board of the given size.
pub open spec fn spec_board_from(g: protocol::Board) -> BoardModel {
    let m0 = BoardModel::empty(g.width as u8 as int, g.height as u8 as int);
    let m1 = spec_add_snakes(m0, g.snakes@);
    let m2 = spec_add_all(m1, g.food@, Tile::Food);
    spec_add_all(m2, g.hazards@, Tile::Hazard(1))
}

/// The drawing of the first `n` tiles of row `y`, from the left.
pub open spec fn row_text(b: BoardModel, y: int, n: int) -> Seq<char>
    decreases n,
{
    if n <= 0 {
        Seq::empty()
    } else {
        row_text(b, y, n - 1) + super::spec_symbol(b.tile(Point { x: (n - 1) as i8, y: y as i8 }))
    }
}

/// The drawing of the top `rows` rows of the board, each ended by a line break.
pub open spec fn board_text(b: BoardModel, rows: int) -> Seq<char>
    decreases rows,
{
    if rows <= 0 {
        Seq::empty()
    } else {
        board_text(b, rows - 1) + row_text(b, b.height - rows, b.width) + "\n"@
    }
}

impl Board {
    /// The board drawn row by row from the top, one symbol a tile.
    pub fn to_string(&self) -> (res: String)
        ensures
            res@ == board_text(self@, self@.height),
    {
        let w = self.width();
        let h = self.height();
        let mut text = String::from_str("");
        proof {
            reveal_strlit("");
        }
        let mut r: isize = 0;
        while r < h
            invariant
                0 <= r <= h,
                w == self@.width,
                h == self@.height,
                0 <= w <= 255,
                0 <= h <= 255,
                text@ == board_text(self@, r as int),
            decreases h - r,
        {
            let y = h - 1 - r;
            let mut x: isize = 0;
            while x < w
                invariant
                    0 <= x <= w,
                    w == self@.width,
                    0 <= w <= 255,
                    text@ == board_text(self@, r as int) + row_text(self@, y as int, x as int),
                decreases w - x,
            {
                let t = self.get(&Point { x: x as i8, y: y as i8 });
                text = text.concat(t.symbol());
                x += 1;
            }
            text = text.concat("\n");
            r += 1;
        }
        text
    }
}

impl Board {
    pub fn from(g: &protocol::Board) -> (res: Board)
        requires
            g.width * g.height + 3 <= usize::MAX,
        ensures
            res@ == spec_board_from(*g),
            res@.width == g.width as u8 as int,
            res@.height == g.height as u8 as int,
    {
        let mut b = Board::new(g.width, g.height);
        let ghost m0 = b@;
        let mut i: usize = 0;
        while i < g.snakes.len()
            invariant
                i <= g.snakes@.len(),
                b@ == spec_add_snakes(m0, g.snakes@.take(i as int)),
            decreases g.snakes@.len() - i,
        {
            let snake = &g.snakes[i];
            let ghost before = b@;
            let mut k: usize = 0;
            while k < snake.body.len()
                invariant
                    k <= snake.body@.len(),
                    b@ == spec_add_all(before, snake.body@.take(k as int), Tile::Snake),
                decreases snake.body@.len() - k,
            {
                b.add(&snake.body[k], Tile::Snake);
                proof {
                    assert(snake.body@.take(k + 1).drop_last() =~= snake.body@.take(k as int));
                }
                k += 1;
            }
            proof {
                assert(snake.body@.take(k as int) =~= snake.body@);
            }
            b.add(&snake.head, Tile::Head);
            proof {
                assert(g.snakes@.take(i + 1).drop_last() =~= g.snakes@.take(i as int));
            }
            i += 1;
        }
        proof {
            assert(g.snakes@.take(i as int) =~= g.snakes@);
        }
        b.add_all(&g.food, Tile::Food);
        b.add_all(&g.hazards, Tile::Hazard(1));
        proof {
            let m0 = BoardModel::empty(g.width as u8 as int, g.height as u8 as int);
            lemma_add_snakes_size(m0, g.snakes@);
            lemma_add_all_size(spec_add_snakes(m0, g.snakes@), g.food@, Tile::Food);
            lemma_add_all_size(spec_add_all(spec_add_snakes(m0, g.snakes@), g.food@, Tile::Food), g.hazards@, Tile::Hazard(1));
        }
        b
    }

    fn add_all(&mut self, points: &Vec<Point>, t: Tile)
        requires
            super::spec_is_hazard(t) ==> super::spec_hazard_count(t) <= u8::MAX - MAX_HAZARDS,
        ensures
            final(self)@ == spec_add_all(old(self)@, points@, t),
    {
        let mut k: usize = 0;
        while k < points.len()
            invariant
                k <= points@.len(),
                super::spec_is_hazard(t) ==> super::spec_hazard_count(t) <= u8::MAX - MAX_HAZARDS,
                self@ == spec_add_all(old(self)@, points@.take(k as int), t),
            decreases points@.len() - k,
        {
            self.add(&points[k], t);
            proof {
                assert(points@.take(k + 1).drop_last() =~= points@.take(k as int));
            }
            k += 1;
        }
        proof {
            assert(points@.take(k as int) =~= points@);
        }
    }
}

/// The tile after `Board::add` puts `t` on top of `s`.
pub open spec fn spec_board_add(s: Tile, t: Tile) -> Tile {
    let hazards = super::spec_hazard_count(s);
    let sum = hazards + super::spec_hazard_count(t);
    let capped = if sum > MAX_HAZARDS { MAX_HAZARDS } else { sum as u8 };
    match t {
        Tile::Empty | Tile::Snake | Tile::Head | Tile::Food => make_tile(spec_kind(t), hazards),
        Tile::Hazard(_) => make_tile(spec_kind(s), capped),
        Tile::HazardWithFood(_) | Tile::HazardWithSnake(_) | Tile::HazardWithHead(_) => make_tile(spec_kind(t), capped),
        Tile::Wall => make_tile(spec_kind(s), MAX_HAZARDS),
    }
}

fn capped_hazards(present: u8, added: u8) -> (res: u8)
    requires
        present + added <= u8::MAX,
    ensures
        res == if present + added > MAX_HAZARDS { MAX_HAZARDS } else { (present + added) as u8 },
{
    let mut hazard_count = present + added;
    if hazard_count > MAX_HAZARDS {
        hazard_count = MAX_HAZARDS;
    }
    hazard_count
}

proof fn lemma_index_in_board(x: int, y: int, w: int, h: int)
    requires
        0 <= x < w,
        0 <= y < h,
    ensures
        0 <= x + y * w < w * h,
{
    assert(0 <= x + y * w < w * h) by (nonlinear_arith)
        requires
            0 <= x < w,
            0 <= y < h,
    ;
}

proof fn lemma_index_distinct(x1: int, y1: int, x2: int, y2: int, w: int)
    requires
        0 <= x1 < w,
        0 <= x2 < w,
        0 <= y1,
        0 <= y2,
        x1 != x2 || y1 != y2,
    ensures
        x1 + y1 * w != x2 + y2 * w,
{
    if y1 == y2 {
    } else if y1 < y2 {
        assert(y1 * w + w <= y2 * w) by (nonlinear_arith)
            requires
                y1 < y2,
                0 <= w,
        ;
    } else {
        assert(y2 * w + w <= y1 * w) by (nonlinear_arith)
            requires
                y2 < y1,
                0 <= w,
        ;
    }
}

proof fn lemma_write_high(v: u8, mask: u8, value: u8)
    requires
        mask < 16,
        value < 16,
    ensures
        ({
            let nv = (!(mask << 4u8) & v) | ((mask << 4u8) & (value << 4u8));
            &&& nibble(nv, false) == merge(mask, nibble(v, false), value)
            &&& nibble(nv, true) == nibble(v, true)
        }),
{
    assert((((!(mask << 4u8) & v) | ((mask << 4u8) & (value << 4u8))) >> 4u8) & 15u8
        == ((!mask & ((v >> 4u8) & 15u8)) | (mask & value)) & 15u8
        && ((!(mask << 4u8) & v) | ((mask << 4u8) & (value << 4u8))) & 15u8 == v & 15u8)
        by (bit_vector)
        requires
            mask < 16,
            value < 16,
    ;
}

proof fn lemma_write_low(v: u8, mask: u8, value: u8)
    requires
        mask < 16,
        value < 16,
    ensures
        ({
            let nv = (!mask & v) | (mask & value);
            &&& nibble(nv, true) == merge(mask, nibble(v, true), value)
            &&& nibble(nv, false) == nibble(v, false)
        }),
{
    assert(((!mask & v) | (mask & value)) & 15u8 == ((!mask & (v & 15u8)) | (mask & value)) & 15u8
        && (((!mask & v) | (mask & value)) >> 4u8) & 15u8 == (v >> 4u8) & 15u8) by (bit_vector)
        requires
            mask < 16,
            value < 16,
    ;
}

proof fn lemma_merge_full(old: u8, value: u8)
    requires
        value < 16,
    ensures
        merge(TILE_MASK, old, value) == value,
{
    assert(((!15u8 & old) | (15u8 & value)) & 15u8 == value) by (bit_vector)
        requires
            value < 16,
    ;
}

/// What decoding a cell reads: its kind and hazard count are in range, and the tile it
/// stands for has them.
proof fn lemma_decode_kind(n: u8)
    requires
        n < 16,
    ensures
        n & TILE_TYPE_MASK < 4,
        (n & HAZARD_MASK) >> 2u8 <= MAX_HAZARDS,
        spec_kind(decode(n)) == n & TILE_TYPE_MASK,
        super::spec_hazard_count(decode(n)) == (n & HAZARD_MASK) >> 2u8,
{
    assert(n & 3u8 < 4 && (n & 12u8) >> 2u8 <= 3) by (bit_vector);
}

proof fn lemma_merge_kind(old: u8, kind: u8)
    requires
        old < 16,
        kind < 4,
    ensures
        merge(TILE_TYPE_MASK, old, kind) & TILE_TYPE_MASK == kind,
        (merge(TILE_TYPE_MASK, old, kind) & HAZARD_MASK) >> 2u8 == (old & HAZARD_MASK) >> 2u8,
        merge(TILE_TYPE_MASK, old, kind) < 16,
{
    assert(((!3u8 & old) | (3u8 & kind)) & 15u8 & 3u8 == kind
        && ((((!3u8 & old) | (3u8 & kind)) & 15u8) & 12u8) >> 2u8 == (old & 12u8) >> 2u8
        && ((!3u8 & old) | (3u8 & kind)) & 15u8 < 16) by (bit_vector)
        requires
            old < 16,
            kind < 4,
    ;
}

proof fn lemma_merge_hazards(old: u8, hazards: u8)
    requires
        old < 16,
        hazards <= 3,
    ensures
        hazards << 2u8 < 16,
        merge(HAZARD_MASK, old, hazards << 2u8) & TILE_TYPE_MASK == old & TILE_TYPE_MASK,
        (merge(HAZARD_MASK, old, hazards << 2u8) & HAZARD_MASK) >> 2u8 == hazards,
{
    assert(hazards << 2u8 < 16
        && ((!12u8 & old) | (12u8 & (hazards << 2u8))) & 15u8 & 3u8 == old & 3u8
        && ((((!12u8 & old) | (12u8 & (hazards << 2u8))) & 15u8) & 12u8) >> 2u8 == hazards)
        by (bit_vector)
        requires
            old < 16,
            hazards <= 3,
    ;
}

proof fn lemma_full_cell(hazards: u8, kind: u8, old: u8)
    requires
        hazards <= 3,
        kind < 4,
    ensures
        (hazards << 2u8) | kind < 16,
        merge(TILE_MASK, old, (hazards << 2u8) | kind) == (hazards << 2u8) | kind,
        ((hazards << 2u8) | kind) & TILE_TYPE_MASK == kind,
        (((hazards << 2u8) | kind) & HAZARD_MASK) >> 2u8 == hazards,
{
    assert((hazards << 2u8) | kind < 16
        && ((!15u8 & old) | (15u8 & ((hazards << 2u8) | kind))) & 15u8 == (hazards << 2u8) | kind
        && ((hazards << 2u8) | kind) & 3u8 == kind
        && (((hazards << 2u8) | kind) & 12u8) >> 2u8 == hazards) by (bit_vector)
        requires
            hazards <= 3,
            kind < 4,
    ;
}

/// A stack of hazards capped at `MAX_HAZARDS`.
fn cap_hazards(x: u8) -> (res: u8)
    ensures
        res == hazard_cap(x),
{
    if x > MAX_HAZARDS {
        MAX_HAZARDS
    } else {
        x
    }
}

proof fn lemma_encode_small(t: Tile)
    ensures
        encode(t) < 16,
{
    match t {
        Tile::Hazard(x) => {
            let c = hazard_cap(x);
            assert(c << 2u8 < 16) by (bit_vector)
                requires
                    c <= 3,
            ;
        },
        Tile::HazardWithFood(x) | Tile::HazardWithSnake(x) | Tile::HazardWithHead(x) => {
            let c = hazard_cap(x);
            assert((c << 2u8) | 3u8 < 16 && (c << 2u8) | 1u8 < 16 && (c << 2u8) | 2u8 < 16) by (bit_vector)
                requires
                    c <= 3,
            ;
        },
        Tile::Wall => {
            assert(3u8 << 2u8 == 12) by (bit_vector);
        },
        _ => {},
    }
}

proof fn lemma_and_three()
    ensures
        forall|k: u8| k < 4 ==> (#[trigger] (k & FOOD) == FOOD <==> k == FOOD),
{
    assert forall|k: u8| k < 4 implies (#[trigger] (k & 3u8) == 3u8 <==> k == 3u8) by {
        assert(k < 4 ==> ((k & 3u8) == 3u8 <==> k == 3u8)) by (bit_vector);
    }
}

proof fn lemma_and_zero()
    ensures
        forall|k: u8| #[trigger] (k & EMPTY) == EMPTY,
{
    assert forall|k: u8| #[trigger] (k & 0u8) == 0u8 by {
        assert(k & 0u8 == 0u8) by (bit_vector);
    }
}

/// Storing a tile keeps at most three hazards of a stack: what reads back is the capped
/// tile, where that has at least one hazard.
pub proof fn lemma_set_capped(t: Tile)
    ensures
        storable(capped(t)) ==> decode(encode(t)) == capped(t),
{
    if storable(capped(t)) {
        lemma_set_get(capped(t));
        match t {
            Tile::Hazard(x) | Tile::HazardWithFood(x) | Tile::HazardWithSnake(x) | Tile::HazardWithHead(x) => {
                assert(hazard_cap(hazard_cap(x)) == hazard_cap(x));
            },
            _ => {},
        }
    }
}

/// Reading a tile back after storing it gives the tile itself.
pub proof fn lemma_set_get(t: Tile)
    requires
        storable(t),
    ensures
        decode(encode(t)) == t,
{
    match t {
        Tile::Hazard(x) => {
            assert(((x << 2u8) & 3u8) == 0 && (((x << 2u8) & 12u8) >> 2u8) == x) by (bit_vector)
                requires
                    1 <= x <= 3,
            ;
        },
        Tile::HazardWithFood(x) | Tile::HazardWithSnake(x) | Tile::HazardWithHead(x) => {
            assert(x & 3u8 == x) by (bit_vector)
                requires
                    1 <= x <= 3,
            ;
            lemma_full_cell(x & 3u8, 3, 0);
            lemma_full_cell(x & 3u8, 1, 0);
            lemma_full_cell(x & 3u8, 2, 0);
        },
        _ => {
            assert(0u8 & 3u8 == 0 && (0u8 & 12u8) >> 2u8 == 0 && 1u8 & 3u8 == 1 && (1u8 & 12u8) >> 2u8 == 0
                && 2u8 & 3u8 == 2 && (2u8 & 12u8) >> 2u8 == 0 && 3u8 & 3u8 == 3 && (3u8 & 12u8) >> 2u8 == 0)
                by (bit_vector);
        },
    }
}

} // verus!

verus! {

/// After storing a tile that a board can hold, reading the tile back gives it, and no
/// other tile has changed.
pub proof fn law_get_after_set(m: BoardModel, p: Point, q: Point, t: Tile)
    requires
        m.in_bounds(p),
        storable(t),
    ensures
        m.set(p, t).tile(p) == t,
        q != p ==> m.set(p, t).tile(q) == m.tile(q),
{
    lemma_set_get(t);
}

/// Adding `k` hazards to a tile stacks them up to `MAX_HAZARDS` and keeps whatever else
/// (food, a snake, a head) is on the tile.
pub proof fn law_add_stacks_hazards(m: BoardModel, p: Point, k: u8)
    requires
        m.in_bounds(p),
        super::spec_hazard_count(m.tile(p)) <= MAX_HAZARDS,
    ensures
        super::spec_hazard_count(m.add(p, Tile::Hazard(k)).tile(p)) == if super::spec_hazard_count(m.tile(p)) + k
            > MAX_HAZARDS {
            MAX_HAZARDS as int
        } else {
            super::spec_hazard_count(m.tile(p)) + k
        },
        spec_kind(m.add(p, Tile::Hazard(k)).tile(p)) == spec_kind(m.tile(p)),
        super::spec_has_food(m.add(p, Tile::Hazard(k)).tile(p)) == super::spec_has_food(m.tile(p)),
{
}

/// Taking one hazard off a tile that has some lowers its hazard count by exactly one.
pub proof fn law_remove_one_hazard(m: BoardModel, p: Point)
    requires
        m.in_bounds(p),
        1 <= super::spec_hazard_count(m.tile(p)) <= MAX_HAZARDS,
    ensures
        super::spec_hazard_count(m.remove_hazards(p, 1).tile(p)) + 1 == super::spec_hazard_count(m.tile(p)),
        spec_kind(m.remove_hazards(p, 1).tile(p)) == spec_kind(m.tile(p)),
{
}

} // verus!
