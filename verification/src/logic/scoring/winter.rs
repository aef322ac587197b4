//! Flood fill scoring: every snake spreads over the board at once, as far as its health,
//! the hazards and the bodies in its way allow; each tile goes to the snake that reaches it
//! first (a longer snake wins a tie, equal snakes leave the tile to neither).
use vstd::prelude::*;

use std::collections::VecDeque;

use crate::logic::board::{spec_kind, BoardModel, FOOD};
use crate::logic::game::{Game, GameMode, GameModel};
use crate::logic::point::{spec_neighbour, spec_out_of_bounds, spec_warp, warp_size_ok};
use crate::logic::voronoi::{head_alone, vor_dir};
use crate::logic::{spec_has_food, spec_hazard_count, Direction, Point};

verus! {

pub const NO_SNAKE: u8 = 255;

/// The largest number of snakes the flood fill supports.
pub const MAX_SNAKES: usize = 12;

/// The largest board the flood fill supports, in each direction.
pub const MAX_WIDTH: usize = 25;

pub const MAX_HEIGHT: usize = 25;

/// The distance of a tile that no snake reaches.
pub const UNREACHED: u16 = 65535;

/// What the flood fill found out for one snake.
#[derive(Clone, Copy, Debug)]
pub struct SnakeScore {
    /// Food on the tiles the snake reaches first.
    pub food_count: u16,
    /// Tiles the snake reaches first.
    pub tile_count: u16,
    /// Hazards on the tiles the snake reaches first.
    pub hazard_count: u16,
    /// The distance to the nearest food the snake reaches first (`u16::MAX` if none).
    pub food_distance: u16,
    pub food_at_min_distance: u16,
    /// For each snake, the distance at which the two snakes' areas meet (`u16::MAX` if
    /// they never do).
    pub distance_to_collision: [u16; MAX_SNAKES],
}

/// What a tile of the flood holds: the snake that reached it first (`NO_SNAKE` for
/// nobody), at what distance and with what length, how many turns a body still blocks
/// it, and the damage its hazards do.
#[derive(Copy, Clone)]
pub struct TileInfo {
    pub snake_length: u16,
    pub snake_distance: u16,
    pub inaccessible_turns: u16,
    pub damage_amount: i8,
    pub snake: u8,
}

/// A step of the flood: snake `snake`, of length `snake_length` and health `health`,
/// reaching point `p` at `snake_distance`.
#[derive(Copy, Clone)]
pub struct Work {
    pub snake_length: u16,
    pub snake_distance: u16,
    pub p: Point,
    pub snake: u8,
    pub health: i8,
}

pub open spec fn pos(i: int, w: int) -> Point {
    Point { x: (i % w) as i8, y: (i / w) as i8 }
}

pub open spec fn isum(b: Seq<TileInfo>, f: spec_fn(int, TileInfo) -> int) -> int
    decreases b.len(),
{
    if b.len() == 0 {
        0
    } else {
        isum(b.drop_last(), f) + f(b.len() - 1, b.last())
    }
}

pub open spec fn f_owned(s: int) -> spec_fn(int, TileInfo) -> int {
    |i: int, t: TileInfo| if t.snake == s { 1int } else { 0int }
}

spec fn f_owned_below(k: int) -> spec_fn(int, TileInfo) -> int {
    |i: int, t: TileInfo| if t.snake < k { 1int } else { 0int }
}

spec fn f_three_owned(s: int) -> spec_fn(int, TileInfo) -> int {
    |i: int, t: TileInfo| if t.snake == s { 3int } else { 0int }
}

pub open spec fn f_food(m: BoardModel, w: int, s: int) -> spec_fn(int, TileInfo) -> int {
    |i: int, t: TileInfo| if t.snake == s && spec_has_food(m.tile(pos(i, w))) { 1int } else { 0int }
}

pub open spec fn f_haz(m: BoardModel, w: int, s: int) -> spec_fn(int, TileInfo) -> int {
    |i: int, t: TileInfo| if t.snake == s { spec_hazard_count(m.tile(pos(i, w))) as int } else { 0int }
}

spec fn f_weight() -> spec_fn(int, TileInfo) -> int {
    |i: int, t: TileInfo| t.snake_distance * 65536 + (65535 - t.snake_length)
}

spec fn f_closer(d: int) -> spec_fn(int, TileInfo) -> int {
    |i: int, t: TileInfo| if t.snake_distance < d { 1int } else { 0int }
}

proof fn lemma_isum_update(b: Seq<TileInfo>, i: int, t: TileInfo, f: spec_fn(int, TileInfo) -> int)
    requires
        0 <= i < b.len(),
    ensures
        isum(b.update(i, t), f) == isum(b, f) - f(i, b[i]) + f(i, t),
    decreases b.len(),
{
    if i == b.len() - 1 {
        assert(b.update(i, t).drop_last() =~= b.drop_last());
    } else {
        lemma_isum_update(b.drop_last(), i, t, f);
        assert(b.update(i, t).drop_last() =~= b.drop_last().update(i, t));
    }
}

proof fn lemma_isum_le(b: Seq<TileInfo>, f: spec_fn(int, TileInfo) -> int, g: spec_fn(int, TileInfo) -> int)
    requires
        forall|i: int, t: TileInfo| #[trigger] f(i, t) <= #[trigger] g(i, t),
    ensures
        isum(b, f) <= isum(b, g),
    decreases b.len(),
{
    if b.len() > 0 {
        lemma_isum_le(b.drop_last(), f, g);
        assert(f(b.len() - 1, b.last()) <= g(b.len() - 1, b.last()));
    }
}

proof fn lemma_isum_bounds(b: Seq<TileInfo>, f: spec_fn(int, TileInfo) -> int, c: int)
    requires
        c >= 0,
        forall|i: int, t: TileInfo| 0 <= #[trigger] f(i, t) <= c,
    ensures
        0 <= isum(b, f) <= c * b.len(),
    decreases b.len(),
{
    if b.len() > 0 {
        lemma_isum_bounds(b.drop_last(), f, c);
        assert(0 <= f(b.len() - 1, b.last()) <= c);
        assert(c * (b.len() - 1) + c == c * b.len()) by (nonlinear_arith);
    }
}

proof fn lemma_isum_three(b: Seq<TileInfo>, s: int)
    ensures
        isum(b, f_three_owned(s)) == 3 * isum(b, f_owned(s)),
    decreases b.len(),
{
    if b.len() > 0 {
        lemma_isum_three(b.drop_last(), s);
    }
}

proof fn lemma_owned_positive(b: Seq<TileInfo>, i: int, f: spec_fn(int, TileInfo) -> int)
    requires
        0 <= i < b.len(),
        forall|j: int, t: TileInfo| 0 <= #[trigger] f(j, t),
    ensures
        isum(b, f) >= f(i, b[i]),
{
    let t = b[i];
    lemma_isum_update_zero(b, i, f);
}

proof fn lemma_isum_update_zero(b: Seq<TileInfo>, i: int, f: spec_fn(int, TileInfo) -> int)
    requires
        0 <= i < b.len(),
        forall|j: int, t: TileInfo| 0 <= #[trigger] f(j, t),
    ensures
        isum(b, f) >= f(i, b[i]),
    decreases b.len(),
{
    if i == b.len() - 1 {
        lemma_isum_bounds_nonneg(b.drop_last(), f);
    } else {
        lemma_isum_update_zero(b.drop_last(), i, f);
        assert(0 <= f(b.len() - 1, b.last()));
    }
}

proof fn lemma_isum_bounds_nonneg(b: Seq<TileInfo>, f: spec_fn(int, TileInfo) -> int)
    requires
        forall|j: int, t: TileInfo| 0 <= #[trigger] f(j, t),
    ensures
        0 <= isum(b, f),
    decreases b.len(),
{
    if b.len() > 0 {
        lemma_isum_bounds_nonneg(b.drop_last(), f);
        assert(0 <= f(b.len() - 1, b.last()));
    }
}

proof fn lemma_closer_step(b: Seq<TileInfo>, d: int, j: int)
    requires
        0 <= j < b.len(),
        b[j].snake_distance == d,
    ensures
        isum(b, f_closer(d + 1)) >= isum(b, f_closer(d)) + 1,
    decreases b.len(),
{
    if j == b.len() - 1 {
        lemma_isum_le(b.drop_last(), f_closer(d), f_closer(d + 1));
    } else {
        lemma_closer_step(b.drop_last(), d, j);
    }
}

proof fn lemma_isum_const(n: nat, t: TileInfo, f: spec_fn(int, TileInfo) -> int)
    requires
        forall|i: int| #[trigger] f(i, t) == 0,
    ensures
        isum(Seq::new(n, |i: int| t), f) == 0,
    decreases n,
{
    if n > 0 {
        lemma_isum_const((n - 1) as nat, t, f);
        assert(Seq::new(n, |i: int| t).drop_last() =~= Seq::new((n - 1) as nat, |i: int| t));
    }
}

spec fn total_owned(b: Seq<TileInfo>, k: int) -> int
    decreases k,
{
    if k <= 0 {
        0
    } else {
        total_owned(b, k - 1) + isum(b, f_owned(k - 1))
    }
}

spec fn indicator_total(t: TileInfo, k: int) -> int
    decreases k,
{
    if k <= 0 {
        0
    } else {
        indicator_total(t, k - 1) + (if t.snake == k - 1 { 1int } else { 0int })
    }
}

proof fn lemma_indicator_total(t: TileInfo, k: int)
    requires
        k >= 0,
    ensures
        indicator_total(t, k) == (if t.snake < k { 1int } else { 0int }),
    decreases k,
{
    if k > 0 {
        lemma_indicator_total(t, k - 1);
    }
}

proof fn lemma_total_owned_empty(b: Seq<TileInfo>, k: int)
    requires
        b.len() == 0,
        k >= 0,
    ensures
        total_owned(b, k) == 0,
    decreases k,
{
    if k > 0 {
        lemma_total_owned_empty(b, k - 1);
    }
}

proof fn lemma_total_owned_split(b: Seq<TileInfo>, k: int)
    requires
        b.len() > 0,
        k >= 0,
    ensures
        total_owned(b, k) == total_owned(b.drop_last(), k) + indicator_total(b.last(), k),
    decreases k,
{
    if k > 0 {
        lemma_total_owned_split(b, k - 1);
    }
}

proof fn lemma_total_owned(b: Seq<TileInfo>, k: int)
    requires
        k >= 0,
    ensures
        total_owned(b, k) == isum(b, f_owned_below(k)),
    decreases b.len(),
{
    if b.len() == 0 {
        lemma_total_owned_empty(b, k);
    } else {
        lemma_total_owned(b.drop_last(), k);
        lemma_total_owned_split(b, k);
        lemma_indicator_total(b.last(), k);
    }
}

/// The sum of the tile counts of the first `k` snakes.
pub open spec fn tile_total(scores: Seq<SnakeScore>, k: int) -> int
    decreases k,
{
    if k <= 0 {
        0
    } else {
        tile_total(scores, k - 1) + scores[k - 1].tile_count
    }
}

proof fn lemma_tile_total(scores: Seq<SnakeScore>, b: Seq<TileInfo>, k: int)
    requires
        0 <= k <= scores.len(),
        forall|s: int| 0 <= s < k ==> (#[trigger] scores[s]).tile_count == isum(b, f_owned(s)),
    ensures
        tile_total(scores, k) == total_owned(b, k),
    decreases k,
{
    if k > 0 {
        lemma_tile_total(scores, b, k - 1);
    }
}

/// The damage a snake takes on a tile with the given hazards.
pub open spec fn hazard_damage(g: GameModel, p: Point) -> int {
    g.rules.hazard_damage_per_turn * spec_hazard_count(g.board.tile(p))
}

/// The flood fill can cover a `w` by `h` area of this game: the area is at most 25 by 25,
/// hazard damage is not negative and its stacks stay below `i8::MAX`, and every snake
/// can be flooded from.
pub open spec fn flood_ok(g: GameModel, w: int, h: int) -> bool {
    &&& 0 <= w <= MAX_WIDTH
    &&& 0 <= h <= MAX_HEIGHT
    &&& g.rules.hazard_damage_per_turn >= 0
    &&& forall|p: Point| #[trigger] hazard_damage(g, p) <= 126
    &&& snake_floodable(g, g.you, w, h)
    &&& forall|i: int| 0 <= i < g.others.len() ==> snake_floodable(g, #[trigger] g.others[i], w, h)
}

/// The flood fill runs on this game: the board is at most 25 by 25, there are at most
/// twelve snakes and each can be flooded from.
pub open spec fn floodfill_ok(g: GameModel) -> bool {
    &&& flood_ok(g, g.board.width, g.board.height)
    &&& g.others.len() + 1 <= MAX_SNAKES
}

/// A snake can be flooded from: its head lies in the area, its body within 25 by 25 tiles
/// and no longer than the snake, the length leaves room for growth, and its health survives
/// the damage of its own tile.
pub open spec fn snake_floodable(g: GameModel, s: crate::logic::snake::SnakeModel, w: int, h: int) -> bool {
    &&& 0 <= s.head.x < w
    &&& 0 <= s.head.y < h
    &&& s.body.len() <= s.length
    &&& s.length <= 64000
    &&& s.health - hazard_damage(g, s.head) - 1 >= i8::MIN
    &&& forall|i: int| 0 <= i < s.body.len() ==> 0 <= (#[trigger] s.body[i]).x < MAX_WIDTH && 0 <= s.body[i].y < MAX_HEIGHT
}

spec fn work_ok(q: Work, n: int, w: int, h: int, b: Seq<TileInfo>, g: GameModel) -> bool {
    &&& q.snake < n
    &&& 0 <= q.p.x < w
    &&& 0 <= q.p.y < h
    &&& q.snake_distance <= isum(b, f_closer(q.snake_distance as int))
    &&& q.snake_length <= 64000 + q.snake_distance
    &&& q.health - hazard_damage(g, q.p) - 1 >= i8::MIN
}

spec fn tile_ok(t: TileInfo, i: int, n: int, w: int, g: GameModel) -> bool {
    &&& (t.snake == NO_SNAKE || t.snake < n)
    &&& t.damage_amount == hazard_damage(g, pos(i, w))
}

spec fn tiles_ok(b: Seq<TileInfo>, n: int, w: int, g: GameModel) -> bool {
    forall|i: int| 0 <= i < b.len() ==> tile_ok(#[trigger] b[i], i, n, w, g)
}

spec fn queue_ok(q: Seq<Work>, n: int, w: int, h: int, b: Seq<TileInfo>, g: GameModel) -> bool {
    forall|k: int| 0 <= k < q.len() ==> work_ok(#[trigger] q[k], n, w, h, b, g)
}

spec fn counts_ok(t: Tally, b: Seq<TileInfo>, g: GameModel, w: int) -> bool {
    forall|s: int|
        0 <= s < MAX_SNAKES ==> {
            &&& #[trigger] t.tiles@[s] == isum(b, f_owned(s))
            &&& t.food@[s] == isum(b, f_food(g.board, w, s))
            &&& t.hazards@[s] == isum(b, f_haz(g.board, w, s))
        }
}

/// Two tiles that differ at most in how long a body blocks them.
pub open spec fn same_but_blocked(a: TileInfo, b: TileInfo) -> bool {
    &&& a.snake == b.snake
    &&& a.snake_distance == b.snake_distance
    &&& a.snake_length == b.snake_length
    &&& a.damage_amount == b.damage_amount
}

proof fn lemma_pos(x: int, y: int, w: int)
    requires
        0 <= x < w,
        0 <= y,
        y < 128,
        x < 128,
    ensures
        pos(x + y * w, w) == (Point { x: x as i8, y: y as i8 }),
{
    vstd::arithmetic::div_mod::lemma_fundamental_div_mod_converse(x + y * w, w, y, x);
}


proof fn lemma_isum_zero(b: Seq<TileInfo>, f: spec_fn(int, TileInfo) -> int)
    requires
        forall|i: int| 0 <= i < b.len() ==> #[trigger] f(i, b[i]) == 0,
    ensures
        isum(b, f) == 0,
    decreases b.len(),
{
    if b.len() > 0 {
        assert forall|i: int| 0 <= i < b.drop_last().len() implies #[trigger] f(i, b.drop_last()[i]) == 0 by {
            assert(b.drop_last()[i] == b[i]);
        }
        lemma_isum_zero(b.drop_last(), f);
        assert(f(b.len() - 1, b[b.len() - 1]) == 0);
    }
}

/// The counts kept for each snake while the flood fill runs; `collision` holds the
/// distances at which two areas meet, row after row.
struct Tally {
    food: Vec<u16>,
    tiles: Vec<u16>,
    hazards: Vec<u16>,
    food_distance: Vec<u16>,
    food_at_min: Vec<u16>,
    collision: Vec<u16>,
}

pub open spec fn collision_at(c: Seq<u16>, a: int, b: int) -> u16 {
    c[a * MAX_SNAKES + b]
}

spec fn collisions_ok(c: Seq<u16>, diagonal_zero: bool) -> bool {
    &&& c.len() == MAX_SNAKES * MAX_SNAKES
    &&& forall|a: int, b: int|
        0 <= a < MAX_SNAKES && 0 <= b < MAX_SNAKES ==> #[trigger] collision_at(c, a, b) == collision_at(c, b, a)
    &&& diagonal_zero ==> forall|a: int| 0 <= a < MAX_SNAKES ==> #[trigger] collision_at(c, a, a) == 0
}

spec fn tally_shape(t: Tally) -> bool {
    &&& t.food@.len() == MAX_SNAKES
    &&& t.tiles@.len() == MAX_SNAKES
    &&& t.hazards@.len() == MAX_SNAKES
    &&& t.food_distance@.len() == MAX_SNAKES
    &&& t.food_at_min@.len() == MAX_SNAKES
    &&& forall|s: int| 0 <= s < MAX_SNAKES ==> #[trigger] t.food_distance@[s] == UNREACHED || t.food_at_min@[s] >= 1
}

/// The collision distances once the areas of snakes `a` and `b` are seen to meet at `d`:
/// the pair keeps the nearer of what it had and `d`.
pub open spec fn met(c: Seq<u16>, a: int, b: int, d: u16) -> Seq<u16> {
    if collision_at(c, a, b) > d {
        c.update(a * MAX_SNAKES + b, d).update(b * MAX_SNAKES + a, d)
    } else {
        c
    }
}

fn note_collision(c: &mut Vec<u16>, a: usize, b: usize, d: u16, Ghost(diagonal_zero): Ghost<bool>)
    requires
        a < MAX_SNAKES,
        b < MAX_SNAKES,
        collisions_ok(old(c)@, diagonal_zero),
    ensures
        collisions_ok(final(c)@, diagonal_zero),
        final(c)@ == met(old(c)@, a as int, b as int, d),
{
    if c[a * MAX_SNAKES + b] > d {
        let ghost c0 = c@;
        c.set(a * MAX_SNAKES + b, d);
        c.set(b * MAX_SNAKES + a, d);
        proof {
            assert forall|x: int, y: int| 0 <= x < MAX_SNAKES && 0 <= y < MAX_SNAKES implies #[trigger] collision_at(c@, x, y)
                == collision_at(c@, y, x) by {
                assert(collision_at(c0, x, y) == collision_at(c0, y, x));
            }
            if diagonal_zero {
                assert(collision_at(c0, a as int, a as int) == 0);
                assert forall|x: int| 0 <= x < MAX_SNAKES implies #[trigger] collision_at(c@, x, x) == 0 by {
                    assert(collision_at(c0, x, x) == 0);
                }
            }
        }
    }
}

/// Takes a tile away from snake `s`: the tile, its food and its hazards no longer count,
/// and food at the snake's nearest food distance `d` is one less.
fn release(t: &mut Tally, s: usize, food: bool, hz: u16, d: u16)
    requires
        s < MAX_SNAKES,
        d < UNREACHED,
        tally_shape(*old(t)),
        old(t).tiles@[s as int] >= 1,
        food ==> old(t).food@[s as int] >= 1,
        hz <= old(t).hazards@[s as int],
    ensures
        tally_shape(*final(t)),
        final(t).tiles@ == old(t).tiles@.update(s as int, (old(t).tiles@[s as int] - 1) as u16),
        final(t).food@ == if food {
            old(t).food@.update(s as int, (old(t).food@[s as int] - 1) as u16)
        } else {
            old(t).food@
        },
        final(t).hazards@ == old(t).hazards@.update(s as int, (old(t).hazards@[s as int] - hz) as u16),
        forall|r: int| 0 <= r < MAX_SNAKES && r != s ==> #[trigger] final(t).food_distance@[r] == old(t).food_distance@[r],
        final(t).collision@ == old(t).collision@,
        (final(t).food_distance@, final(t).food_at_min@) == fl_release(old(t).food_distance@, old(t).food_at_min@, s as int, food, d),
{
    let v = t.tiles[s] - 1;
    t.tiles.set(s, v);
    let v = t.hazards[s] - hz;
    t.hazards.set(s, v);
    if food {
        let v = t.food[s] - 1;
        t.food.set(s, v);
        if t.food_distance[s] == d {
            let m = t.food_at_min[s] - 1;
            t.food_at_min.set(s, m);
            if m == 0 {
                t.food_distance.set(s, UNREACHED);
            }
        }
    }
}

/// Gives a tile to snake `s` at distance `d`: the tile, its food and its hazards count for
/// it, and food nearer than any before becomes its nearest food.
fn claim(t: &mut Tally, s: usize, food: bool, hz: u16, d: u16)
    requires
        s < MAX_SNAKES,
        d < UNREACHED,
        tally_shape(*old(t)),
        old(t).tiles@[s as int] < u16::MAX,
        food ==> old(t).food@[s as int] < u16::MAX,
        old(t).hazards@[s as int] + hz <= u16::MAX,
    ensures
        tally_shape(*final(t)),
        final(t).tiles@ == old(t).tiles@.update(s as int, (old(t).tiles@[s as int] + 1) as u16),
        final(t).food@ == if food {
            old(t).food@.update(s as int, (old(t).food@[s as int] + 1) as u16)
        } else {
            old(t).food@
        },
        final(t).hazards@ == old(t).hazards@.update(s as int, (old(t).hazards@[s as int] + hz) as u16),
        forall|r: int| 0 <= r < MAX_SNAKES && r != s ==> #[trigger] final(t).food_distance@[r] == old(t).food_distance@[r],
        final(t).collision@ == old(t).collision@,
        (final(t).food_distance@, final(t).food_at_min@) == fl_claim(old(t).food_distance@, old(t).food_at_min@, s as int, food, d),
{
    let v = t.tiles[s] + 1;
    t.tiles.set(s, v);
    let v = t.hazards[s] + hz;
    t.hazards.set(s, v);
    if food {
        let v = t.food[s] + 1;
        t.food.set(s, v);
        if t.food_distance[s] > d {
            t.food_distance.set(s, d);
            t.food_at_min.set(s, 1);
        }
    }
}


/// The tiles of a `wu` by `hu` area, row after row from the bottom, each with the hazard
/// damage of its point and nobody on it yet.
fn hazard_tiles(game: &Game, wu: usize, hu: usize) -> (tiles: Vec<TileInfo>)
    requires
        flood_ok(game@, wu as int, hu as int),
    ensures
        tiles@.len() == wu * hu,
        forall|j: int| 0 <= j < tiles@.len() ==> {
            &&& (#[trigger] tiles@[j]).snake == NO_SNAKE
            &&& tiles@[j].snake_distance == UNREACHED
            &&& tiles@[j].snake_length == 0
            &&& tiles@[j].damage_amount == hazard_damage(game@, pos(j, wu as int))
        },
        tiles@ == fl_hazard_tiles(game@, wu as int, hu as int),
{
    proof {
        assert(wu * hu <= 625) by (nonlinear_arith)
            requires
                wu <= 25,
                hu <= 25,
        ;
    }
    let n = wu * hu;
    let empty = TileInfo {
        snake_length: 0,
        snake_distance: UNREACHED,
        inaccessible_turns: 0,
        damage_amount: 0,
        snake: NO_SNAKE,
    };
    let mut tiles: Vec<TileInfo> = vec![empty; n];
    let mut i: usize = 0;
    while i < n
        invariant
            n == wu * hu,
            n <= 625,
            i <= n,
            flood_ok(game@, wu as int, hu as int),
            tiles@.len() == n,
            forall|j: int| 0 <= j < n ==> {
                &&& (#[trigger] tiles@[j]).snake == NO_SNAKE
                &&& tiles@[j].snake_distance == UNREACHED
                &&& tiles@[j].snake_length == 0
                &&& tiles@[j].inaccessible_turns == 0
            },
            forall|j: int| 0 <= j < i ==> (#[trigger] tiles@[j]).damage_amount == hazard_damage(game@, pos(j, wu as int)),
            forall|j: int| i <= j < n ==> (#[trigger] tiles@[j]).damage_amount == 0,
        decreases n - i,
    {
        proof {
            if wu == 0 {
                assert(wu * hu == 0);
            }
        }
        let x = i % wu;
        let y = i / wu;
        proof {
            assert(y < hu) by (nonlinear_arith)
                requires
                    i < wu * hu,
                    y == i / wu,
                    wu > 0,
            ;
        }
        let p = Point { x: x as i8, y: y as i8 };
        proof {
            game.board.lemma_model();
            assert(pos(i as int, wu as int) == p);
            assert(hazard_damage(game@, p) <= 126);
        }
        let hazards = game.board.hazard_count(&p) as i8;
        proof {
            assert(hazards == spec_hazard_count(game@.board.tile(p)));
            assert(game@.rules.hazard_damage_per_turn * 0 == 0);
        }
        if hazards > 0 {
            let mut t = tiles[i];
            t.damage_amount = game.rules.hazard_damage_per_turn * hazards;
            tiles.set(i, t);
        }
        i += 1;
    }
    proof {
        assert forall|j: int| 0 <= j < tiles@.len() implies #[trigger] tiles@[j] == fl_hazard_tiles(game@, wu as int, hu as int)[j] by {
            assert(hazard_damage(game@, pos(j, wu as int)) <= 126);
            assert(game@.rules.hazard_damage_per_turn >= 0);
            lemma_damage(game@, pos(j, wu as int));
        }
        assert(tiles@ =~= fl_hazard_tiles(game@, wu as int, hu as int));
    }
    tiles
}

/// The tile of the area under point `p`, or -1 where `p` is off the area.
pub open spec fn area_tile(p: Point, wu: int, hu: int) -> int {
    if 0 <= p.x < wu && 0 <= p.y < hu {
        p.x + p.y * wu
    } else {
        -1
    }
}

proof fn lemma_area_tile(p: Point, wu: int, hu: int)
    ensures
        area_tile(p, wu, hu) >= 0 ==> area_tile(p, wu, hu) < wu * hu,
{
    if area_tile(p, wu, hu) >= 0 {
        let x = p.x as int;
        let y = p.y as int;
        assert(x + y * wu < wu * hu) by (nonlinear_arith)
            requires
                0 <= x < wu,
                0 <= y < hu,
        ;
    }
}

/// How many turns part `k` of a body of `length` blocks its tile.
pub open spec fn block_turns(k: int, length: int, forever: bool) -> u16 {
    if forever {
        UNREACHED
    } else {
        (length - k - 1) as u16
    }
}

/// Each tile's blocking after the first `k` parts of `body` are marked on `before`: the
/// longest of what it had and of what each of those parts on it asks.
pub open spec fn marked(after: Seq<TileInfo>, before: Seq<TileInfo>, body: Seq<Point>, k: int, length: int, wu: int, hu: int, forever: bool) -> bool {
    &&& after.len() == before.len()
    &&& forall|j: int| 0 <= j < before.len() ==> same_but_blocked(#[trigger] after[j], before[j])
    &&& forall|j: int| 0 <= j < before.len() ==> (#[trigger] after[j]).inaccessible_turns >= before[j].inaccessible_turns
    &&& forall|i: int|
        0 <= i < k && area_tile(#[trigger] body[i], wu, hu) >= 0 ==> after[area_tile(body[i], wu, hu)].inaccessible_turns
            >= block_turns(i, length, forever)
    &&& forall|j: int|
        0 <= j < before.len() ==> (#[trigger] after[j]).inaccessible_turns == before[j].inaccessible_turns || exists|i: int|
            0 <= i < k && area_tile(#[trigger] body[i], wu, hu) == j && after[j].inaccessible_turns == block_turns(i, length, forever)
}

proof fn lemma_marked_unique(
    a: Seq<TileInfo>,
    c: Seq<TileInfo>,
    before: Seq<TileInfo>,
    body: Seq<Point>,
    k: int,
    length: int,
    wu: int,
    hu: int,
    forever: bool,
)
    requires
        marked(a, before, body, k, length, wu, hu, forever),
        marked(c, before, body, k, length, wu, hu, forever),
    ensures
        a == c,
{
    assert forall|j: int| 0 <= j < before.len() implies a[j] == c[j] by {
        assert(same_but_blocked(a[j], before[j]) && same_but_blocked(c[j], before[j]));
        if a[j].inaccessible_turns < c[j].inaccessible_turns {
            if c[j].inaccessible_turns != before[j].inaccessible_turns {
                let i = choose|i: int| 0 <= i < k && area_tile(#[trigger] body[i], wu, hu) == j
                    && c[j].inaccessible_turns == block_turns(i, length, forever);
                assert(area_tile(body[i], wu, hu) >= 0);
            }
        } else if c[j].inaccessible_turns < a[j].inaccessible_turns {
            if a[j].inaccessible_turns != before[j].inaccessible_turns {
                let i = choose|i: int| 0 <= i < k && area_tile(#[trigger] body[i], wu, hu) == j
                    && a[j].inaccessible_turns == block_turns(i, length, forever);
                assert(area_tile(body[i], wu, hu) >= 0);
            }
        }
    }
    assert(a =~= c);
}

/// The tiles of the area before any body is marked: nobody on them, and the damage of
/// their hazards.
pub open spec fn fl_hazard_tiles(g: GameModel, wu: int, hu: int) -> Seq<TileInfo> {
    Seq::new(
        (wu * hu) as nat,
        |j: int|
            TileInfo {
                snake_length: 0,
                snake_distance: UNREACHED,
                inaccessible_turns: 0,
                damage_amount: hazard_damage(g, pos(j, wu)) as i8,
                snake: NO_SNAKE,
            },
    )
}

/// The tiles once our body (for good when `you_forever`) and the first `k` opponents'
/// bodies are marked on the hazard tiles.
pub open spec fn fl_marked(g: GameModel, wu: int, hu: int, you_forever: bool, k: int) -> Seq<TileInfo>
    decreases k,
{
    if k <= 0 {
        choose|t: Seq<TileInfo>|
            marked(t, fl_hazard_tiles(g, wu, hu), g.you.body, g.you.body.len() as int, g.you.length, wu, hu, you_forever)
    } else {
        let prev = fl_marked(g, wu, hu, you_forever, k - 1);
        let s = g.others[k - 1];
        choose|t: Seq<TileInfo>| marked(t, prev, s.body, s.body.len() as int, s.length, wu, hu, false)
    }
}

/// The first steps: our head as snake 0 and the opponents' heads from `offset` on, each
/// at distance 0 with its length (at most 65535) and health.
pub open spec fn fl_heads(g: GameModel, offset: u8) -> Seq<Work> {
    let len = |l: int| if l < 65535 { l as u16 } else { 65535u16 };
    seq![Work { snake_length: len(g.you.length), snake_distance: 0, p: g.you.head, snake: 0, health: g.you.health as i8 }]
        + Seq::new(
        g.others.len(),
        |i: int|
            Work {
                snake_length: len(g.others[i].length),
                snake_distance: 0,
                p: g.others[i].head,
                snake: (offset + i) as u8,
                health: g.others[i].health as i8,
            },
    )
}

/// The collision distances before the flood: nothing meets, except each snake with
/// itself at 0 when `diagonal_zero`.
pub open spec fn fl_collisions(diagonal_zero: bool) -> Seq<u16> {
    Seq::new(
        (MAX_SNAKES * MAX_SNAKES) as nat,
        |k: int| if diagonal_zero && k / (MAX_SNAKES as int) == k % (MAX_SNAKES as int) { 0u16 } else { UNREACHED },
    )
}

/// The state the flood of a `wu` by `hu` area starts from.
pub open spec fn fl_start(g: GameModel, wu: int, hu: int, offset: u8, you_forever: bool, diagonal_zero: bool) -> FloodState {
    (
        fl_marked(g, wu, hu, you_forever, g.others.len() as int),
        fl_heads(g, offset),
        fl_collisions(diagonal_zero),
        Seq::new(MAX_SNAKES as nat, |s: int| UNREACHED),
        Seq::new(MAX_SNAKES as nat, |s: int| 0u16),
    )
}

/// The state once the flood of a `wu` by `hu` area has run: our snake is number 0, the
/// opponents are numbered from `offset` on, our body blocks for good when `you_forever`,
/// the area wraps when `warp`, no step reaches `max_distance`, and each snake's area meets
/// itself at 0 when `diagonal_zero`.
pub open spec fn flood_result(
    g: GameModel,
    wu: int,
    hu: int,
    offset: u8,
    you_forever: bool,
    warp: bool,
    max_distance: u16,
    diagonal_zero: bool,
) -> FloodState {
    fl_final(g, wu, hu, max_distance, warp, fl_start(g, wu, hu, offset, you_forever, diagonal_zero))
}

/// The scores read off a finished flood: each snake's tiles, the food and the hazards on
/// them, its nearest food distance and the food there, and where its area meets each other
/// snake's.
pub open spec fn scores_of(res: Seq<SnakeScore>, k: int, st: FloodState, g: GameModel, wu: int) -> bool {
    forall|s: int|
        0 <= s < k ==> {
            &&& (#[trigger] res[s]).tile_count == isum(st.0, f_owned(s))
            &&& res[s].food_count == isum(st.0, f_food(g.board, wu, s))
            &&& res[s].hazard_count == isum(st.0, f_haz(g.board, wu, s))
            &&& res[s].food_distance == st.3[s]
            &&& res[s].food_at_min_distance == st.4[s]
            &&& forall|b: int| 0 <= b < MAX_SNAKES ==> #[trigger] res[s].distance_to_collision@[b] == collision_at(st.2, s, b)
        }
}

/// Blocks the tiles under a body for as long as each part of it stays there (for good when
/// `forever`); parts off the area block nothing.
fn mark_body(tiles: &mut Vec<TileInfo>, body: &VecDeque<Point>, length: usize, wu: usize, hu: usize, forever: bool)
    requires
        old(tiles)@.len() == wu * hu,
        wu <= 25,
        hu <= 25,
        body@.len() <= length,
        length <= 64000,
    ensures
        final(tiles)@.len() == old(tiles)@.len(),
        forall|j: int| 0 <= j < old(tiles)@.len() ==> same_but_blocked(#[trigger] final(tiles)@[j], old(tiles)@[j]),
        marked(final(tiles)@, old(tiles)@, body@, body@.len() as int, length as int, wu as int, hu as int, forever),
{
    let n = body.len();
    let mut k: usize = 0;
    while k < n
        invariant
            n == body@.len(),
            k <= n,
            n <= length,
            length <= 64000,
            tiles@.len() == old(tiles)@.len(),
            tiles@.len() == wu * hu,
            wu <= 25,
            hu <= 25,
            marked(tiles@, old(tiles)@, body@, k as int, length as int, wu as int, hu as int, forever),
        decreases n - k,
    {
        let p = body[k];
        let px = p.x as usize;
        let py = p.y as usize;
        let ghost t0 = tiles@;
        if 0 <= p.x && px < wu && 0 <= p.y && py < hu {
            proof {
                assert(py * wu + px < wu * hu && wu * hu <= 625) by (nonlinear_arith)
                    requires
                        px < wu,
                        py < hu,
                        wu <= 25,
                        hu <= 25,
                ;
            }
            let idx = px + py * wu;
            let present: u16 = if forever {
                UNREACHED
            } else {
                (length - k - 1) as u16
            };
            let mut t = tiles[idx];
            if t.inaccessible_turns < present {
                t.inaccessible_turns = present;
                tiles.set(idx, t);
            }
            proof {
                let o = old(tiles)@;
                assert(area_tile(body@[k as int], wu as int, hu as int) == idx);
                assert(present == block_turns(k as int, length as int, forever));
                assert(tiles@[idx as int].inaccessible_turns >= present);
                assert forall|j: int| 0 <= j < o.len() implies (#[trigger] tiles@[j]).inaccessible_turns >= t0[j].inaccessible_turns
                    && tiles@[j].inaccessible_turns >= o[j].inaccessible_turns && same_but_blocked(tiles@[j], o[j]) by {
                    assert(same_but_blocked(t0[j], o[j]));
                }
                assert forall|j: int| 0 <= j < o.len() implies (#[trigger] tiles@[j]).inaccessible_turns == o[j].inaccessible_turns
                    || exists|i: int| 0 <= i < k + 1 && area_tile(#[trigger] body@[i], wu as int, hu as int) == j
                        && tiles@[j].inaccessible_turns == block_turns(i, length as int, forever) by {
                    if j == idx && tiles@[j] != t0[j] {
                        assert(area_tile(body@[k as int], wu as int, hu as int) == j);
                    } else if t0[j].inaccessible_turns != o[j].inaccessible_turns {
                        let i = choose|i: int| 0 <= i < k && area_tile(#[trigger] body@[i], wu as int, hu as int) == j
                            && t0[j].inaccessible_turns == block_turns(i, length as int, forever);
                        assert(area_tile(body@[i], wu as int, hu as int) == j);
                    }
                }
                assert forall|i: int| 0 <= i < k + 1 && area_tile(#[trigger] body@[i], wu as int, hu as int) >= 0 implies
                    tiles@[area_tile(body@[i], wu as int, hu as int)].inaccessible_turns >= block_turns(i, length as int, forever) by {
                    let x = area_tile(body@[i], wu as int, hu as int);
                    lemma_area_tile(body@[i], wu as int, hu as int);
                    if i < k {
                        assert(t0[x].inaccessible_turns >= block_turns(i, length as int, forever));
                        assert(tiles@[x].inaccessible_turns >= t0[x].inaccessible_turns);
                    }
                }
            }
        } else {
            proof {
                assert(area_tile(body@[k as int], wu as int, hu as int) == -1);
                let o = old(tiles)@;
                assert forall|j: int| 0 <= j < o.len() implies (#[trigger] tiles@[j]).inaccessible_turns == o[j].inaccessible_turns
                    || exists|i: int| 0 <= i < k + 1 && area_tile(#[trigger] body@[i], wu as int, hu as int) == j
                        && tiles@[j].inaccessible_turns == block_turns(i, length as int, forever) by {
                    if t0[j].inaccessible_turns != o[j].inaccessible_turns {
                        let i = choose|i: int| 0 <= i < k && area_tile(#[trigger] body@[i], wu as int, hu as int) == j
                            && t0[j].inaccessible_turns == block_turns(i, length as int, forever);
                        assert(area_tile(body@[i], wu as int, hu as int) == j);
                    }
                }
            }
        }
        k += 1;
    }
}

fn new_tally(diagonal_zero: bool) -> (t: Tally)
    ensures
        tally_shape(t),
        collisions_ok(t.collision@, diagonal_zero),
        forall|s: int| 0 <= s < MAX_SNAKES ==> {
            &&& #[trigger] t.tiles@[s] == 0
            &&& t.food@[s] == 0
            &&& t.hazards@[s] == 0
            &&& t.food_distance@[s] == UNREACHED
        },
        t.collision@ == fl_collisions(diagonal_zero),
        t.food_distance@ == Seq::new(MAX_SNAKES as nat, |s: int| UNREACHED),
        t.food_at_min@ == Seq::new(MAX_SNAKES as nat, |s: int| 0u16),
{
    let mut collision: Vec<u16> = vec![UNREACHED; MAX_SNAKES * MAX_SNAKES];
    if diagonal_zero {
        let mut a: usize = 0;
        while a < MAX_SNAKES
            invariant
                a <= MAX_SNAKES,
                collision@.len() == MAX_SNAKES * MAX_SNAKES,
                forall|x: int, y: int| 0 <= x < MAX_SNAKES && 0 <= y < MAX_SNAKES ==> #[trigger] collision_at(collision@, x, y) == if x == y && x < a {
                    0
                } else {
                    UNREACHED
                },
            decreases MAX_SNAKES - a,
        {
            let ghost c0 = collision@;
            collision.set(a * MAX_SNAKES + a, 0);
            proof {
                assert forall|x: int, y: int| 0 <= x < MAX_SNAKES && 0 <= y < MAX_SNAKES implies #[trigger] collision_at(collision@, x, y)
                    == if x == y && x < a + 1 { 0 } else { UNREACHED } by {
                    assert(collision_at(c0, x, y) == if x == y && x < a { 0 } else { UNREACHED });
                    if x != a || y != a {
                        assert(x * MAX_SNAKES + y != a * MAX_SNAKES + a);
                    }
                }
            }
            a += 1;
        }
    }
    proof {
        assert forall|k: int| 0 <= k < MAX_SNAKES * MAX_SNAKES implies #[trigger] collision@[k] == fl_collisions(diagonal_zero)[k] by {
            let x = k / (MAX_SNAKES as int);
            let y = k % (MAX_SNAKES as int);
            vstd::arithmetic::div_mod::lemma_fundamental_div_mod(k, MAX_SNAKES as int);
            assert(k == x * (MAX_SNAKES as int) + y);
            assert(0 <= x < MAX_SNAKES) by (nonlinear_arith)
                requires
                    0 <= k < 144,
                    x == k / 12,
            ;
            assert(collision_at(collision@, x, y) == collision@[k]);
        }
        assert(collision@ =~= fl_collisions(diagonal_zero));
    }
    let food_distance: Vec<u16> = vec![UNREACHED; MAX_SNAKES];
    let food_at_min: Vec<u16> = vec![0; MAX_SNAKES];
    proof {
        assert(food_distance@ =~= Seq::new(MAX_SNAKES as nat, |s: int| UNREACHED));
        assert(food_at_min@ =~= Seq::new(MAX_SNAKES as nat, |s: int| 0u16));
    }
    Tally {
        food: vec![0; MAX_SNAKES],
        tiles: vec![0; MAX_SNAKES],
        hazards: vec![0; MAX_SNAKES],
        food_distance,
        food_at_min,
        collision,
    }
}


spec fn state_ok(
    g: GameModel,
    b: Seq<TileInfo>,
    t: Tally,
    q: Seq<Work>,
    wu: int,
    hu: int,
    n: int,
    diagonal_zero: bool,
) -> bool {
    &&& b.len() == wu * hu
    &&& tiles_ok(b, n, wu, g)
    &&& tally_shape(t)
    &&& counts_ok(t, b, g, wu)
    &&& collisions_ok(t.collision@, diagonal_zero)
    &&& queue_ok(q, n, wu, hu, b, g)
    &&& forall|s: int| n <= s < MAX_SNAKES ==> #[trigger] t.food_distance@[s] == UNREACHED
}

/// The area the flood covers, and the board under it: at most 25 by 25 tiles, on a board
/// small enough that its bounds tests agree.
spec fn area_ok(g: GameModel, wu: int, hu: int, n: int) -> bool {
    &&& flood_ok(g, wu, hu)
    &&& 0 <= g.board.width <= 127
    &&& 0 <= g.board.height <= 127
    &&& 1 <= n <= MAX_SNAKES
}

proof fn lemma_weight_nonneg(b: Seq<TileInfo>)
    ensures
        isum(b, f_weight()) >= 0,
{
    assert forall|j: int, t: TileInfo| 0 <= #[trigger] f_weight()(j, t) by {}
    lemma_isum_bounds_nonneg(b, f_weight());
}

/// The food test of the board agrees with the tile the board holds.
proof fn lemma_food_test(game: &Game, p: Point)
    requires
        0 <= game@.board.width <= 127,
        0 <= game@.board.height <= 127,
        0 <= p.x,
        0 <= p.y,
    ensures
        game.board.in_narrow_bounds(p) == game@.board.in_bounds(p),
        (game.board.in_narrow_bounds(p) && spec_kind(game@.board.tile(p)) == FOOD) == spec_has_food(game@.board.tile(p)),
{
    let wd = game@.board.width;
    let ht = game@.board.height;
    assert((wd as u8) as i8 == wd);
    assert((ht as u8) as i8 == ht);
}

/// A draw on the tile of `work`: the snake that held it at the same distance and length
/// loses it, and nobody gets it.
fn draw_step(
    game: &Game,
    tiles: &mut Vec<TileInfo>,
    tally: &mut Tally,
    queue: &VecDeque<Work>,
    work: Work,
    idx: usize,
    wu: usize,
    hu: usize,
    n: usize,
    Ghost(diagonal_zero): Ghost<bool>,
)
    requires
        area_ok(game@, wu as int, hu as int, n as int),
        state_ok(game@, old(tiles)@, *old(tally), queue@, wu as int, hu as int, n as int, diagonal_zero),
        work_ok(work, n as int, wu as int, hu as int, old(tiles)@, game@),
        idx == work.p.x + work.p.y * wu,
        idx < old(tiles)@.len(),
        pos(idx as int, wu as int) == work.p,
        old(tiles)@[idx as int].snake != NO_SNAKE,
        old(tiles)@[idx as int].snake != work.snake,
        old(tiles)@[idx as int].snake_distance == work.snake_distance,
    ensures
        state_ok(game@, final(tiles)@, *final(tally), queue@, wu as int, hu as int, n as int, diagonal_zero),
        isum(final(tiles)@, f_weight()) == isum(old(tiles)@, f_weight()),
        final(tiles)@ == old(tiles)@.update(idx as int, (TileInfo { snake: NO_SNAKE, ..old(tiles)@[idx as int] })),
        final(tally).collision@ == met(old(tally).collision@, work.snake as int, old(tiles)@[idx as int].snake as int,
            work.snake_distance),
        (final(tally).food_distance@, final(tally).food_at_min@) == fl_release(
            old(tally).food_distance@,
            old(tally).food_at_min@,
            old(tiles)@[idx as int].snake as int,
            spec_has_food(game@.board.tile(work.p)),
            work.snake_distance,
        ),
{
    let ghost b0 = tiles@;
    let cur = tiles[idx];
    let s = cur.snake as usize;
    let ws = work.snake as usize;
    note_collision(&mut tally.collision, ws, s, work.snake_distance, Ghost(diagonal_zero));
    let food = game.board.is_food(&work.p);
    let hz = game.board.hazard_count(&work.p) as u16;
    let unclaimed = TileInfo { snake: NO_SNAKE, ..cur };
    tiles.set(idx, unclaimed);
    proof {
        let m = game@.board;
        let w = wu as int;
        lemma_food_test(game, work.p);
        assert(tiles@ == b0.update(idx as int, unclaimed));
        assert forall|r: int| 0 <= r < MAX_SNAKES implies {
            &&& #[trigger] isum(tiles@, f_owned(r)) == isum(b0, f_owned(r)) - (if s == r { 1int } else { 0int })
            &&& isum(tiles@, f_food(m, w, r)) == isum(b0, f_food(m, w, r)) - (if s == r && food { 1int } else { 0int })
            &&& isum(tiles@, f_haz(m, w, r)) == isum(b0, f_haz(m, w, r)) - (if s == r { hz as int } else { 0int })
        } by {
            lemma_isum_update(b0, idx as int, unclaimed, f_owned(r));
            lemma_isum_update(b0, idx as int, unclaimed, f_food(m, w, r));
            lemma_isum_update(b0, idx as int, unclaimed, f_haz(m, w, r));
        }
        lemma_isum_update(b0, idx as int, unclaimed, f_weight());
        assert forall|j: int, t: TileInfo| 0 <= #[trigger] f_closer(work.snake_distance as int)(j, t) <= 1 by {}
        lemma_isum_bounds(b0, f_closer(work.snake_distance as int), 1);
        assert(wu * hu <= 625) by (nonlinear_arith)
            requires
                wu <= 25,
                hu <= 25,
        ;
        assert forall|j: int, t: TileInfo| 0 <= #[trigger] f_owned(s as int)(j, t) by {}
        assert forall|j: int, t: TileInfo| 0 <= #[trigger] f_food(m, w, s as int)(j, t) by {}
        assert forall|j: int, t: TileInfo| 0 <= #[trigger] f_haz(m, w, s as int)(j, t) by {}
        lemma_isum_update_zero(b0, idx as int, f_owned(s as int));
        lemma_isum_update_zero(b0, idx as int, f_food(m, w, s as int));
        lemma_isum_update_zero(b0, idx as int, f_haz(m, w, s as int));
        assert forall|k: int| 0 <= k < queue@.len() implies work_ok(#[trigger] queue@[k], n as int, w, hu as int, tiles@, game@) by {
            lemma_isum_update(b0, idx as int, unclaimed, f_closer(queue@[k].snake_distance as int));
        }
        assert forall|i: int| 0 <= i < tiles@.len() implies tile_ok(#[trigger] tiles@[i], i, n as int, w, game@) by {
            assert(tile_ok(b0[i], i, n as int, w, game@));
        }
    }
    let ghost t0 = *tally;
    proof {
        let m = game@.board;
        let w = wu as int;
        assert(tally.tiles@[s as int] == isum(b0, f_owned(s as int)));
        assert(food ==> f_food(m, w, s as int)(idx as int, b0[idx as int]) == 1);
        assert(f_haz(m, w, s as int)(idx as int, b0[idx as int]) == hz);
    }
    release(tally, s, food, hz, work.snake_distance);
    proof {
        let m = game@.board;
        let w = wu as int;
        assert forall|r: int| 0 <= r < MAX_SNAKES implies {
            &&& #[trigger] tally.tiles@[r] == isum(tiles@, f_owned(r))
            &&& tally.food@[r] == isum(tiles@, f_food(m, w, r))
            &&& tally.hazards@[r] == isum(tiles@, f_haz(m, w, r))
        } by {
            assert(t0.tiles@[r] == isum(b0, f_owned(r)));
            assert(isum(tiles@, f_owned(r)) == isum(b0, f_owned(r)) - (if s == r { 1int } else { 0int }));
            assert(isum(tiles@, f_food(m, w, r)) == isum(b0, f_food(m, w, r)) - (if s == r && food { 1int } else { 0int }));
            assert(isum(tiles@, f_haz(m, w, r)) == isum(b0, f_haz(m, w, r)) - (if s == r { hz as int } else { 0int }));
        }
        assert(counts_ok(*tally, tiles@, game@, w));
        assert(tiles_ok(tiles@, n as int, w, game@));
        assert(queue_ok(queue@, n as int, w, hu as int, tiles@, game@));
    }
}


proof fn lemma_damage(g: GameModel, p: Point)
    requires
        g.rules.hazard_damage_per_turn >= 0,
    ensures
        hazard_damage(g, p) >= 0,
{
    let c = spec_hazard_count(g.board.tile(p)) as int;
    let d = g.rules.hazard_damage_per_turn as int;
    assert(d * c >= 0) by (nonlinear_arith)
        requires
            d >= 0,
            c >= 0,
    ;
}

/// Only the collision distances of the tally changed, and they are still consistent.
proof fn lemma_state_collision(
    g: GameModel,
    b: Seq<TileInfo>,
    t1: Tally,
    t2: Tally,
    q: Seq<Work>,
    wu: int,
    hu: int,
    n: int,
    diagonal_zero: bool,
)
    requires
        state_ok(g, b, t1, q, wu, hu, n, diagonal_zero),
        t2.tiles == t1.tiles,
        t2.food == t1.food,
        t2.hazards == t1.hazards,
        t2.food_distance == t1.food_distance,
        t2.food_at_min == t1.food_at_min,
        collisions_ok(t2.collision@, diagonal_zero),
    ensures
        state_ok(g, b, t2, q, wu, hu, n, diagonal_zero),
{
    assert(counts_ok(t2, b, g, wu));
}

/// No tile is farther from the snake that holds it than before.
spec fn no_farther(after: Seq<TileInfo>, before: Seq<TileInfo>) -> bool {
    &&& after.len() == before.len()
    &&& forall|j: int| 0 <= j < before.len() ==> (#[trigger] after[j]).snake_distance <= before[j].snake_distance
}

/// The tile of `w` is reached at the distance of `w` or nearer.
spec fn reached(b: Seq<TileInfo>, w: Work, wu: int) -> bool {
    b[w.p.x + w.p.y * wu].snake_distance <= w.snake_distance
}

/// The tile of `work` goes to its snake, which is first there (nearer than anybody before,
/// or as near and longer); the snake then spreads to the neighbouring tiles it can reach.
fn claim_step(
    game: &Game,
    tiles: &mut Vec<TileInfo>,
    tally: &mut Tally,
    queue: &mut VecDeque<Work>,
    work: Work,
    idx: usize,
    wu: usize,
    hu: usize,
    n: usize,
    max_distance: u16,
    warp: bool,
    Ghost(diagonal_zero): Ghost<bool>,
)
    requires
        area_ok(game@, wu as int, hu as int, n as int),
        state_ok(game@, old(tiles)@, *old(tally), old(queue)@, wu as int, hu as int, n as int, diagonal_zero),
        work_ok(work, n as int, wu as int, hu as int, old(tiles)@, game@),
        idx == work.p.x + work.p.y * wu,
        idx < old(tiles)@.len(),
        pos(idx as int, wu as int) == work.p,
        old(tiles)@[idx as int].snake_distance > work.snake_distance || (old(tiles)@[idx as int].snake_distance
            == work.snake_distance && old(tiles)@[idx as int].snake_length < work.snake_length),
        warp ==> warp_size_ok(wu as isize, hu as isize),
    ensures
        state_ok(game@, final(tiles)@, *final(tally), final(queue)@, wu as int, hu as int, n as int, diagonal_zero),
        5 * isum(final(tiles)@, f_weight()) + final(queue)@.len() + 1 <= 5 * isum(old(tiles)@, f_weight())
            + old(queue)@.len(),
        no_farther(final(tiles)@, old(tiles)@),
        final(tiles)@[idx as int].snake_distance == work.snake_distance,
        old(queue)@.len() <= final(queue)@.len(),
        final(queue)@.subrange(0, old(queue)@.len() as int) == old(queue)@,
        ({
            let cur = old(tiles)@[idx as int];
            let food = spec_has_food(game@.board.tile(work.p));
            let b2 = old(tiles)@.update(
                idx as int,
                TileInfo { snake: work.snake, snake_distance: work.snake_distance, snake_length: work.snake_length, ..cur },
            );
            let (fd1, fm1) = if cur.snake != NO_SNAKE {
                fl_release(old(tally).food_distance@, old(tally).food_at_min@, cur.snake as int, food, work.snake_distance)
            } else {
                (old(tally).food_distance@, old(tally).food_at_min@)
            };
            let nb = fl_neighbours(game@, b2, work, cur, wu as int, hu as int, max_distance, warp, old(tally).collision@, 4);
            &&& final(tiles)@ == b2
            &&& (final(tally).food_distance@, final(tally).food_at_min@) == fl_claim(fd1, fm1, work.snake as int, food, work.snake_distance)
            &&& final(tally).collision@ == nb.0
            &&& final(queue)@ == old(queue)@ + nb.1
        }),
{
    let ghost b0 = tiles@;
    let cur = tiles[idx];
    let ws = work.snake as usize;
    let d = work.snake_distance;
    let food = game.board.is_food(&work.p);
    let hz = game.board.hazard_count(&work.p) as u16;
    let has_food = game.board.get(&work.p).has_food();
    let claimed = TileInfo { snake: work.snake, snake_distance: d, snake_length: work.snake_length, ..cur };
    tiles.set(idx, claimed);
    proof {
        let m = game@.board;
        let w = wu as int;
        lemma_food_test(game, work.p);
        assert(food == has_food);
        assert(tiles@ == b0.update(idx as int, claimed));
        assert forall|r: int| 0 <= r < MAX_SNAKES implies {
            &&& #[trigger] isum(tiles@, f_owned(r)) == isum(b0, f_owned(r)) - (if cur.snake == r { 1int } else { 0int })
                + (if ws == r { 1int } else { 0int })
            &&& isum(tiles@, f_food(m, w, r)) == isum(b0, f_food(m, w, r)) - (if cur.snake == r && food { 1int } else { 0int })
                + (if ws == r && food { 1int } else { 0int })
            &&& isum(tiles@, f_haz(m, w, r)) == isum(b0, f_haz(m, w, r)) - (if cur.snake == r { hz as int } else { 0int })
                + (if ws == r { hz as int } else { 0int })
        } by {
            lemma_isum_update(b0, idx as int, claimed, f_owned(r));
            lemma_isum_update(b0, idx as int, claimed, f_food(m, w, r));
            lemma_isum_update(b0, idx as int, claimed, f_haz(m, w, r));
        }
        lemma_isum_update(b0, idx as int, claimed, f_weight());
        assert(f_weight()(idx as int, claimed) < f_weight()(idx as int, cur));
        assert forall|j: int, t: TileInfo| 0 <= #[trigger] f_closer(d as int)(j, t) <= 1 by {}
        lemma_isum_bounds(b0, f_closer(d as int), 1);
        assert(wu * hu <= 625) by (nonlinear_arith)
            requires
                wu <= 25,
                hu <= 25,
        ;
        lemma_isum_update(b0, idx as int, claimed, f_closer(d as int));
        lemma_closer_step(tiles@, d as int, idx as int);
        assert forall|k: int| 0 <= k < queue@.len() implies work_ok(#[trigger] queue@[k], n as int, w, hu as int, tiles@, game@) by {
            lemma_isum_update(b0, idx as int, claimed, f_closer(queue@[k].snake_distance as int));
        }
        assert forall|i: int| 0 <= i < tiles@.len() implies tile_ok(#[trigger] tiles@[i], i, n as int, w, game@) by {
            assert(tile_ok(b0[i], i, n as int, w, game@));
        }
        game.board.lemma_model();
        assert forall|j: int, t: TileInfo| 0 <= #[trigger] f_owned(ws as int)(j, t) <= 1 by {}
        assert forall|j: int, t: TileInfo| 0 <= #[trigger] f_food(m, w, ws as int)(j, t) <= 1 by {}
        assert forall|j: int, t: TileInfo| 0 <= #[trigger] f_haz(m, w, ws as int)(j, t) <= 3 by {
            assert(spec_hazard_count(m.tile(pos(j, w))) <= 3);
        }
        lemma_isum_bounds(tiles@, f_owned(ws as int), 1);
        lemma_isum_bounds(tiles@, f_food(m, w, ws as int), 1);
        lemma_isum_bounds(tiles@, f_haz(m, w, ws as int), 3);
        assert(tally.tiles@[ws as int] == isum(b0, f_owned(ws as int)));
        assert(tile_ok(b0[idx as int], idx as int, n as int, w, game@));
        lemma_damage(game@, work.p);
    }
    let ghost t0 = *tally;
    if cur.snake != NO_SNAKE {
        let s = cur.snake as usize;
        proof {
            let m = game@.board;
            let w = wu as int;
            assert forall|j: int, t: TileInfo| 0 <= #[trigger] f_owned(s as int)(j, t) by {}
            assert forall|j: int, t: TileInfo| 0 <= #[trigger] f_food(m, w, s as int)(j, t) by {}
            assert forall|j: int, t: TileInfo| 0 <= #[trigger] f_haz(m, w, s as int)(j, t) by {}
            lemma_isum_update_zero(b0, idx as int, f_owned(s as int));
            lemma_isum_update_zero(b0, idx as int, f_food(m, w, s as int));
            lemma_isum_update_zero(b0, idx as int, f_haz(m, w, s as int));
            assert(tally.tiles@[s as int] == isum(b0, f_owned(s as int)));
            assert(food ==> f_food(m, w, s as int)(idx as int, b0[idx as int]) == 1);
            assert(f_haz(m, w, s as int)(idx as int, b0[idx as int]) == hz);
        }
        release(tally, s, food, hz, d);
    }
    claim(tally, ws, has_food, hz, d);
    proof {
        let m = game@.board;
        let w = wu as int;
        assert forall|r: int| 0 <= r < MAX_SNAKES implies {
            &&& #[trigger] tally.tiles@[r] == isum(tiles@, f_owned(r))
            &&& tally.food@[r] == isum(tiles@, f_food(m, w, r))
            &&& tally.hazards@[r] == isum(tiles@, f_haz(m, w, r))
        } by {
            assert(t0.tiles@[r] == isum(b0, f_owned(r)));
            assert(isum(tiles@, f_owned(r)) == isum(b0, f_owned(r)) - (if cur.snake == r { 1int } else { 0int })
                + (if ws == r { 1int } else { 0int }));
            assert(isum(tiles@, f_food(m, w, r)) == isum(b0, f_food(m, w, r)) - (if cur.snake == r && food { 1int } else { 0int })
                + (if ws == r && food { 1int } else { 0int }));
            assert(isum(tiles@, f_haz(m, w, r)) == isum(b0, f_haz(m, w, r)) - (if cur.snake == r { hz as int } else { 0int })
                + (if ws == r { hz as int } else { 0int }));
        }
    }
    let next_health: i8 = if has_food {
        100
    } else {
        work.health - cur.damage_amount - 1
    };
    let next_length: u16 = if has_food {
        work.snake_length + 1
    } else {
        work.snake_length
    };
    let next_distance: u16 = d + 1;
    let neighbours = work.p.neighbours();
    let w = wu as isize;
    let h = hu as isize;
    proof {
        assert(0 <= w <= 25 ==> (w as i8) == w) by (bit_vector);
        assert(0 <= h <= 25 ==> (h as i8) == h) by (bit_vector);
    }
    let ghost b1 = tiles@;
    let ghost q1 = queue@.len();
    let ghost qs = queue@;
    let ghost c0 = tally.collision@;
    let ghost fd_a = tally.food_distance@;
    let ghost fm_a = tally.food_at_min@;
    proof {
        assert(no_farther(b1, b0));
        assert(qs.subrange(0, qs.len() as int) == qs);
        assert(game@.board == game.board@);
        assert(has_food == spec_has_food(game@.board.tile(work.p)));
        assert(next_health == fl_health(game@, work, cur));
        assert forall|k: int| 0 <= k < 4 implies (#[trigger] neighbours@[k]).1 == spec_neighbour(work.p, vor_dir(k)) by {
            if k == 0 {
            } else if k == 1 {
            } else if k == 2 {
            } else {
            }
        }
        assert(queue@ =~= qs + fl_neighbours(game@, b1, work, cur, wu as int, hu as int, max_distance, warp, c0, 0).1);
    }
    let mut j: usize = 0;
    while j < 4
        invariant
            j <= 4,
            tally.food_distance@ == fd_a,
            tally.food_at_min@ == fm_a,
            tally.collision@ == fl_neighbours(game@, b1, work, cur, wu as int, hu as int, max_distance, warp, c0, j as int).0,
            queue@ == qs + fl_neighbours(game@, b1, work, cur, wu as int, hu as int, max_distance, warp, c0, j as int).1,
            forall|k: int| 0 <= k < 4 ==> (#[trigger] neighbours@[k]).1 == spec_neighbour(work.p, vor_dir(k)),
            has_food == spec_has_food(game@.board.tile(work.p)),
            d == work.snake_distance,
            next_health == fl_health(game@, work, cur),
            next_length == (if has_food { (work.snake_length + 1) as u16 } else { work.snake_length }),
            game@.board == game.board@,
            no_farther(b1, b0),
            b1[idx as int].snake_distance == work.snake_distance,
            qs.len() == q1,
            qs == old(queue)@,
            q1 <= queue@.len(),
            queue@.subrange(0, q1 as int) == qs,
            area_ok(game@, wu as int, hu as int, n as int),
            state_ok(game@, tiles@, *tally, queue@, wu as int, hu as int, n as int, diagonal_zero),
            tiles@ == b1,
            queue@.len() <= q1 + j,
            ws < n,
            ws == work.snake,
            next_distance == d + 1,
            next_distance <= isum(b1, f_closer(next_distance as int)),
            next_length <= 64000 + next_distance,
            w == wu,
            h == hu,
            (w as i8) == w,
            (h as i8) == h,
            wu * hu <= 625,
            warp ==> warp_size_ok(w, h),
        decreases 4 - j,
    {
        let mut next_p = neighbours[j].1;
        if warp {
            next_p.warp(w, h);
        }
        let ghost prev = fl_neighbours(game@, b1, work, cur, wu as int, hu as int, max_distance, warp, c0, j as int);
        let ghost nxt = fl_neighbours(game@, b1, work, cur, wu as int, hu as int, max_distance, warp, c0, j + 1);
        proof {
            assert(next_p == fl_target(work.p, vor_dir(j as int), wu as int, hu as int, warp));
        }
        if next_p.out_of_bounds(w, h) {
            proof {
                assert(nxt == prev);
            }
            j += 1;
            continue;
        }
        let nx = next_p.x as usize;
        let ny = next_p.y as usize;
        proof {
            assert(ny * wu + nx < wu * hu) by (nonlinear_arith)
                requires
                    nx < wu,
                    ny < hu,
            ;
            lemma_pos(next_p.x as int, next_p.y as int, wu as int);
        }
        let nidx = nx + ny * wu;
        let next_has_food = game.board.get(&next_p).has_food();
        let nt = tiles[nidx];
        proof {
            assert(tile_ok(b1[nidx as int], nidx as int, n as int, wu as int, game@));
            lemma_damage(game@, next_p);
            assert(hazard_damage(game@, next_p) <= 126);
        }
        let damage: i8 = if !next_has_food {
            nt.damage_amount + 1
        } else {
            0
        };
        proof {
            assert(nidx == next_p.x + next_p.y * wu);
            assert(next_has_food == spec_has_food(game@.board.tile(next_p)));
            assert(nt == b1[next_p.x + next_p.y * wu]);
            assert(next_distance == (work.snake_distance + 1) as u16);
            assert(damage == (if !spec_has_food(game@.board.tile(next_p)) { nt.damage_amount + 1 } else { 0 }));
            assert(!spec_out_of_bounds(next_p, wu as isize, hu as isize));
        }
        if damage >= next_health || nt.inaccessible_turns >= next_distance || next_distance >= max_distance {
            proof {
                assert(nxt == prev);
            }
            j += 1;
            continue;
        }
        if next_distance > nt.snake_distance {
            if nt.snake != NO_SNAKE {
                let ghost t1 = *tally;
                note_collision(&mut tally.collision, ws, nt.snake as usize, d, Ghost(diagonal_zero));
                proof {
                    assert(tally.tiles == t1.tiles && tally.food == t1.food && tally.hazards == t1.hazards);
                    assert(tally.food_distance == t1.food_distance && tally.food_at_min == t1.food_at_min);
                    lemma_state_collision(game@, tiles@, t1, *tally, queue@, wu as int, hu as int, n as int, diagonal_zero);
                }
            }
            proof {
                assert(tally.collision@ == nxt.0);
                assert(nxt.1 == prev.1);
            }
            j += 1;
            continue;
        }
        let next_work = Work {
            snake_length: next_length,
            snake_distance: next_distance,
            p: next_p,
            snake: work.snake,
            health: next_health,
        };
        let ghost qb = queue@;
        queue.push_back(next_work);
        proof {
            assert(queue@.subrange(0, q1 as int) == qb.subrange(0, q1 as int));
            assert(work_ok(next_work, n as int, wu as int, hu as int, tiles@, game@));
            assert forall|k: int| 0 <= k < queue@.len() implies work_ok(#[trigger] queue@[k], n as int, wu as int, hu as int, tiles@, game@) by {
                if k < qb.len() {
                    assert(queue@[k] == qb[k]);
                }
            }
            assert(nxt.1 == prev.1.push(next_work));
            assert(queue@ =~= qs + nxt.1);
        }
        j += 1;
    }
}


/// What the flood keeps besides the tiles' owners: the tiles, the queue of steps, the
/// distances at which the snakes' areas meet (row after row), and for each snake the
/// distance to its nearest food and how much food lies there.
pub type FloodState = (Seq<TileInfo>, Seq<Work>, Seq<u16>, Seq<u16>, Seq<u16>);

/// Snake `s` loses a tile at distance `d`: when the tile has food at the snake's nearest
/// food distance, one less food lies there, and none left means no food is known.
pub open spec fn fl_release(fd: Seq<u16>, fm: Seq<u16>, s: int, food: bool, d: u16) -> (Seq<u16>, Seq<u16>) {
    if food && fd[s] == d {
        let m = (fm[s] - 1) as u16;
        (if m == 0 { fd.update(s, UNREACHED) } else { fd }, fm.update(s, m))
    } else {
        (fd, fm)
    }
}

/// Snake `s` gains a tile at distance `d`: food there nearer than any known becomes its
/// nearest food, with one food at that distance.
pub open spec fn fl_claim(fd: Seq<u16>, fm: Seq<u16>, s: int, food: bool, d: u16) -> (Seq<u16>, Seq<u16>) {
    if food && fd[s] > d {
        (fd.update(s, d), fm.update(s, 1))
    } else {
        (fd, fm)
    }
}

/// The neighbour of `p` in direction `d`, wrapped around the area when `warp`.
pub open spec fn fl_target(p: Point, d: Direction, wu: int, hu: int, warp: bool) -> Point {
    let np = spec_neighbour(p, d);
    if warp {
        spec_warp(np, wu as isize, hu as isize)
    } else {
        np
    }
}

/// The health of the snake of `work` after stepping onto its tile `cur`: full on food,
/// else less the tile's damage and one.
pub open spec fn fl_health(g: GameModel, work: Work, cur: TileInfo) -> i8 {
    if spec_has_food(g.board.tile(work.p)) {
        100
    } else {
        (work.health - cur.damage_amount - 1) as i8
    }
}

/// What the claim of `work` (on the tiles `b`, the tile having held `cur`) does in the
/// first `j` directions: the collision distances, starting from `c`, and the steps queued.
/// A neighbour off the area, too damaging for the snake's health, blocked by a body at
/// that distance or at `max_distance` is skipped; one reached nearer already marks where
/// two areas meet; any other gets the next step.
pub open spec fn fl_neighbours(
    g: GameModel,
    b: Seq<TileInfo>,
    work: Work,
    cur: TileInfo,
    wu: int,
    hu: int,
    max_distance: u16,
    warp: bool,
    c: Seq<u16>,
    j: int,
) -> (Seq<u16>, Seq<Work>)
    decreases j,
{
    if j <= 0 {
        (c, Seq::empty())
    } else {
        let (c1, ps) = fl_neighbours(g, b, work, cur, wu, hu, max_distance, warp, c, j - 1);
        let np = fl_target(work.p, vor_dir(j - 1), wu, hu, warp);
        let nh = fl_health(g, work, cur);
        let has_food = spec_has_food(g.board.tile(work.p));
        let nl = if has_food { (work.snake_length + 1) as u16 } else { work.snake_length };
        let nd = (work.snake_distance + 1) as u16;
        if spec_out_of_bounds(np, wu as isize, hu as isize) {
            (c1, ps)
        } else {
            let nt = b[np.x + np.y * wu];
            let damage = if !spec_has_food(g.board.tile(np)) { nt.damage_amount + 1 } else { 0 };
            if damage >= nh || nt.inaccessible_turns >= nd || nd >= max_distance {
                (c1, ps)
            } else if nd > nt.snake_distance {
                (if nt.snake != NO_SNAKE { met(c1, work.snake as int, nt.snake as int, work.snake_distance) } else { c1 }, ps)
            } else {
                (c1, ps.push(Work { snake_length: nl, snake_distance: nd, p: np, snake: work.snake, health: nh }))
            }
        }
    }
}

/// One step of the flood: the first queued step is taken. Reaching a tile at the distance
/// and length of another snake that holds it is a draw: nobody holds it, and the two areas
/// meet there. Reaching it nearer, or as near with a longer snake, claims it and spreads to
/// the neighbours. Anything else changes nothing.
pub open spec fn fl_step(g: GameModel, wu: int, hu: int, max_distance: u16, warp: bool, st: FloodState) -> FloodState {
    let (b, q, c, fd, fm) = st;
    if q.len() == 0 {
        st
    } else {
        let work = q[0];
        let rest = q.subrange(1, q.len() as int);
        let idx = work.p.x + work.p.y * wu;
        let cur = b[idx];
        let d = work.snake_distance;
        let food = spec_has_food(g.board.tile(work.p));
        if cur.snake != NO_SNAKE && cur.snake != work.snake && cur.snake_distance == d && cur.snake_length
            == work.snake_length {
            let (fd1, fm1) = fl_release(fd, fm, cur.snake as int, food, d);
            (b.update(idx, TileInfo { snake: NO_SNAKE, ..cur }), rest, met(c, work.snake as int, cur.snake as int, d), fd1, fm1)
        } else if cur.snake_distance > d || (cur.snake_distance == d && cur.snake_length < work.snake_length) {
            let b2 = b.update(idx, TileInfo { snake: work.snake, snake_distance: d, snake_length: work.snake_length, ..cur });
            let (fd1, fm1) = if cur.snake != NO_SNAKE { fl_release(fd, fm, cur.snake as int, food, d) } else { (fd, fm) };
            let (fd2, fm2) = fl_claim(fd1, fm1, work.snake as int, food, d);
            let (c2, ps) = fl_neighbours(g, b2, work, cur, wu, hu, max_distance, warp, c, 4);
            (b2, rest + ps, c2, fd2, fm2)
        } else {
            (b, rest, c, fd, fm)
        }
    }
}

/// The state after `k` steps.
pub open spec fn fl_iter(g: GameModel, wu: int, hu: int, max_distance: u16, warp: bool, st: FloodState, k: nat) -> FloodState
    decreases k,
{
    if k == 0 {
        st
    } else {
        fl_step(g, wu, hu, max_distance, warp, fl_iter(g, wu, hu, max_distance, warp, st, (k - 1) as nat))
    }
}

/// The state once the flood from `st` has run out of steps.
pub open spec fn fl_final(g: GameModel, wu: int, hu: int, max_distance: u16, warp: bool, st: FloodState) -> FloodState {
    let k = choose|k: nat| fl_iter(g, wu, hu, max_distance, warp, st, k).1.len() == 0;
    fl_iter(g, wu, hu, max_distance, warp, st, k)
}

proof fn lemma_fl_done(g: GameModel, wu: int, hu: int, max_distance: u16, warp: bool, st: FloodState, k: nat, m: nat)
    requires
        fl_iter(g, wu, hu, max_distance, warp, st, k).1.len() == 0,
        k <= m,
    ensures
        fl_iter(g, wu, hu, max_distance, warp, st, m) == fl_iter(g, wu, hu, max_distance, warp, st, k),
    decreases m,
{
    if m > k {
        lemma_fl_done(g, wu, hu, max_distance, warp, st, k, (m - 1) as nat);
    }
}

/// Spreads every queued snake over the area, nearest tiles first, until nothing is left
/// to spread. No tile ends farther from its snake than it was, and the tile of every step
/// queued at the start is reached at that step's distance or nearer.
/// Our head's tile during the flood: it is ours at distance 0, or our head's step is the
/// first queued and the tile is still untouched; every step queued lies in the area,
/// nearer than `UNREACHED`, and only our own step is queued at distance 0 on our head.
spec fn head_kept(st: FloodState, wu: int, hu: int, head: Point) -> bool {
    let b = st.0;
    let q = st.1;
    let h0 = head.x + head.y * wu;
    &&& b.len() == wu * hu
    &&& forall|k: int|
        0 <= k < q.len() ==> 0 <= (#[trigger] q[k]).p.x < wu && 0 <= q[k].p.y < hu && q[k].snake_distance < UNREACHED
    &&& forall|k: int| 0 <= k < q.len() && (#[trigger] q[k]).p == head && q[k].snake_distance == 0 ==> q[k].snake == 0
    &&& {
        ||| b[h0].snake == 0 && b[h0].snake_distance == 0
        ||| q.len() > 0 && q[0].p == head && q[0].snake == 0 && q[0].snake_distance == 0 && b[h0].snake == NO_SNAKE
            && b[h0].snake_distance == UNREACHED
    }
}

proof fn lemma_fl_pushes(
    g: GameModel,
    b: Seq<TileInfo>,
    work: Work,
    cur: TileInfo,
    wu: int,
    hu: int,
    max_distance: u16,
    warp: bool,
    c: Seq<u16>,
    j: int,
)
    requires
        0 <= wu <= MAX_WIDTH,
        0 <= hu <= MAX_HEIGHT,
        work.snake_distance < UNREACHED,
    ensures
        forall|k: int|
            0 <= k < fl_neighbours(g, b, work, cur, wu, hu, max_distance, warp, c, j).1.len() ==> {
                let w = #[trigger] fl_neighbours(g, b, work, cur, wu, hu, max_distance, warp, c, j).1[k];
                &&& 0 <= w.p.x < wu && 0 <= w.p.y < hu
                &&& w.snake_distance == work.snake_distance + 1
                &&& w.snake_distance < UNREACHED
            },
    decreases j,
{
    if j > 0 {
        lemma_fl_pushes(g, b, work, cur, wu, hu, max_distance, warp, c, j - 1);
        assert((wu as isize) as i8 == wu);
        assert((hu as isize) as i8 == hu);
        let ps0 = fl_neighbours(g, b, work, cur, wu, hu, max_distance, warp, c, j - 1).1;
        let ps = fl_neighbours(g, b, work, cur, wu, hu, max_distance, warp, c, j).1;
        let np = fl_target(work.p, vor_dir(j - 1), wu, hu, warp);
        let nd = (work.snake_distance + 1) as u16;
        assert(nd == work.snake_distance + 1);
        assert forall|k: int| 0 <= k < ps.len() implies {
            let w = #[trigger] ps[k];
            &&& 0 <= w.p.x < wu && 0 <= w.p.y < hu
            &&& w.snake_distance == work.snake_distance + 1
            &&& w.snake_distance < UNREACHED
        } by {
            if k < ps0.len() {
                assert(ps[k] == ps0[k]);
            } else {
                assert(ps[k].p == np && ps[k].snake_distance == nd);
                assert(!spec_out_of_bounds(np, wu as isize, hu as isize));
            }
        }
    }
}

proof fn lemma_head_index(p: Point, head: Point, wu: int, hu: int)
    requires
        0 <= p.x < wu,
        0 <= p.y < hu,
        0 <= head.x < wu,
        0 <= head.y < hu,
    ensures
        0 <= p.x + p.y * wu < wu * hu,
        p.x + p.y * wu == head.x + head.y * wu ==> p == head,
{
    assert(0 <= p.x + p.y * wu < wu * hu) by (nonlinear_arith)
        requires
            0 <= p.x < wu,
            0 <= p.y < hu,
    ;
    if p.x + p.y * wu == head.x + head.y * wu {
        if p.y < head.y {
            assert(p.x + p.y * wu < head.x + head.y * wu) by (nonlinear_arith)
                requires
                    0 <= p.x < wu,
                    0 <= head.x,
                    p.y < head.y,
            ;
        } else if head.y < p.y {
            assert(head.x + head.y * wu < p.x + p.y * wu) by (nonlinear_arith)
                requires
                    0 <= head.x < wu,
                    0 <= p.x,
                    head.y < p.y,
            ;
        }
    }
}

proof fn lemma_head_kept_step(g: GameModel, wu: int, hu: int, max_distance: u16, warp: bool, st: FloodState, head: Point)
    requires
        0 <= wu <= MAX_WIDTH,
        0 <= hu <= MAX_HEIGHT,
        0 <= head.x < wu,
        0 <= head.y < hu,
        head_kept(st, wu, hu, head),
    ensures
        head_kept(fl_step(g, wu, hu, max_distance, warp, st), wu, hu, head),
{
    let (b, q, c, fd, fm) = st;
    if q.len() > 0 {
        let work = q[0];
        let rest = q.subrange(1, q.len() as int);
        let idx = work.p.x + work.p.y * wu;
        let cur = b[idx];
        let d = work.snake_distance;
        let h0 = head.x + head.y * wu;
        lemma_head_index(work.p, head, wu, hu);
        lemma_head_index(head, head, wu, hu);
        let b2 = b.update(idx, TileInfo { snake: work.snake, snake_distance: d, snake_length: work.snake_length, ..cur });
        lemma_fl_pushes(g, b2, work, cur, wu, hu, max_distance, warp, c, 4);
        let ps = fl_neighbours(g, b2, work, cur, wu, hu, max_distance, warp, c, 4).1;
        let nq = rest + ps;
        assert forall|k: int| 0 <= k < nq.len() implies 0 <= (#[trigger] nq[k]).p.x < wu && 0 <= nq[k].p.y < hu
            && nq[k].snake_distance < UNREACHED && (nq[k].p == head && nq[k].snake_distance == 0 ==> nq[k].snake == 0) by {
            if k < rest.len() {
                assert(nq[k] == q[k + 1]);
            } else {
                assert(nq[k] == ps[k - rest.len()]);
            }
        }
        assert forall|k: int| 0 <= k < rest.len() implies 0 <= (#[trigger] rest[k]).p.x < wu && 0 <= rest[k].p.y < hu
            && rest[k].snake_distance < UNREACHED && (rest[k].p == head && rest[k].snake_distance == 0 ==> rest[k].snake
            == 0) by {
            assert(rest[k] == q[k + 1]);
        }
    }
}

proof fn lemma_head_kept_iter(g: GameModel, wu: int, hu: int, max_distance: u16, warp: bool, st: FloodState, head: Point, k: nat)
    requires
        0 <= wu <= MAX_WIDTH,
        0 <= hu <= MAX_HEIGHT,
        0 <= head.x < wu,
        0 <= head.y < hu,
        head_kept(st, wu, hu, head),
    ensures
        head_kept(fl_iter(g, wu, hu, max_distance, warp, st, k), wu, hu, head),
    decreases k,
{
    if k > 0 {
        lemma_head_kept_iter(g, wu, hu, max_distance, warp, st, head, (k - 1) as nat);
        lemma_head_kept_step(g, wu, hu, max_distance, warp, fl_iter(g, wu, hu, max_distance, warp, st, (k - 1) as nat), head);
    }
}

proof fn lemma_flood_start_head(
    g: GameModel,
    wu: int,
    hu: int,
    offset: u8,
    you_forever: bool,
    warp: bool,
    max_distance: u16,
    diagonal_zero: bool,
    tiles0: Seq<TileInfo>,
    t0: Seq<TileInfo>,
)
    requires
        flood_ok(g, wu, hu),
        offset >= 1,
        head_alone(g),
        tiles0 == fl_start(g, wu, hu, offset, you_forever, diagonal_zero).0,
        t0.len() == wu * hu,
        tiles0.len() == t0.len(),
        forall|j: int| 0 <= j < t0.len() ==> same_but_blocked(#[trigger] tiles0[j], t0[j]),
        forall|j: int| 0 <= j < t0.len() ==> (#[trigger] t0[j]).snake == NO_SNAKE && t0[j].snake_distance == UNREACHED,
        fl_final(g, wu, hu, max_distance, warp, fl_start(g, wu, hu, offset, you_forever, diagonal_zero)).1.len() == 0,
    ensures
        isum(flood_result(g, wu, hu, offset, you_forever, warp, max_distance, diagonal_zero).0, f_owned(0)) >= 1,
{
    let h0 = g.you.head.x + g.you.head.y * wu;
    assert(snake_floodable(g, g.you, wu, hu));
    lemma_head_index(g.you.head, g.you.head, wu, hu);
    assert(same_but_blocked(tiles0[h0], t0[h0]));
    lemma_flood_keeps_head(g, wu, hu, offset, you_forever, warp, max_distance, diagonal_zero);
}

/// Tiles that nobody holds count for no snake.
proof fn lemma_no_owner_counts(b: Seq<TileInfo>, m: BoardModel, w: int)
    requires
        forall|j: int| 0 <= j < b.len() ==> (#[trigger] b[j]).snake == NO_SNAKE,
    ensures
        forall|s: int|
            0 <= s < MAX_SNAKES ==> #[trigger] isum(b, f_owned(s)) == 0 && isum(b, f_food(m, w, s)) == 0 && isum(
                b,
                f_haz(m, w, s),
            ) == 0,
{
    assert forall|s: int| 0 <= s < MAX_SNAKES implies #[trigger] isum(b, f_owned(s)) == 0 && isum(b, f_food(m, w, s)) == 0
        && isum(b, f_haz(m, w, s)) == 0 by {
        assert forall|j: int| 0 <= j < b.len() implies #[trigger] f_owned(s)(j, b[j]) == 0 by {}
        assert forall|j: int| 0 <= j < b.len() implies #[trigger] f_food(m, w, s)(j, b[j]) == 0 by {}
        assert forall|j: int| 0 <= j < b.len() implies #[trigger] f_haz(m, w, s)(j, b[j]) == 0 by {}
        lemma_isum_zero(b, f_owned(s));
        lemma_isum_zero(b, f_food(m, w, s));
        lemma_isum_zero(b, f_haz(m, w, s));
    }
}

/// Once the flood has run out of steps, our snake holds at least its head's tile when no
/// opponent's head shares it.
proof fn lemma_flood_keeps_head(
    g: GameModel,
    wu: int,
    hu: int,
    offset: u8,
    you_forever: bool,
    warp: bool,
    max_distance: u16,
    diagonal_zero: bool,
)
    requires
        flood_ok(g, wu, hu),
        offset >= 1,
        head_alone(g),
        fl_start(g, wu, hu, offset, you_forever, diagonal_zero).0.len() == wu * hu,
        fl_start(g, wu, hu, offset, you_forever, diagonal_zero).0[g.you.head.x + g.you.head.y * wu].snake == NO_SNAKE,
        fl_start(g, wu, hu, offset, you_forever, diagonal_zero).0[g.you.head.x + g.you.head.y * wu].snake_distance
            == UNREACHED,
        flood_result(g, wu, hu, offset, you_forever, warp, max_distance, diagonal_zero).1.len() == 0,
    ensures
        isum(flood_result(g, wu, hu, offset, you_forever, warp, max_distance, diagonal_zero).0, f_owned(0)) >= 1,
{
    let st0 = fl_start(g, wu, hu, offset, you_forever, diagonal_zero);
    let head = g.you.head;
    let q = st0.1;
    assert(snake_floodable(g, g.you, wu, hu));
    assert forall|k: int| 0 <= k < q.len() implies 0 <= (#[trigger] q[k]).p.x < wu && 0 <= q[k].p.y < hu
        && q[k].snake_distance < UNREACHED && (q[k].p == head && q[k].snake_distance == 0 ==> q[k].snake == 0) by {
        if k > 0 {
            assert(snake_floodable(g, g.others[k - 1], wu, hu));
            assert(q[k].p == g.others[k - 1].head);
            assert(g.others[k - 1].head != head);
        }
    }
    assert(head_kept(st0, wu, hu, head));
    let kk = choose|k: nat| fl_iter(g, wu, hu, max_distance, warp, st0, k).1.len() == 0;
    lemma_head_kept_iter(g, wu, hu, max_distance, warp, st0, head, kk);
    let b = flood_result(g, wu, hu, offset, you_forever, warp, max_distance, diagonal_zero).0;
    let h0 = head.x + head.y * wu;
    lemma_head_index(head, head, wu, hu);
    assert(b[h0].snake == 0);
    assert forall|j: int, t: TileInfo| 0 <= #[trigger] f_owned(0)(j, t) by {}
    lemma_owned_positive(b, h0, f_owned(0));
}

fn spread(
    game: &Game,
    tiles: &mut Vec<TileInfo>,
    tally: &mut Tally,
    queue: VecDeque<Work>,
    wu: usize,
    hu: usize,
    n: usize,
    max_distance: u16,
    warp: bool,
    Ghost(diagonal_zero): Ghost<bool>,
)
    requires
        area_ok(game@, wu as int, hu as int, n as int),
        state_ok(game@, old(tiles)@, *old(tally), queue@, wu as int, hu as int, n as int, diagonal_zero),
        warp ==> warp_size_ok(wu as isize, hu as isize),
    ensures
        state_ok(game@, final(tiles)@, *final(tally), Seq::<Work>::empty(), wu as int, hu as int, n as int, diagonal_zero),
        no_farther(final(tiles)@, old(tiles)@),
        forall|k: int| 0 <= k < queue@.len() ==> reached(final(tiles)@, #[trigger] queue@[k], wu as int),
        (final(tiles)@, Seq::<Work>::empty(), final(tally).collision@, final(tally).food_distance@, final(tally).food_at_min@)
            == fl_final(
            game@,
            wu as int,
            hu as int,
            max_distance,
            warp,
            (old(tiles)@, queue@, old(tally).collision@, old(tally).food_distance@, old(tally).food_at_min@),
        ),
{
    let ghost start = queue@;
    let ghost st0: FloodState = (tiles@, queue@, tally.collision@, tally.food_distance@, tally.food_at_min@);
    let ghost mut steps: nat = 0;
    let mut queue = queue;
    proof {
        lemma_weight_nonneg(tiles@);
    }
    loop
        invariant
            no_farther(tiles@, old(tiles)@),
            forall|k: int| 0 <= k < start.len() ==> reached(tiles@, #[trigger] start[k], wu as int) || queue@.contains(start[k]),
            forall|k: int| 0 <= k < start.len() ==> 0 <= (#[trigger] start[k]).p.x < wu && 0 <= start[k].p.y < hu,
            (tiles@, queue@, tally.collision@, tally.food_distance@, tally.food_at_min@) == fl_iter(
                game@,
                wu as int,
                hu as int,
                max_distance,
                warp,
                st0,
                steps,
            ),
            area_ok(game@, wu as int, hu as int, n as int),
            state_ok(game@, tiles@, *tally, queue@, wu as int, hu as int, n as int, diagonal_zero),
            warp ==> warp_size_ok(wu as isize, hu as isize),
            isum(tiles@, f_weight()) >= 0,
        ensures
            queue@.len() == 0,
        decreases 5 * isum(tiles@, f_weight()) + queue@.len(),
    {
        let ghost q0 = queue@;
        let work = match queue.pop_front() {
            Some(work) => work,
            None => break,
        };
        proof {
            assert(work == q0[0]);
            assert(queue@ =~= q0.subrange(1, q0.len() as int));
            assert(work_ok(q0[0], n as int, wu as int, hu as int, tiles@, game@));
            assert forall|k: int| 0 <= k < queue@.len() implies work_ok(#[trigger] queue@[k], n as int, wu as int, hu as int, tiles@, game@) by {
                assert(queue@[k] == q0[k + 1]);
            }
            assert(work.p.y * wu + work.p.x < wu * hu) by (nonlinear_arith)
                requires
                    0 <= work.p.x < wu,
                    0 <= work.p.y < hu,
            ;
            assert(wu * hu <= 625) by (nonlinear_arith)
                requires
                    wu <= 25,
                    hu <= 25,
            ;
            lemma_pos(work.p.x as int, work.p.y as int, wu as int);
        }
        let idx = work.p.x as usize + work.p.y as usize * wu;
        let cur = tiles[idx];
        let ghost b0 = tiles@;
        let ghost q1 = queue@;
        let ghost before: FloodState = (b0, q0, tally.collision@, tally.food_distance@, tally.food_at_min@);
        if cur.snake != NO_SNAKE && cur.snake != work.snake && cur.snake_distance == work.snake_distance
            && cur.snake_length == work.snake_length {
            draw_step(game, tiles, tally, &queue, work, idx, wu, hu, n, Ghost(diagonal_zero));
        } else if cur.snake_distance > work.snake_distance || (cur.snake_distance == work.snake_distance
            && cur.snake_length < work.snake_length) {
            claim_step(game, tiles, tally, &mut queue, work, idx, wu, hu, n, max_distance, warp, Ghost(diagonal_zero));
        }
        proof {
            lemma_weight_nonneg(tiles@);
            assert(idx == work.p.x + work.p.y * wu);
            assert((tiles@, queue@, tally.collision@, tally.food_distance@, tally.food_at_min@) == fl_step(
                game@,
                wu as int,
                hu as int,
                max_distance,
                warp,
                before,
            ));
            assert(no_farther(tiles@, b0));
            assert(reached(tiles@, work, wu as int));
            assert forall|k: int| 0 <= k < start.len() implies reached(tiles@, #[trigger] start[k], wu as int)
                || queue@.contains(start[k]) by {
                if reached(b0, start[k], wu as int) {
                    let x = start[k].p.x + start[k].p.y * wu;
                    lemma_area_tile(start[k].p, wu as int, hu as int);
                    assert(area_tile(start[k].p, wu as int, hu as int) == x);
                    assert(tiles@[x].snake_distance <= b0[x].snake_distance);
                } else if start[k] != work {
                    let i = choose|i: int| 0 <= i < q0.len() && q0[i] == start[k];
                    assert(i != 0);
                    assert(q1[i - 1] == start[k]);
                    assert(queue@.subrange(0, q1.len() as int)[i - 1] == start[k]);
                    assert(queue@[i - 1] == start[k]);
                }
            }
            steps = steps + 1;
        }
    }
    proof {
        assert forall|k: int| 0 <= k < start.len() implies reached(tiles@, #[trigger] start[k], wu as int) by {
            assert(!queue@.contains(start[k]));
        }
        let k = choose|k: nat| fl_iter(game@, wu as int, hu as int, max_distance, warp, st0, k).1.len() == 0;
        assert(fl_iter(game@, wu as int, hu as int, max_distance, warp, st0, steps).1.len() == 0);
        if k <= steps {
            lemma_fl_done(game@, wu as int, hu as int, max_distance, warp, st0, k, steps);
        } else {
            lemma_fl_done(game@, wu as int, hu as int, max_distance, warp, st0, steps, k);
        }
        assert(queue@ =~= Seq::<Work>::empty());
    }
}

/// The first step of every snake: ours numbered 0, the opponents from `offset` on.
fn start_queue(game: &Game, wu: usize, hu: usize, n: usize, offset: u8, Ghost(b): Ghost<Seq<TileInfo>>) -> (queue: VecDeque<Work>)
    requires
        flood_ok(game@, wu as int, hu as int),
        1 <= n <= MAX_SNAKES,
        game@.others.len() + offset <= n,
    ensures
        queue_ok(queue@, n as int, wu as int, hu as int, b, game@),
        queue@ == fl_heads(game@, offset),
{
    let mut queue: VecDeque<Work> = VecDeque::new();
    let you_length: u16 = if game.you.length < 65535 {
        game.you.length as u16
    } else {
        65535
    };
    proof {
        assert forall|j: int, t: TileInfo| 0 <= #[trigger] f_closer(0)(j, t) by {}
        lemma_isum_bounds_nonneg(b, f_closer(0));
    }
    queue.push_back(Work { snake_length: you_length, snake_distance: 0, p: game.you.head, snake: 0, health: game.you.health });
    proof {
        assert(game@.you == game.you@);
        assert(queue@ =~= fl_heads(game@, offset).subrange(0, 1));
    }
    let mut i: usize = 0;
    while i < game.others.len()
        invariant
            i <= game.others@.len(),
            flood_ok(game@, wu as int, hu as int),
            1 <= n <= MAX_SNAKES,
            game@.others.len() + offset <= n,
            isum(b, f_closer(0)) >= 0,
            queue_ok(queue@, n as int, wu as int, hu as int, b, game@),
            queue@ == fl_heads(game@, offset).subrange(0, i + 1),
        decreases game.others@.len() - i,
    {
        let snake = &game.others[i];
        proof {
            assert(game@.others[i as int] == snake@);
            assert(snake_floodable(game@, game@.others[i as int], wu as int, hu as int));
        }
        let length: u16 = if snake.length < 65535 {
            snake.length as u16
        } else {
            65535
        };
        let ghost q0 = queue@;
        let work = Work { snake_length: length, snake_distance: 0, p: snake.head, snake: offset + i as u8, health: snake.health };
        queue.push_back(work);
        proof {
            assert forall|k: int| 0 <= k < queue@.len() implies work_ok(#[trigger] queue@[k], n as int, wu as int, hu as int, b, game@) by {
                if k < q0.len() {
                    assert(queue@[k] == q0[k]);
                }
            }
            assert(queue@ =~= fl_heads(game@, offset).subrange(0, i + 2));
        }
        i += 1;
    }
    proof {
        assert(queue@ =~= fl_heads(game@, offset));
    }
    queue
}

/// The scores the tally holds, one per possible snake.
fn scores_from(t: &Tally) -> (res: Vec<SnakeScore>)
    requires
        tally_shape(*t),
        t.collision@.len() == MAX_SNAKES * MAX_SNAKES,
    ensures
        res@.len() == MAX_SNAKES,
        forall|s: int| 0 <= s < MAX_SNAKES ==> {
            &&& (#[trigger] res@[s]).tile_count == t.tiles@[s]
            &&& res@[s].food_count == t.food@[s]
            &&& res@[s].hazard_count == t.hazards@[s]
            &&& res@[s].food_distance == t.food_distance@[s]
            &&& res@[s].food_at_min_distance == t.food_at_min@[s]
        },
        forall|s: int, b: int| 0 <= s < MAX_SNAKES && 0 <= b < MAX_SNAKES ==> #[trigger] res@[s].distance_to_collision@[b] == collision_at(t.collision@, s, b),
{
    let mut res: Vec<SnakeScore> = Vec::new();
    let mut s: usize = 0;
    while s < MAX_SNAKES
        invariant
            s <= MAX_SNAKES,
            res@.len() == s,
            tally_shape(*t),
            t.collision@.len() == MAX_SNAKES * MAX_SNAKES,
            forall|r: int| 0 <= r < s ==> {
                &&& (#[trigger] res@[r]).tile_count == t.tiles@[r]
                &&& res@[r].food_count == t.food@[r]
                &&& res@[r].hazard_count == t.hazards@[r]
                &&& res@[r].food_distance == t.food_distance@[r]
                &&& res@[r].food_at_min_distance == t.food_at_min@[r]
            },
            forall|r: int, b: int| 0 <= r < s && 0 <= b < MAX_SNAKES ==> #[trigger] res@[r].distance_to_collision@[b] == collision_at(t.collision@, r, b),
        decreases MAX_SNAKES - s,
    {
        let c = &t.collision;
        let base = s * MAX_SNAKES;
        let row: [u16; MAX_SNAKES] = [
            c[base],
            c[base + 1],
            c[base + 2],
            c[base + 3],
            c[base + 4],
            c[base + 5],
            c[base + 6],
            c[base + 7],
            c[base + 8],
            c[base + 9],
            c[base + 10],
            c[base + 11],
        ];
        proof {
            assert forall|b: int| 0 <= b < MAX_SNAKES implies #[trigger] row@[b] == collision_at(c@, s as int, b) by {
                assert(row@ =~= seq![c@[base as int], c@[base + 1], c@[base + 2], c@[base + 3], c@[base + 4], c@[base + 5],
                    c@[base + 6], c@[base + 7], c@[base + 8], c@[base + 9], c@[base + 10], c@[base + 11]]);
            }
        }
        let score = SnakeScore {
            food_count: t.food[s],
            tile_count: t.tiles[s],
            hazard_count: t.hazards[s],
            food_distance: t.food_distance[s],
            food_at_min_distance: t.food_at_min[s],
            distance_to_collision: row,
        };
        let ghost r0 = res@;
        res.push(score);
        proof {
            assert forall|r: int| 0 <= r < s implies #[trigger] res@[r] == r0[r] by {}
            assert forall|r: int, b: int| 0 <= r < s + 1 && 0 <= b < MAX_SNAKES implies #[trigger] res@[r].distance_to_collision@[b]
                == collision_at(t.collision@, r, b) by {
                if r < s {
                    assert(res@[r] == r0[r]);
                    assert(r0[r].distance_to_collision@[b] == collision_at(t.collision@, r, b));
                } else {
                    assert(res@[r] == score);
                    assert(score.distance_to_collision@[b] == row@[b]);
                    assert(row@[b] == collision_at(c@, s as int, b));
                }
            }
        }
        s += 1;
    }
    res
}


/// What every flood fill result satisfies, for the first `k` scores of a flood of `n`
/// snakes over an area of `area` tiles: no snake holds more food than tiles, nor more
/// hazards than three per tile; a nearest food distance comes with at least one food; the
/// snakes beyond the `n` flooded hold nothing; all tiles held add up to at most the area;
/// and any two snakes' areas meet at the same distance either way (a snake's own at 0 when
/// `diagonal_zero`).
pub open spec fn scores_sound(res: Seq<SnakeScore>, k: int, n: int, area: int, diagonal_zero: bool) -> bool {
    &&& forall|s: int| 0 <= s < k ==> (#[trigger] res[s]).food_count <= res[s].tile_count
    &&& forall|s: int| 0 <= s < k ==> (#[trigger] res[s]).hazard_count <= 3 * res[s].tile_count
    &&& forall|s: int| 0 <= s < k ==> (#[trigger] res[s]).food_distance == u16::MAX || res[s].food_at_min_distance >= 1
    &&& forall|s: int|
        n <= s < k ==> {
            &&& (#[trigger] res[s]).tile_count == 0
            &&& res[s].food_count == 0
            &&& res[s].hazard_count == 0
            &&& res[s].food_distance == u16::MAX
        }
    &&& tile_total(res, k) <= area
    &&& forall|a: int, b: int|
        0 <= a < k && 0 <= b < k ==> #[trigger] res[a].distance_to_collision@[b] == res[b].distance_to_collision@[a]
    &&& diagonal_zero ==> forall|a: int| 0 <= a < k ==> #[trigger] res[a].distance_to_collision@[a] == 0
}

proof fn lemma_tile_total_prefix(res: Seq<SnakeScore>, k: int)
    requires
        0 <= k <= res.len(),
    ensures
        tile_total(res, k) <= tile_total(res, res.len() as int),
    decreases res.len() - k,
{
    if k < res.len() {
        lemma_tile_total_prefix(res, k + 1);
    }
}

/// The flood fill of a `wu` by `hu` area: our snake is number 0, the opponents are numbered
/// from `offset` on, and `n` bounds the numbers.
#[verifier::spinoff_prover]
#[verifier::rlimit(30)]
fn flood(
    game: &Game,
    wu: usize,
    hu: usize,
    n: usize,
    offset: u8,
    you_forever: bool,
    warp: bool,
    max_distance: u16,
    diagonal_zero: bool,
) -> (res: Vec<SnakeScore>)
    requires
        area_ok(game@, wu as int, hu as int, n as int),
        game@.others.len() + offset <= n,
        warp ==> warp_size_ok(wu as isize, hu as isize),
    ensures
        res@.len() == MAX_SNAKES,
        scores_sound(res@, MAX_SNAKES as int, n as int, wu * hu, diagonal_zero),
        scores_of(
            res@,
            MAX_SNAKES as int,
            flood_result(game@, wu as int, hu as int, offset, you_forever, warp, max_distance, diagonal_zero),
            game@,
            wu as int,
        ),
        offset >= 1 && head_alone(game@) ==> res@[0].tile_count >= 1,
{
    let mut tiles = hazard_tiles(game, wu, hu);
    let ghost t0 = tiles@;
    proof {
        assert(game@.you == game.you@);
    }
    mark_body(&mut tiles, &game.you.body, game.you.length, wu, hu, you_forever);
    proof {
        let g = game@;
        let c = choose|t: Seq<TileInfo>|
            marked(t, fl_hazard_tiles(g, wu as int, hu as int), g.you.body, g.you.body.len() as int, g.you.length, wu as int, hu as int, you_forever);
        lemma_marked_unique(tiles@, c, t0, g.you.body, g.you.body.len() as int, g.you.length, wu as int, hu as int, you_forever);
        assert(tiles@ == fl_marked(g, wu as int, hu as int, you_forever, 0));
    }
    let mut i: usize = 0;
    while i < game.others.len()
        invariant
            i <= game.others@.len(),
            area_ok(game@, wu as int, hu as int, n as int),
            tiles@.len() == t0.len(),
            t0.len() == wu * hu,
            forall|j: int| 0 <= j < t0.len() ==> same_but_blocked(#[trigger] tiles@[j], t0[j]),
            tiles@ == fl_marked(game@, wu as int, hu as int, you_forever, i as int),
        decreases game.others@.len() - i,
    {
        let snake = &game.others[i];
        proof {
            assert(game@.others[i as int] == snake@);
            assert(snake_floodable(game@, game@.others[i as int], wu as int, hu as int));
        }
        let ghost t1 = tiles@;
        mark_body(&mut tiles, &snake.body, snake.length, wu, hu, false);
        proof {
            let g = game@;
            let sm = g.others[i as int];
            let c = choose|t: Seq<TileInfo>| marked(t, t1, sm.body, sm.body.len() as int, sm.length, wu as int, hu as int, false);
            lemma_marked_unique(tiles@, c, t1, sm.body, sm.body.len() as int, sm.length, wu as int, hu as int, false);
            assert(tiles@ == fl_marked(g, wu as int, hu as int, you_forever, i + 1));
            assert forall|j: int| 0 <= j < t0.len() implies same_but_blocked(#[trigger] tiles@[j], t0[j]) by {
                assert(same_but_blocked(t1[j], t0[j]));
            }
        }
        i += 1;
    }
    let mut tally = new_tally(diagonal_zero);
    proof {
        let m = game@.board;
        let w = wu as int;
        assert forall|j: int| 0 <= j < tiles@.len() implies tile_ok(#[trigger] tiles@[j], j, n as int, w, game@) by {
            assert(same_but_blocked(tiles@[j], t0[j]));
        }
        assert forall|j: int| 0 <= j < tiles@.len() implies (#[trigger] tiles@[j]).snake == NO_SNAKE by {
            assert(same_but_blocked(tiles@[j], t0[j]));
        }
        lemma_no_owner_counts(tiles@, m, w);
        assert forall|s: int| 0 <= s < MAX_SNAKES implies {
            &&& #[trigger] tally.tiles@[s] == isum(tiles@, f_owned(s))
            &&& tally.food@[s] == isum(tiles@, f_food(m, w, s))
            &&& tally.hazards@[s] == isum(tiles@, f_haz(m, w, s))
        } by {}
    }
    let queue = start_queue(game, wu, hu, n, offset, Ghost(tiles@));
    proof {
        assert forall|s: int| n <= s < MAX_SNAKES implies #[trigger] tally.food_distance@[s] == UNREACHED by {
            assert(tally.tiles@[s] == 0);
        }
        assert(counts_ok(tally, tiles@, game@, wu as int));
        assert(tiles_ok(tiles@, n as int, wu as int, game@));
    }
    proof {
        assert((tiles@, queue@, tally.collision@, tally.food_distance@, tally.food_at_min@) == fl_start(
            game@,
            wu as int,
            hu as int,
            offset,
            you_forever,
            diagonal_zero,
        ));
    }
    let ghost tiles0 = tiles@;
    spread(game, &mut tiles, &mut tally, queue, wu, hu, n, max_distance, warp, Ghost(diagonal_zero));
    let res = scores_from(&tally);
    proof {
        if offset >= 1 && head_alone(game@) {
            lemma_flood_start_head(game@, wu as int, hu as int, offset, you_forever, warp, max_distance, diagonal_zero, tiles0, t0);
        }
    }
    proof {
        let st = flood_result(game@, wu as int, hu as int, offset, you_forever, warp, max_distance, diagonal_zero);
        assert(st.0 == tiles@ && st.2 == tally.collision@ && st.3 == tally.food_distance@ && st.4 == tally.food_at_min@);
        assert forall|s: int| 0 <= s < MAX_SNAKES implies {
            &&& #[trigger] tally.tiles@[s] == isum(tiles@, f_owned(s))
            &&& tally.food@[s] == isum(tiles@, f_food(game@.board, wu as int, s))
            &&& tally.hazards@[s] == isum(tiles@, f_haz(game@.board, wu as int, s))
        } by {}
    }
    proof {
        let b = tiles@;
        let m = game@.board;
        let w = wu as int;
        let k = MAX_SNAKES as int;
        game.board.lemma_model();
        assert forall|s: int| 0 <= s < k implies (#[trigger] res@[s]).food_count <= res@[s].tile_count
            && res@[s].hazard_count <= 3 * res@[s].tile_count by {
            assert(tally.tiles@[s] == isum(b, f_owned(s)));
            assert forall|j: int, t: TileInfo| #[trigger] f_food(m, w, s)(j, t) <= #[trigger] f_owned(s)(j, t) by {}
            lemma_isum_le(b, f_food(m, w, s), f_owned(s));
            assert forall|j: int, t: TileInfo| #[trigger] f_haz(m, w, s)(j, t) <= #[trigger] f_three_owned(s)(j, t) by {
                assert(spec_hazard_count(m.tile(pos(j, w))) <= 3);
            }
            lemma_isum_le(b, f_haz(m, w, s), f_three_owned(s));
            lemma_isum_three(b, s);
        }
        assert forall|s: int| 0 <= s < k implies (#[trigger] res@[s]).food_distance == u16::MAX
            || res@[s].food_at_min_distance >= 1 by {
            assert(tally.food_distance@[s] == UNREACHED || tally.food_at_min@[s] >= 1);
        }
        assert forall|s: int| n <= s < k implies {
            &&& (#[trigger] res@[s]).tile_count == 0
            &&& res@[s].food_count == 0
            &&& res@[s].hazard_count == 0
            &&& res@[s].food_distance == u16::MAX
        } by {
            assert(tally.tiles@[s] == isum(b, f_owned(s)));
            assert(tally.food_distance@[s] == UNREACHED);
            assert forall|j: int| 0 <= j < b.len() implies #[trigger] f_owned(s)(j, b[j]) == 0 by {
                assert(tile_ok(b[j], j, n as int, w, game@));
            }
            assert forall|j: int| 0 <= j < b.len() implies #[trigger] f_food(m, w, s)(j, b[j]) == 0 by {
                assert(tile_ok(b[j], j, n as int, w, game@));
            }
            assert forall|j: int| 0 <= j < b.len() implies #[trigger] f_haz(m, w, s)(j, b[j]) == 0 by {
                assert(tile_ok(b[j], j, n as int, w, game@));
            }
            lemma_isum_zero(b, f_owned(s));
            lemma_isum_zero(b, f_food(m, w, s));
            lemma_isum_zero(b, f_haz(m, w, s));
        }
        assert forall|s: int| 0 <= s < k implies (#[trigger] res@[s]).tile_count == isum(b, f_owned(s)) by {
            assert(tally.tiles@[s] == isum(b, f_owned(s)));
        }
        lemma_tile_total(res@, b, k);
        lemma_total_owned(b, k);
        assert forall|j: int, t: TileInfo| 0 <= #[trigger] f_owned_below(k)(j, t) <= 1 by {}
        lemma_isum_bounds(b, f_owned_below(k), 1);
        assert forall|a: int, c: int| 0 <= a < k && 0 <= c < k implies #[trigger] res@[a].distance_to_collision@[c]
            == res@[c].distance_to_collision@[a] by {
            assert(collision_at(tally.collision@, a, c) == collision_at(tally.collision@, c, a));
        }
        if diagonal_zero {
            assert forall|a: int| 0 <= a < k implies #[trigger] res@[a].distance_to_collision@[a] == 0 by {
                assert(collision_at(tally.collision@, a, a) == 0);
            }
        }
    }
    res
}

/// The flood fill of the game's board: every snake spreads out at once, one tile per turn,
/// as far as its health, the hazards, the bodies in its way and `max_distance` let it; a
/// tile goes to the snake that reaches it first (the longer one when two arrive together,
/// neither when they are as long). In a constrictor game our own body never leaves the
/// board. Our snake is number 0 and the opponent `game.others[i]` number `i + 1`. Our
/// snake holds at least its head's tile when no opponent's head shares it.
pub fn floodfill(game: &Game, max_distance: u16) -> (res: Vec<SnakeScore>)
    requires
        floodfill_ok(game@),
    ensures
        res@.len() == MAX_SNAKES,
        scores_sound(res@, MAX_SNAKES as int, game@.others.len() + 1int, game@.board.width * game@.board.height, true),
        scores_of(
            res@,
            MAX_SNAKES as int,
            flood_result(
                game@,
                game@.board.width,
                game@.board.height,
                1,
                game@.rules.game_mode == GameMode::Constrictor,
                game@.rules.game_mode == GameMode::Wrapped,
                max_distance,
                true,
            ),
            game@,
            game@.board.width,
        ),
        head_alone(game@) ==> res@[0].tile_count >= 1,
{
    let constrictor = game.rules.game_mode == GameMode::Constrictor;
    let warp = game.rules.game_mode == GameMode::Wrapped;
    let wu = game.board.width() as usize;
    let hu = game.board.height() as usize;
    let n = game.others.len() + 1;
    proof {
        let w = wu as isize;
        let h = hu as isize;
        assert(0 <= w <= 25 ==> (w as i8) == w) by (bit_vector);
        assert(0 <= h <= 25 ==> (h as i8) == h) by (bit_vector);
    }
    flood(game, wu, hu, n, 1, constrictor, warp, max_distance, true)
}

/// The flood fill of a `width` by `height` area at the bottom left of the board, with
/// `snake_count` scores: as `floodfill`, but our body leaves the board in every game mode
/// and a snake's meeting with itself does not start at 0. The opponent `game.others[i]`
/// is number `i + 1`, as `winter_score` reads it.
#[verifier::spinoff_prover]
pub fn winter_floodfill(game: &Game, width: usize, height: usize, snake_count: usize, max_distance: u16) -> (res: Vec<SnakeScore>)
    requires
        flood_ok(game@, width as int, height as int),
        0 <= game@.board.width <= 127,
        0 <= game@.board.height <= 127,
        1 <= snake_count <= MAX_SNAKES,
        game@.others.len() + 1 <= snake_count,
    ensures
        res@.len() == snake_count,
        scores_sound(res@, snake_count as int, game@.others.len() + 1int, width * height, false),
        scores_of(
            res@,
            snake_count as int,
            flood_result(game@, width as int, height as int, 1, false, game@.rules.game_mode == GameMode::Wrapped, max_distance, false),
            game@,
            width as int,
        ),
        head_alone(game@) ==> res@[0].tile_count >= 1,
{
    let warp = game.rules.game_mode == GameMode::Wrapped;
    let n = game.others.len() + 1;
    proof {
        let w = width as isize;
        let h = height as isize;
        assert(0 <= w <= 25 ==> (w as i8) == w) by (bit_vector);
        assert(0 <= h <= 25 ==> (h as i8) == h) by (bit_vector);
    }
    let all = flood(game, width, height, n, 1, false, warp, max_distance, false);
    let mut res: Vec<SnakeScore> = Vec::new();
    let mut s: usize = 0;
    while s < snake_count
        invariant
            s <= snake_count,
            snake_count <= MAX_SNAKES,
            all@.len() == MAX_SNAKES,
            res@ == all@.take(s as int),
        decreases snake_count - s,
    {
        res.push(all[s]);
        proof {
            assert(all@.take(s + 1) == all@.take(s as int).push(all@[s as int]));
        }
        s += 1;
    }
    proof {
        lemma_tile_total_prefix(all@, snake_count as int);
        assert forall|k: int| 0 <= k <= snake_count implies tile_total(res@, k) == #[trigger] tile_total(all@, k) by {
            lemma_tile_total_take(all@, snake_count as int, k);
        }
        assert(tile_total(res@, snake_count as int) == tile_total(all@, snake_count as int));
        assert(res@[0] == all@[0]);
    }
    res
}

proof fn lemma_tile_total_take(res: Seq<SnakeScore>, c: int, k: int)
    requires
        0 <= k <= c <= res.len(),
    ensures
        tile_total(res.take(c), k) == tile_total(res, k),
    decreases k,
{
    if k > 0 {
        lemma_tile_total_take(res, c, k - 1);
    }
}


/// The integer weights of the flood fill scorer. The food score of a hungry snake is also
/// multiplied by a factor, a float, which is the caller's to apply.
#[derive(Clone, Copy, Debug)]
pub struct Weights {
    pub points_per_food: i32,
    pub points_per_tile: i32,
    pub points_per_hazard: i32,
    pub points_per_length_rank: i32,
    pub points_per_health: i32,
    pub points_per_distance_to_food: i32,
    pub food_distance_cap: u16,
    pub points_per_kill: i32,
    pub points_per_turn_survived: i32,
    pub points_per_distance_to_smaller_enemies: i32,
    pub enemy_distance_cap: u16,
    pub points_when_dead: i32,
    pub hungry_mode_max_health: i8,
    pub points_per_length_diff: i32,
    pub length_diff_cap: u8,
}

/// The length difference to another snake, held within the cap either way.
pub open spec fn capped_diff(d: int, cap: int) -> int {
    if d < -cap {
        -cap
    } else if d > cap {
        cap
    } else {
        d
    }
}

/// What the first `k` opponents add to the score: the capped length difference to each,
/// and for each shorter one the capped distance at which our areas meet.
pub open spec fn opponents_score(w: Weights, g: GameModel, f: Seq<SnakeScore>, k: int) -> int
    decreases k,
{
    if k <= 0 {
        0
    } else {
        let s = g.others[k - 1];
        let diff = w.points_per_length_diff * capped_diff(g.you.length - s.length, w.length_diff_cap as int);
        let near = if s.length >= g.you.length {
            0
        } else {
            let d = f[0].distance_to_collision@[k];
            let cap = (w.enemy_distance_cap as u8) as u16;
            w.points_per_distance_to_smaller_enemies * (if d < cap { d } else { cap }) as int
        };
        opponents_score(w, g, f, k - 1) + diff + near
    }
}

/// How many of the first `k` opponents are at least as long as our snake.
pub open spec fn length_rank(g: GameModel, k: int) -> int
    decreases k,
{
    if k <= 0 {
        0
    } else {
        length_rank(g, k - 1) + (if g.others[k - 1].length >= g.you.length { 1int } else { 0int })
    }
}

/// The score of a game under the weights, given its flood fill, in three parts: the score
/// without food, the food score, and whether our snake is hungry (its food score then gets
/// multiplied). A dead snake scores its kills and turns, less one of each, and the points
/// for being dead.
pub open spec fn weighted_score(w: Weights, g: GameModel, f: Seq<SnakeScore>) -> (int, int, bool) {
    let base = w.points_per_kill * g.dead_snakes + w.points_per_turn_survived * g.turn;
    if g.you.health <= 0 {
        (base - w.points_per_turn_survived - w.points_per_kill + w.points_when_dead, 0, false)
    } else {
        let me = f[0];
        let food_cap = (w.food_distance_cap as u8) as u16;
        (
            base + w.points_per_health * g.you.health + w.points_per_tile * me.tile_count + w.points_per_hazard
                * me.hazard_count + opponents_score(w, g, f, g.others.len() as int) + w.points_per_length_rank
                * length_rank(g, g.others.len() as int),
            w.points_per_food * me.food_count + w.points_per_distance_to_food * (if me.food_distance < food_cap {
                me.food_distance
            } else {
                food_cap
            }) as int,
            g.you.health < w.hungry_mode_max_health,
        )
    }
}

/// How many of the first `k` opponents our snake is within the cap of from below: those
/// whose length difference to ours (ours less theirs) is at least `-cap` and below `cap`.
pub open spec fn in_length_band(g: GameModel, cap: int, k: int) -> int
    decreases k,
{
    if k <= 0 {
        0
    } else {
        in_length_band(g, cap, k - 1) + (if -cap <= g.you.length - g.others[k - 1].length < cap { 1int } else { 0int })
    }
}

/// The game with our snake one longer.
pub open spec fn one_longer(g: GameModel) -> GameModel {
    GameModel { you: crate::logic::snake::SnakeModel { length: g.you.length + 1, ..g.you }, ..g }
}

proof fn lemma_one_longer_opponents(w: Weights, g: GameModel, f: Seq<SnakeScore>, k: int)
    requires
        w.points_per_distance_to_smaller_enemies == 0,
        0 <= k <= g.others.len(),
    ensures
        opponents_score(w, one_longer(g), f, k) - opponents_score(w, g, f, k) == w.points_per_length_diff * in_length_band(
            g,
            w.length_diff_cap as int,
            k,
        ),
    decreases k,
{
    if k > 0 {
        lemma_one_longer_opponents(w, g, f, k - 1);
        let g2 = one_longer(g);
        let cap = w.length_diff_cap as int;
        let s = g.others[k - 1];
        assert(g2.others[k - 1] == s);
        let d = g.you.length - s.length;
        let a = capped_diff(d + 1, cap);
        let b = capped_diff(d, cap);
        let p = w.points_per_length_diff as int;
        let inc: int = if -cap <= d < cap { 1 } else { 0 };
        assert(a - b == inc);
        assert(p * a - p * b == p * inc) by (nonlinear_arith)
            requires
                a - b == inc,
        ;
        let n1 = if s.length >= g2.you.length {
            0
        } else {
            let dd = f[0].distance_to_collision@[k];
            let c = (w.enemy_distance_cap as u8) as u16;
            w.points_per_distance_to_smaller_enemies * (if dd < c { dd } else { c }) as int
        };
        assert(n1 == 0);
        let pb = in_length_band(g, cap, k - 1);
        assert(p * (pb + inc) == p * pb + p * inc) by (nonlinear_arith);
    }
}

/// With only the length difference weighing a snake's length (no points for the distance
/// to smaller enemies or for the length rank), one more length for our live snake changes
/// its score by `points_per_length_diff` for each opponent it is within the cap of from
/// below, and nothing else: being longer never lowers the score when that weight is not
/// negative.
pub proof fn law_longer_snake_scores_by_length_diff(w: Weights, g: GameModel, f: Seq<SnakeScore>)
    requires
        w.points_per_distance_to_smaller_enemies == 0,
        w.points_per_length_rank == 0,
        g.you.health > 0,
    ensures
        weighted_score(w, one_longer(g), f).0 - weighted_score(w, g, f).0 == w.points_per_length_diff * in_length_band(
            g,
            w.length_diff_cap as int,
            g.others.len() as int,
        ),
        weighted_score(w, one_longer(g), f).1 == weighted_score(w, g, f).1,
        weighted_score(w, one_longer(g), f).2 == weighted_score(w, g, f).2,
        w.points_per_length_diff >= 0 ==> weighted_score(w, one_longer(g), f).0 >= weighted_score(w, g, f).0,
{
    lemma_one_longer_opponents(w, g, f, g.others.len() as int);
    lemma_band_nonneg(g, w.length_diff_cap as int, g.others.len() as int);
    let p = w.points_per_length_diff as int;
    let c = in_length_band(g, w.length_diff_cap as int, g.others.len() as int);
    assert(p >= 0 ==> p * c >= 0) by (nonlinear_arith)
        requires
            c >= 0,
    ;
    let g2 = one_longer(g);
    assert(w.points_per_length_rank * length_rank(g2, g2.others.len() as int) == 0);
    assert(w.points_per_length_rank * length_rank(g, g.others.len() as int) == 0);
}

proof fn lemma_band_nonneg(g: GameModel, cap: int, k: int)
    ensures
        in_length_band(g, cap, k) >= 0,
    decreases k,
{
    if k > 0 {
        lemma_band_nonneg(g, cap, k - 1);
    }
}

/// The game's numbers are small enough for the score to fit an `i64`.
pub open spec fn score_fits(g: GameModel) -> bool {
    &&& g.turn <= 0x4000_0000
    &&& g.dead_snakes <= 0x4000_0000
    &&& g.you.length <= 0x4000_0000
    &&& g.others.len() + 1 <= MAX_SNAKES
    &&& forall|i: int| 0 <= i < g.others.len() ==> (#[trigger] g.others[i]).length <= 0x4000_0000
}

proof fn lemma_mul_bound(a: int, b: int, ma: int, mb: int)
    requires
        -ma <= a <= ma,
        -mb <= b <= mb,
        ma >= 0,
        mb >= 0,
    ensures
        -(ma * mb) <= a * b <= ma * mb,
{
    assert(-(ma * mb) <= a * b <= ma * mb) by (nonlinear_arith)
        requires
            -ma <= a <= ma,
            -mb <= b <= mb,
            ma >= 0,
            mb >= 0,
    ;
}

/// The score of a game under the weights, given its flood fill.
pub fn score_from_flood(w: &Weights, game: &Game, flood: &Vec<SnakeScore>) -> (res: (i64, i64, bool))
    requires
        score_fits(game@),
        flood@.len() == MAX_SNAKES,
    ensures
        (res.0 as int, res.1 as int, res.2) == weighted_score(*w, game@, flood@),
{
    let ghost m31: int = 0x8000_0000;
    proof {
        lemma_mul_bound(w.points_per_kill as int, game.dead_snakes as int, m31, 0x4000_0000);
        lemma_mul_bound(w.points_per_turn_survived as int, game.turn as int, m31, 0x4000_0000);
    }
    let mut score: i64 = w.points_per_kill as i64 * game.dead_snakes as i64;
    score = score + w.points_per_turn_survived as i64 * game.turn as i64;
    if game.you.health <= 0 {
        score = score - (w.points_per_turn_survived as i64 + w.points_per_kill as i64);
        score = score + w.points_when_dead as i64;
        return (score, 0, false);
    }
    let me = flood[0];
    proof {
        lemma_mul_bound(w.points_per_health as int, game.you.health as int, m31, 128);
        lemma_mul_bound(w.points_per_tile as int, me.tile_count as int, m31, 0x10000);
        lemma_mul_bound(w.points_per_hazard as int, me.hazard_count as int, m31, 0x10000);
    }
    score = score + w.points_per_health as i64 * game.you.health as i64;
    score = score + w.points_per_tile as i64 * me.tile_count as i64;
    score = score + w.points_per_hazard as i64 * me.hazard_count as i64;
    let ghost start = score as int;
    let cap = w.length_diff_cap as i64;
    let enemy_cap = (w.enemy_distance_cap as u8) as u16;
    let mut rank: i64 = 0;
    let mut i: usize = 0;
    while i < game.others.len()
        invariant
            i <= game@.others.len(),
            score_fits(game@),
            flood@.len() == MAX_SNAKES,
            me == flood@[0],
            cap == w.length_diff_cap,
            enemy_cap == (w.enemy_distance_cap as u8) as u16,
            m31 == 0x8000_0000,
            score == start + opponents_score(*w, game@, flood@, i as int),
            -(0x1_0000_0000_0000 * i) <= opponents_score(*w, game@, flood@, i as int) <= 0x1_0000_0000_0000 * i,
            rank == length_rank(game@, i as int),
            0 <= rank <= i,
            -(0x4002_0000_0000_0000 as int) <= start <= 0x4002_0000_0000_0000,
        decreases game@.others.len() - i,
    {
        let s = &game.others[i];
        proof {
            assert(game@.others[i as int] == s@);
            assert(s@.length <= 0x4000_0000);
        }
        let d = game.you.length as i64 - s.length as i64;
        let clamped = if d < -cap {
            -cap
        } else if d > cap {
            cap
        } else {
            d
        };
        proof {
            lemma_mul_bound(w.points_per_length_diff as int, clamped as int, m31, 255);
        }
        let mut add = w.points_per_length_diff as i64 * clamped;
        if s.length >= game.you.length {
            rank = rank + 1;
        } else {
            let dist = me.distance_to_collision[i + 1];
            let capped = if dist < enemy_cap {
                dist
            } else {
                enemy_cap
            };
            proof {
                lemma_mul_bound(w.points_per_distance_to_smaller_enemies as int, capped as int, m31, 0x10000);
            }
            add = add + w.points_per_distance_to_smaller_enemies as i64 * capped as i64;
        }
        proof {
            assert(flood@[0].distance_to_collision@[i + 1] == me.distance_to_collision@[i + 1]);
        }
        score = score + add;
        i += 1;
    }
    proof {
        lemma_mul_bound(w.points_per_length_rank as int, rank as int, m31, 12);
    }
    score = score + w.points_per_length_rank as i64 * rank;
    let food_cap = (w.food_distance_cap as u8) as u16;
    let food_distance = if me.food_distance < food_cap {
        me.food_distance
    } else {
        food_cap
    };
    proof {
        lemma_mul_bound(w.points_per_food as int, me.food_count as int, m31, 0x10000);
        lemma_mul_bound(w.points_per_distance_to_food as int, food_distance as int, m31, 0x10000);
    }
    let food_score = w.points_per_food as i64 * me.food_count as i64 + w.points_per_distance_to_food as i64
        * food_distance as i64;
    (score, food_score, game.you.health < w.hungry_mode_max_health)
}

/// The score of a game under the weights, in the three parts of `weighted_score`, with
/// the flood fill made here up to `max_distance`.
pub fn score_parts(w: &Weights, game: &Game, max_distance: u16) -> (res: (i64, i64, bool))
    requires
        score_fits(game@),
        game@.you.health > 0 ==> floodfill_ok(game@),
    ensures
        game@.you.health <= 0 ==> (res.0 as int, res.1 as int, res.2) == weighted_score(*w, game@, Seq::empty()),
        game@.you.health > 0 ==> exists|flood: Seq<SnakeScore>|
            #![trigger weighted_score(*w, game@, flood)]
            flood.len() == MAX_SNAKES && scores_sound(
                flood,
                MAX_SNAKES as int,
                game@.others.len() + 1int,
                game@.board.width * game@.board.height,
                true,
            ) && scores_of(
                flood,
                MAX_SNAKES as int,
                flood_result(
                    game@,
                    game@.board.width,
                    game@.board.height,
                    1,
                    game@.rules.game_mode == GameMode::Constrictor,
                    game@.rules.game_mode == GameMode::Wrapped,
                    max_distance,
                    true,
                ),
                game@,
                game@.board.width,
            ) && (res.0 as int, res.1 as int, res.2) == weighted_score(*w, game@, flood),
{
    if game.you.health <= 0 {
        let empty: Vec<SnakeScore> = Vec::new();
        let ghost m31: int = 0x8000_0000;
        proof {
            lemma_mul_bound(w.points_per_kill as int, game.dead_snakes as int, m31, 0x4000_0000);
            lemma_mul_bound(w.points_per_turn_survived as int, game.turn as int, m31, 0x4000_0000);
        }
        let mut score: i64 = w.points_per_kill as i64 * game.dead_snakes as i64;
        score = score + w.points_per_turn_survived as i64 * game.turn as i64;
        score = score - (w.points_per_turn_survived as i64 + w.points_per_kill as i64);
        score = score + w.points_when_dead as i64;
        return (score, 0, false);
    }
    let flood = floodfill(game, max_distance);
    score_from_flood(w, game, &flood)
}

/// Snake `s` passes the flood test on a `w` by `h` board: its head on the board, its
/// health not below zero, its length at most 64000 and no shorter than its body, every
/// part of its body within 25 by 25.
pub open spec fn snake_fit(s: crate::logic::snake::SnakeModel, w: int, h: int) -> bool {
    &&& 0 <= s.head.x < w
    &&& 0 <= s.head.y < h
    &&& s.health >= 0
    &&& s.length <= 64000
    &&& s.body.len() <= s.length
    &&& forall|j: int| 0 <= j < s.body.len() ==> 0 <= (#[trigger] s.body[j]).x < 25 && 0 <= s.body[j].y < 25
}

/// The game passes the test of `score_parts_fit`: the turn, the kills and the lengths are at
/// most 2^30 and there are at most twelve snakes; for a living snake besides, the board is
/// at most 25 by 25, a hazard does 0 to 42 damage and every snake passes `snake_fit`.
pub open spec fn parts_fit(g: GameModel) -> bool {
    &&& g.turn <= 0x4000_0000
    &&& g.dead_snakes <= 0x4000_0000
    &&& g.you.length <= 0x4000_0000
    &&& g.others.len() < MAX_SNAKES
    &&& forall|i: int| 0 <= i < g.others.len() ==> (#[trigger] g.others[i]).length <= 0x4000_0000
    &&& g.you.health > 0 ==> {
        &&& g.board.width <= 25
        &&& g.board.height <= 25
        &&& 0 <= g.rules.hazard_damage_per_turn <= 42
        &&& snake_fit(g.you, g.board.width, g.board.height)
        &&& forall|i: int| 0 <= i < g.others.len() ==> snake_fit(#[trigger] g.others[i], g.board.width, g.board.height)
    }
}

/// A sufficient test that a snake can be flooded from on a `w` by `h` board: its head on
/// the board, its health not below zero, its length at most 64000 and no shorter than its
/// body, every part of its body within 25 by 25.
fn snake_fits(game: &Game, s: &crate::logic::Snake, w: isize, h: isize) -> (res: bool)
    requires
        0 <= w <= 25,
        0 <= h <= 25,
        forall|p: Point| #[trigger] hazard_damage(game@, p) <= 126,
    ensures
        res == snake_fit(s@, w as int, h as int),
        res ==> snake_floodable(game@, s@, w as int, h as int) && s@.length <= 64000,
{
    if s.head.x < 0 || s.head.y < 0 || s.head.x as isize >= w || s.head.y as isize >= h {
        return false;
    }
    if s.health < 0 || s.length > 64000 || s.body.len() > s.length {
        return false;
    }
    proof {
        assert(hazard_damage(game@, s@.head) <= 126);
    }
    let mut i: usize = 0;
    while i < s.body.len()
        invariant
            i <= s.body@.len(),
            forall|j: int| 0 <= j < i ==> 0 <= (#[trigger] s.body@[j]).x < MAX_WIDTH && 0 <= s.body@[j].y < MAX_HEIGHT,
        decreases s.body@.len() - i,
    {
        let q = s.body[i];
        if q.x < 0 || q.y < 0 || q.x >= 25 || q.y >= 25 {
            return false;
        }
        i += 1;
    }
    true
}

/// A sufficient test that `score_parts` can run on the game: the turn, the kills and the
/// lengths are at most 2^30, there are at most twelve snakes, and for a living snake the
/// board is at most 25 by 25, a stack of hazards does at most 126 damage (at most 42 a
/// hazard) and every snake can be flooded from.
pub fn score_parts_fit(game: &Game) -> (res: bool)
    ensures
        res == parts_fit(game@),
        res ==> score_fits(game@) && (game@.you.health > 0 ==> floodfill_ok(game@)),
{
    if game.turn > 0x4000_0000 || game.dead_snakes > 0x4000_0000 || game.you.length > 0x4000_0000
        || game.others.len() >= MAX_SNAKES {
        return false;
    }
    let mut i: usize = 0;
    while i < game.others.len()
        invariant
            i <= game@.others.len(),
            forall|j: int| 0 <= j < i ==> (#[trigger] game@.others[j]).length <= 0x4000_0000,
        decreases game@.others.len() - i,
    {
        proof {
            assert(game@.others[i as int] == game.others@[i as int]@);
        }
        if game.others[i].length > 0x4000_0000 {
            return false;
        }
        i += 1;
    }
    if game.you.health <= 0 {
        return true;
    }
    let (w, h) = (game.board.width(), game.board.height());
    if w > 25 || h > 25 || game.rules.hazard_damage_per_turn < 0 || game.rules.hazard_damage_per_turn > 42 {
        return false;
    }
    proof {
        game.board.lemma_tiles_storable();
        assert forall|p: Point| #[trigger] hazard_damage(game@, p) <= 126 by {
            if game@.board.in_bounds(p) {
                assert(crate::logic::board::storable(game.board@.tile(p)));
            }
            let n = spec_hazard_count(game@.board.tile(p)) as int;
            let d = game@.rules.hazard_damage_per_turn as int;
            assert(n <= 3);
            assert(d * n <= 126) by (nonlinear_arith)
                requires
                    0 <= d <= 42,
                    0 <= n <= 3,
            ;
        }
    }
    if !snake_fits(game, &game.you, w, h) {
        return false;
    }
    let mut k: usize = 0;
    while k < game.others.len()
        invariant
            k <= game@.others.len(),
            0 <= w <= 25,
            0 <= h <= 25,
            w == game@.board.width,
            h == game@.board.height,
            forall|p: Point| #[trigger] hazard_damage(game@, p) <= 126,
            forall|j: int| 0 <= j < k ==> snake_floodable(game@, #[trigger] game@.others[j], w as int, h as int),
            forall|j: int| 0 <= j < k ==> snake_fit(#[trigger] game@.others[j], w as int, h as int),
            snake_fit(game@.you, w as int, h as int),
            game@.you.health > 0,
            0 <= game@.rules.hazard_damage_per_turn <= 42,
            game@.turn <= 0x4000_0000,
            game@.dead_snakes <= 0x4000_0000,
            game@.you.length <= 0x4000_0000,
            game@.others.len() < MAX_SNAKES,
            forall|j: int| 0 <= j < game@.others.len() ==> (#[trigger] game@.others[j]).length <= 0x4000_0000,
        decreases game@.others.len() - k,
    {
        proof {
            assert(game@.others[k as int] == game.others@[k as int]@);
        }
        if !snake_fits(game, &game.others[k], w, h) {
            return false;
        }
        k += 1;
    }
    true
}

} // verus!
