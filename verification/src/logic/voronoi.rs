//! Voronoi partitioning of the board: every tile goes to the snake that can reach it first.
use vstd::prelude::*;

use std::collections::VecDeque;

use super::game::{Game, GameMode, GameModel};
use super::board::{spec_kind, HEAD, SNAKE};
use super::point::{has_neighbours, spec_neighbour, spec_out_of_bounds, spec_warp, warp_size_ok};
use super::Direction;
use super::Point;

verus! {

/// The largest number of snakes the partitioning supports.
pub const MAX_SNAKES: usize = 32;

/// The owner of a tile that no snake holds.
pub const NO_SNAKE: u16 = 65535;

/// A step of the partitioning, and what a tile holds: the point, the snake that reached
/// it (`NO_SNAKE` for nobody), at what distance, and that snake's length.
#[derive(Copy, Clone)]
pub struct VoronoiTile {
    pub x: i8,
    pub y: i8,
    pub snake: u16,
    pub distance: u16,
    pub length: u16,
}

/// Decreases whenever a tile is claimed: a claim comes with a shorter distance, or with
/// the same distance and a longer snake.
pub open spec fn weight(t: VoronoiTile) -> int {
    t.distance * 65536 + (65535 - t.length)
}

pub open spec fn weight_fn() -> spec_fn(VoronoiTile) -> int {
    |t: VoronoiTile| weight(t)
}

/// The sum of `f` over the tiles.
pub open spec fn tile_sum(b: Seq<VoronoiTile>, f: spec_fn(VoronoiTile) -> int) -> int
    decreases b.len(),
{
    if b.len() == 0 {
        0
    } else {
        tile_sum(b.drop_last(), f) + f(b.last())
    }
}

/// 1 for a tile that snake `s` holds, 0 for any other.
pub open spec fn owned_by(s: int) -> spec_fn(VoronoiTile) -> int {
    |t: VoronoiTile| if t.snake == s { 1int } else { 0int }
}

spec fn owned_below(k: int) -> spec_fn(VoronoiTile) -> int {
    |t: VoronoiTile| if t.snake < k { 1int } else { 0int }
}

/// The sum of the first `k` scores.
pub open spec fn score_total(scores: Seq<usize>, k: int) -> int
    decreases k,
{
    if k <= 0 {
        0
    } else {
        score_total(scores, k - 1) + scores[k - 1]
    }
}

/// The partitioning can run on this game: at most `MAX_SNAKES` snakes, their heads on the
/// board, and a board that can be wrapped in a wrapped game.
pub open spec fn voronoi_ok(g: GameModel) -> bool {
    &&& g.others.len() + 1 <= MAX_SNAKES
    &&& g.board.width < 127
    &&& g.board.height < 127
    &&& g.board.in_bounds(g.you.head)
    &&& forall|i: int| 0 <= i < g.others.len() ==> g.board.in_bounds(#[trigger] g.others[i].head)
    &&& g.rules.game_mode == GameMode::Wrapped ==> warp_size_ok(g.board.width as isize, g.board.height as isize)
}

proof fn lemma_tile_sum_update(b: Seq<VoronoiTile>, i: int, t: VoronoiTile, f: spec_fn(VoronoiTile) -> int)
    requires
        0 <= i < b.len(),
    ensures
        tile_sum(b.update(i, t), f) == tile_sum(b, f) - f(b[i]) + f(t),
    decreases b.len(),
{
    if i == b.len() - 1 {
        assert(b.update(i, t).drop_last() =~= b.drop_last());
    } else {
        lemma_tile_sum_update(b.drop_last(), i, t, f);
        assert(b.update(i, t).drop_last() =~= b.drop_last().update(i, t));
    }
}

proof fn lemma_tile_sum_bounds(b: Seq<VoronoiTile>, f: spec_fn(VoronoiTile) -> int)
    requires
        forall|t: VoronoiTile| 0 <= #[trigger] f(t) <= 1,
    ensures
        0 <= tile_sum(b, f) <= b.len(),
    decreases b.len(),
{
    if b.len() > 0 {
        lemma_tile_sum_bounds(b.drop_last(), f);
        assert(0 <= f(b.last()) <= 1);
    }
}

proof fn lemma_tile_sum_nonneg(b: Seq<VoronoiTile>, f: spec_fn(VoronoiTile) -> int)
    requires
        forall|t: VoronoiTile| 0 <= #[trigger] f(t),
    ensures
        0 <= tile_sum(b, f),
    decreases b.len(),
{
    if b.len() > 0 {
        lemma_tile_sum_nonneg(b.drop_last(), f);
        assert(0 <= f(b.last()));
    }
}

spec fn const_seq(n: nat, t: VoronoiTile) -> Seq<VoronoiTile> {
    Seq::new(n, |i: int| t)
}

proof fn lemma_tile_sum_const(n: nat, t: VoronoiTile, f: spec_fn(VoronoiTile) -> int)
    ensures
        tile_sum(const_seq(n, t), f) == n * f(t),
    decreases n,
{
    if n == 0 {
        assert(const_seq(n, t).len() == 0);
    } else {
        let m = (n - 1) as nat;
        lemma_tile_sum_const(m, t, f);
        assert(const_seq(n, t).drop_last() =~= const_seq(m, t));
        assert(const_seq(n, t).last() == t);
        assert(tile_sum(const_seq(n, t), f) == tile_sum(const_seq(m, t), f) + f(t));
        assert(m * f(t) + f(t) == n * f(t)) by (nonlinear_arith)
            requires
                m == n - 1,
        ;
    }
}

proof fn lemma_owned_positive(b: Seq<VoronoiTile>, i: int, s: int)
    requires
        0 <= i < b.len(),
        b[i].snake == s,
    ensures
        tile_sum(b, owned_by(s)) >= 1,
{
    let t = VoronoiTile { snake: NO_SNAKE, ..b[i] };
    lemma_tile_sum_update(b, i, if s == NO_SNAKE { VoronoiTile { snake: 0, ..b[i] } } else { t }, owned_by(s));
    lemma_tile_sum_nonneg(b.update(i, if s == NO_SNAKE { VoronoiTile { snake: 0, ..b[i] } } else { t }), owned_by(s));
}

spec fn total_owned(b: Seq<VoronoiTile>, k: int) -> int
    decreases k,
{
    if k <= 0 {
        0
    } else {
        total_owned(b, k - 1) + tile_sum(b, owned_by(k - 1))
    }
}

proof fn lemma_indicator_total(t: VoronoiTile, k: int)
    requires
        k >= 0,
    ensures
        indicator_total(t, k) == (if t.snake < k { 1int } else { 0int }),
    decreases k,
{
    if k > 0 {
        lemma_indicator_total(t, k - 1);
    }
}

spec fn indicator_total(t: VoronoiTile, k: int) -> int
    decreases k,
{
    if k <= 0 {
        0
    } else {
        indicator_total(t, k - 1) + (if t.snake == k - 1 { 1int } else { 0int })
    }
}

proof fn lemma_total_owned(b: Seq<VoronoiTile>, k: int)
    requires
        k >= 0,
    ensures
        total_owned(b, k) == tile_sum(b, owned_below(k)),
    decreases b.len(), k,
{
    if b.len() == 0 {
        lemma_total_owned_empty(b, k);
    } else {
        lemma_total_owned(b.drop_last(), k);
        lemma_total_owned_split(b, k);
        lemma_indicator_total(b.last(), k);
    }
}

proof fn lemma_total_owned_empty(b: Seq<VoronoiTile>, k: int)
    requires
        b.len() == 0,
        k >= 0,
    ensures
        total_owned(b, k) == 0,
        tile_sum(b, owned_below(k)) == 0,
    decreases k,
{
    if k > 0 {
        lemma_total_owned_empty(b, k - 1);
    }
}

proof fn lemma_total_owned_split(b: Seq<VoronoiTile>, k: int)
    requires
        b.len() > 0,
        k >= 0,
    ensures
        total_owned(b, k) == total_owned(b.drop_last(), k) + indicator_total(b.last(), k),
    decreases k,
{
    if k > 0 {
        lemma_total_owned_split(b, k - 1);
    }
}

proof fn lemma_scores_total(scores: Seq<usize>, b: Seq<VoronoiTile>, k: int)
    requires
        0 <= k <= scores.len(),
        forall|s: int| 0 <= s < k ==> scores[s] == #[trigger] tile_sum(b, owned_by(s)),
    ensures
        score_total(scores, k) == total_owned(b, k),
    decreases k,
{
    if k > 0 {
        lemma_scores_total(scores, b, k - 1);
    }
}

proof fn lemma_unowned_count(b: Seq<VoronoiTile>, s: int, n: int)
    requires
        n <= s < NO_SNAKE,
        forall|i: int| 0 <= i < b.len() ==> (#[trigger] b[i]).snake == NO_SNAKE || b[i].snake < n,
    ensures
        tile_sum(b, owned_by(s)) == 0,
    decreases b.len(),
{
    if b.len() > 0 {
        lemma_unowned_count(b.drop_last(), s, n);
        assert(b.last() == b[b.len() - 1]);
    }
}

/// No opponent's head lies on our head's tile.
pub open spec fn head_alone(g: GameModel) -> bool {
    forall|i: int| 0 <= i < g.others.len() ==> (#[trigger] g.others[i]).head != g.you.head
}

proof fn lemma_index_inj(x1: int, y1: int, x2: int, y2: int, w: int)
    requires
        0 <= x1 < w,
        0 <= x2 < w,
        0 <= y1,
        0 <= y2,
        x1 + y1 * w == x2 + y2 * w,
    ensures
        x1 == x2,
        y1 == y2,
{
    if y1 < y2 {
        assert(x1 + y1 * w < x2 + y2 * w) by (nonlinear_arith)
            requires
                0 <= x1 < w,
                0 <= x2,
                y1 < y2,
        ;
    } else if y2 < y1 {
        assert(x2 + y2 * w < x1 + y1 * w) by (nonlinear_arith)
            requires
                0 <= x2 < w,
                0 <= x1,
                y2 < y1,
        ;
    }
}

/// Our head's tile at the start of the partitioning: the first step queued is ours, at
/// distance 0 on our head, and the tile is still free; or the tile is ours at distance 0.
spec fn head_held(b: Seq<VoronoiTile>, q: Seq<VoronoiTile>, h0: int, hx: i8, hy: i8) -> bool {
    ||| b[h0].snake == 0 && b[h0].distance == 0
    ||| q.len() > 0 && q[0].snake == 0 && q[0].distance == 0 && q[0].x == hx && q[0].y == hy && b[h0].snake == NO_SNAKE
        && b[h0].distance == 65535
}

/// Only our own step is queued at distance 0 on our head.
spec fn head_steps_ours(q: Seq<VoronoiTile>, hx: i8, hy: i8) -> bool {
    forall|k: int| 0 <= k < q.len() && (#[trigger] q[k]).x == hx && q[k].y == hy && q[k].distance == 0 ==> q[k].snake == 0
}

/// A tile the partitioning does not cross: a hazard, a snake or a head.
pub open spec fn vor_blocked(g: GameModel, p: Point) -> bool {
    let t = g.board.tile(p);
    ||| crate::logic::spec_hazard_count(t) > 0
    ||| g.board.in_bounds(p) && spec_kind(t) & SNAKE == SNAKE
    ||| g.board.in_bounds(p) && spec_kind(t) & HEAD == HEAD
}

/// The neighbour of `p` in direction `d`, wrapped around the edges in a wrapped game.
pub open spec fn vor_target(g: GameModel, p: Point, d: Direction) -> Point {
    let np = spec_neighbour(p, d);
    if g.rules.game_mode == GameMode::Wrapped {
        spec_warp(np, g.board.width as isize, g.board.height as isize)
    } else {
        np
    }
}

/// The step that the claim of `work` queues in direction `d`, if any: onto a neighbour on
/// the board that is not blocked, one farther than `work`, when that is no farther than
/// what the tile holds and nearer than `max_distance`.
pub open spec fn vor_push(g: GameModel, b: Seq<VoronoiTile>, work: VoronoiTile, d: Direction, max_distance: u16) -> Seq<VoronoiTile> {
    let np = vor_target(g, Point { x: work.x, y: work.y }, d);
    let nd = work.distance + 1;
    if spec_out_of_bounds(np, g.board.width as isize, g.board.height as isize) || vor_blocked(g, np) {
        Seq::empty()
    } else if nd <= b[np.x + np.y * g.board.width].distance && nd < max_distance {
        seq![VoronoiTile { x: np.x, y: np.y, snake: work.snake, distance: nd as u16, length: work.length }]
    } else {
        Seq::empty()
    }
}

/// The directions in the order a claim tries them.
pub open spec fn vor_dir(j: int) -> Direction {
    if j == 0 {
        Direction::Up
    } else if j == 1 {
        Direction::Down
    } else if j == 2 {
        Direction::Left
    } else {
        Direction::Right
    }
}

/// The steps a claim of `work` queues in the first `j` directions, in order.
pub open spec fn vor_pushes(g: GameModel, b: Seq<VoronoiTile>, work: VoronoiTile, max_distance: u16, j: int) -> Seq<VoronoiTile>
    decreases j,
{
    if j <= 0 {
        Seq::empty()
    } else {
        vor_pushes(g, b, work, max_distance, j - 1) + vor_push(g, b, work, vor_dir(j - 1), max_distance)
    }
}

/// One step of the partitioning on tiles `b` and queue `q`: the first queued step is taken.
/// Reaching a tile at the distance and length of another snake that holds it is a draw,
/// and nobody holds the tile; reaching it nearer, or as near with a longer snake, claims
/// it and queues the next steps; anything else changes nothing.
pub open spec fn vor_step(g: GameModel, max_distance: u16, b: Seq<VoronoiTile>, q: Seq<VoronoiTile>) -> (Seq<VoronoiTile>, Seq<VoronoiTile>) {
    if q.len() == 0 {
        (b, q)
    } else {
        let work = q[0];
        let rest = q.subrange(1, q.len() as int);
        let idx = work.x + work.y * g.board.width;
        let cur = b[idx];
        if cur.snake != NO_SNAKE && cur.snake != work.snake && cur.distance == work.distance && cur.length == work.length {
            (b.update(idx, VoronoiTile { snake: NO_SNAKE, ..cur }), rest)
        } else if cur.distance > work.distance || (cur.distance == work.distance && cur.length < work.length) {
            let b2 = b.update(idx, work);
            (b2, rest + vor_pushes(g, b2, work, max_distance, 4))
        } else {
            (b, rest)
        }
    }
}

/// The tiles after at most `fuel` steps, or once nothing is queued.
pub open spec fn vor_run(g: GameModel, max_distance: u16, b: Seq<VoronoiTile>, q: Seq<VoronoiTile>, fuel: nat) -> Seq<VoronoiTile>
    decreases fuel,
{
    if fuel == 0 || q.len() == 0 {
        b
    } else {
        let next = vor_step(g, max_distance, b, q);
        vor_run(g, max_distance, next.0, next.1, (fuel - 1) as nat)
    }
}

/// The tiles before the partitioning: nobody holds any.
pub open spec fn vor_start_tiles(g: GameModel) -> Seq<VoronoiTile> {
    Seq::new(
        (g.board.width * g.board.height) as nat,
        |i: int| VoronoiTile { x: 0, y: 0, snake: NO_SNAKE, distance: 65535, length: 0 },
    )
}

/// The first steps: every head at distance 0, ours first as snake 0, then the opponents
/// in order from 1.
pub open spec fn vor_heads(g: GameModel) -> Seq<VoronoiTile> {
    seq![VoronoiTile { x: g.you.head.x, y: g.you.head.y, snake: 0, distance: 0, length: g.you.length as u16 }]
        + Seq::new(
        g.others.len(),
        |i: int|
            VoronoiTile {
                x: g.others[i].head.x,
                y: g.others[i].head.y,
                snake: (i + 1) as u16,
                distance: 0,
                length: g.others[i].length as u16,
            },
    )
}

/// Enough steps for the partitioning to run out: every step lowers the weight of the
/// tiles or shortens the queue.
pub open spec fn vor_fuel(g: GameModel) -> nat {
    (5 * tile_sum(vor_start_tiles(g), weight_fn()) + g.others.len() + 1) as nat
}

/// The tiles once the partitioning of the game has run, steps at `max_distance` or
/// farther never being queued.
pub open spec fn voronoi_tiles(g: GameModel, max_distance: u16) -> Seq<VoronoiTile> {
    vor_run(g, max_distance, vor_start_tiles(g), vor_heads(g), vor_fuel(g))
}

/// The number of tiles snake `s` holds once the partitioning has run (ours is 0, the
/// opponents from 1 in order).
pub open spec fn voronoi_count(g: GameModel, max_distance: u16, s: int) -> int {
    tile_sum(voronoi_tiles(g, max_distance), owned_by(s))
}

/// With both sizes below 127, the bounds test of the board's queries is the board's own.
proof fn lemma_narrow_bounds(game: &Game, p: Point)
    requires
        0 <= game@.board.width < 127,
        0 <= game@.board.height < 127,
    ensures
        game.board.in_narrow_bounds(p) == game@.board.in_bounds(p),
{
    let wd = game@.board.width;
    let ht = game@.board.height;
    assert((wd as u8) as i8 == wd);
    assert((ht as u8) as i8 == ht);
}

fn stack_voronoi(game: &Game, max_distance: u16) -> (scores: Vec<usize>)
    requires
        voronoi_ok(game@),
    ensures
        scores@.len() == MAX_SNAKES,
        head_alone(game@) ==> scores@[0] >= 1,
        forall|s: int| 0 <= s < MAX_SNAKES ==> #[trigger] scores@[s] == voronoi_count(game@, max_distance, s),
        forall|s: int| game@.others.len() + 1 <= s < MAX_SNAKES ==> #[trigger] scores@[s] == 0,
        score_total(scores@, MAX_SNAKES as int) <= game@.board.width * game@.board.height,
{
    let warp = game.rules.game_mode == GameMode::Wrapped;
    let (w, h) = (game.board.width(), game.board.height());
    let wu = w as usize;
    let hu = h as usize;
    let n: usize = game.others.len() + 1;
    proof {
        assert(wu * hu <= 255 * 255) by (nonlinear_arith)
            requires
                wu <= 255,
                hu <= 255,
        ;
        assert(0 <= w <= 255 ==> (w as i8) < 0 || (w as i8) == w) by (bit_vector);
        assert(0 <= h <= 255 ==> (h as i8) < 0 || (h as i8) == h) by (bit_vector);
    }
    let empty = VoronoiTile { x: 0, y: 0, snake: NO_SNAKE, distance: 65535, length: 0 };
    let mut board: Vec<VoronoiTile> = vec![empty; wu * hu];
    let mut scores: Vec<usize> = vec![0; MAX_SNAKES];
    let mut queue: VecDeque<VoronoiTile> = VecDeque::new();
    proof {
        assert(board@ =~= const_seq((wu * hu) as nat, empty));
        assert(board@ =~= vor_start_tiles(game@));
        assert forall|s: int| 0 <= s < MAX_SNAKES implies scores@[s] == #[trigger] tile_sum(board@, owned_by(s)) by {
            lemma_tile_sum_const((wu * hu) as nat, empty, owned_by(s));
        }
    }
    let ghost solo = head_alone(game@);
    let ghost hx = game@.you.head.x;
    let ghost hy = game@.you.head.y;
    let ghost h0 = hx + hy * wu;
    proof {
        assert(game@.you.head == game.you.head);
        assert(h0 < wu * hu) by (nonlinear_arith)
            requires
                0 <= hx < wu,
                0 <= hy < hu,
                h0 == hx + hy * wu,
        ;
    }
    queue.push_back(
        VoronoiTile {
            x: game.you.head.x,
            y: game.you.head.y,
            snake: 0,
            distance: 0,
            length: game.you.length as u16,
        },
    );
    proof {
        assert(queue@ =~= vor_heads(game@).subrange(0, 1));
    }
    let mut i: usize = 0;
    while i < game.others.len()
        invariant
            i <= game.others@.len(),
            solo == head_alone(game@),
            hx == game@.you.head.x,
            hy == game@.you.head.y,
            queue@[0].snake == 0 && queue@[0].distance == 0 && queue@[0].x == hx && queue@[0].y == hy,
            solo ==> head_steps_ours(queue@, hx, hy),
            queue@ == vor_heads(game@).subrange(0, i + 1),
            board@ == vor_start_tiles(game@),
            n == game.others@.len() + 1,
            voronoi_ok(game@),
            w == game@.board.width,
            h == game@.board.height,
            queue@.len() == i + 1,
            forall|q: int|
                0 <= q < queue@.len() ==> {
                    let t = #[trigger] queue@[q];
                    &&& t.snake < n
                    &&& 0 <= t.x < w
                    &&& 0 <= t.y < h
                    &&& t.distance < 65535
                },
        decreases game.others@.len() - i,
    {
        let snake = &game.others[i];
        proof {
            assert(game@.others[i as int] == snake@);
            assert(game@.board.in_bounds(game@.others[i as int].head));
        }
        let ghost qa = queue@;
        queue.push_back(
            VoronoiTile {
                x: snake.head.x,
                y: snake.head.y,
                snake: i as u16 + 1,
                distance: 0,
                length: snake.length as u16,
            },
        );
        proof {
            assert(queue@[0] == qa[0]);
            assert(queue@ =~= vor_heads(game@).subrange(0, i + 2));
            if solo {
                assert(game@.others[i as int].head != game@.you.head);
                assert forall|k: int| 0 <= k < queue@.len() && (#[trigger] queue@[k]).x == hx && queue@[k].y == hy
                    && queue@[k].distance == 0 implies queue@[k].snake == 0 by {
                    if k < qa.len() {
                        assert(queue@[k] == qa[k]);
                    }
                }
            }
        }
        i += 1;
    }
    let ghost fin = voronoi_tiles(game@, max_distance);
    let ghost mut fuel: nat = vor_fuel(game@);
    proof {
        assert(queue@ =~= vor_heads(game@));
    }
    loop
        invariant
            vor_run(game@, max_distance, board@, queue@, fuel) == fin,
            fuel >= 5 * tile_sum(board@, weight_fn()) + queue@.len(),
            fin == voronoi_tiles(game@, max_distance),
            n == game.others@.len() + 1,
            n <= MAX_SNAKES,
            w == game@.board.width,
            h == game@.board.height,
            wu == w,
            hu == h,
            wu * hu <= 255 * 255,
            0 <= w <= 255 ==> (w as i8) < 0 || (w as i8) == w,
            0 <= h <= 255 ==> (h as i8) < 0 || (h as i8) == h,
            0 <= w < 127,
            0 <= h < 127,
            warp == (game.rules.game_mode == GameMode::Wrapped),
            warp ==> warp_size_ok(w, h),
            board@.len() == wu * hu,
            0 <= hx < wu,
            0 <= hy < hu,
            h0 == hx + hy * wu,
            0 <= h0 < board@.len(),
            solo ==> head_held(board@, queue@, h0, hx, hy),
            solo ==> head_steps_ours(queue@, hx, hy),
            scores@.len() == MAX_SNAKES,
            forall|s: int| 0 <= s < MAX_SNAKES ==> scores@[s] == #[trigger] tile_sum(board@, owned_by(s)),
            forall|j: int| 0 <= j < board@.len() ==> (#[trigger] board@[j]).snake == NO_SNAKE || board@[j].snake < n,
            forall|q: int|
                0 <= q < queue@.len() ==> {
                    let t = #[trigger] queue@[q];
                    &&& t.snake < n
                    &&& 0 <= t.x < w
                    &&& 0 <= t.y < h
                    &&& t.distance < 65535
                },
        ensures
            queue@.len() == 0,
        decreases 5 * tile_sum(board@, weight_fn()) + queue@.len(),
    {
        let ghost q0 = queue@;
        let ghost bs = board@;
        let ghost measure0 = 5 * tile_sum(board@, weight_fn()) + queue@.len();
        let work = match queue.pop_front() {
            Some(work) => work,
            None => break,
        };
        proof {
            assert(work == q0[0]);
            assert(queue@ =~= q0.subrange(1, q0.len() as int));
            assert forall|q: int| 0 <= q < queue@.len() implies #[trigger] queue@[q] == q0[q + 1] by {}
            lemma_tile_sum_nonneg(board@, weight_fn());
        }
        proof {
            assert(work.y * wu + work.x < wu * hu) by (nonlinear_arith)
                requires
                    0 <= work.x < wu,
                    0 <= work.y < hu,
            ;
        }
        let tile_idx = work.x as usize + work.y as usize * wu;
        let cur = board[tile_idx];
        proof {
            assert(tile_idx == work.x + work.y * game@.board.width);
        }
        let ghost at_head = tile_idx == h0;
        proof {
            if at_head {
                lemma_index_inj(work.x as int, work.y as int, hx as int, hy as int, wu as int);
            } else {
                assert(!(work.x == hx && work.y == hy));
            }
            if solo {
                assert(head_steps_ours(q0, hx, hy));
                assert(head_steps_ours(queue@, hx, hy));
                assert(head_held(board@, q0, h0, hx, hy));
                if !(board@[h0].snake == 0 && board@[h0].distance == 0) {
                    assert(at_head);
                }
            }
        }
        if cur.snake != NO_SNAKE && cur.snake != work.snake && cur.distance == work.distance && cur.length
            == work.length {
            // Draw: no snake gets this tile, so it is taken from the snake that held it.
            let ghost b0 = board@;
            let unclaimed = VoronoiTile { snake: NO_SNAKE, ..cur };
            board[tile_idx] = unclaimed;
            proof {
                assert(board@ == b0.update(tile_idx as int, unclaimed));
                assert forall|s: int| 0 <= s < MAX_SNAKES implies #[trigger] tile_sum(board@, owned_by(s))
                    == tile_sum(b0, owned_by(s)) - (if cur.snake == s { 1int } else { 0int }) by {
                    lemma_tile_sum_update(b0, tile_idx as int, unclaimed, owned_by(s));
                }
                lemma_tile_sum_bounds(board@, owned_by(cur.snake as int));
                lemma_tile_sum_update(b0, tile_idx as int, unclaimed, weight_fn());
            }
            let s = cur.snake as usize;
            scores[s] = scores[s] - 1;
            proof {
                assert(5 * tile_sum(board@, weight_fn()) + queue@.len() < measure0);
                lemma_tile_sum_nonneg(board@, weight_fn());
                if solo {
                    assert(!at_head);
                    assert(board@[h0] == b0[h0]);
                }
                assert(vor_step(game@, max_distance, bs, q0) == (board@, queue@));
            }
        } else if cur.distance > work.distance || (cur.distance == work.distance && cur.length < work.length) {
            let ghost b0 = board@;
            let ghost sc0 = scores@;
            board[tile_idx] = work;
            proof {
                assert(board@ == b0.update(tile_idx as int, work));
                assert forall|s: int| 0 <= s < MAX_SNAKES implies #[trigger] tile_sum(board@, owned_by(s))
                    == tile_sum(b0, owned_by(s)) - (if cur.snake == s { 1int } else { 0int }) + (if work.snake
                    == s { 1int } else { 0int }) by {
                    lemma_tile_sum_update(b0, tile_idx as int, work, owned_by(s));
                }
                lemma_tile_sum_update(b0, tile_idx as int, work, weight_fn());
                assert(weight(work) < weight(cur));
            }
            if cur.snake != NO_SNAKE {
                let s = cur.snake as usize;
                proof {
                    lemma_owned_positive(b0, tile_idx as int, s as int);
                }
                scores[s] = scores[s] - 1;
            }
            let ws = work.snake as usize;
            proof {
                lemma_tile_sum_bounds(board@, owned_by(ws as int));
            }
            scores[ws] = scores[ws] + 1;
            proof {
                if solo {
                    if at_head {
                        assert(work.snake == 0 && work.distance == 0);
                    } else {
                        assert(board@[h0] == b0[h0]);
                    }
                    assert(board@[h0].snake == 0 && board@[h0].distance == 0);
                }
            }
            let ghost q_after = queue@.len();
            let ghost q_rest = queue@;
            let ghost b1 = board@;
            let next_distance = work.distance + 1;
            let p = Point { x: work.x, y: work.y };
            let neighbours = p.neighbours();
            let mut j: usize = 0;
            proof {
                assert forall|k: int| 0 <= k < 4 implies (#[trigger] neighbours@[k]).1 == spec_neighbour(p, vor_dir(k)) by {
                    if k == 0 {
                    } else if k == 1 {
                    } else if k == 2 {
                    } else {
                    }
                }
                assert(queue@ =~= q_rest + vor_pushes(game@, b1, work, max_distance, 0));
            }
            while j < 4
                invariant
                    j <= 4,
                    board@ == b1,
                    queue@ == q_rest + vor_pushes(game@, b1, work, max_distance, j as int),
                    forall|k: int| 0 <= k < 4 ==> (#[trigger] neighbours@[k]).1 == spec_neighbour(p, vor_dir(k)),
                    p == (Point { x: work.x, y: work.y }),
                    next_distance == work.distance + 1,
                    warp == (game@.rules.game_mode == GameMode::Wrapped),
                    queue@.len() <= q_after + j,
                    n == game.others@.len() + 1,
                    w == game@.board.width,
                    h == game@.board.height,
                    wu == w,
                    hu == h,
                    0 <= w <= 255 ==> (w as i8) < 0 || (w as i8) == w,
                    0 <= h <= 255 ==> (h as i8) < 0 || (h as i8) == h,
                    0 <= w < 127,
                    0 <= h < 127,
                    board@.len() == wu * hu,
                    wu * hu <= 255 * 255,
                    warp ==> warp_size_ok(w, h),
                    work.snake < n,
                    next_distance >= 1,
                    solo ==> head_steps_ours(queue@, hx, hy),
                    forall|q: int|
                        0 <= q < queue@.len() ==> {
                            let t = #[trigger] queue@[q];
                            &&& t.snake < n
                            &&& 0 <= t.x < w
                            &&& 0 <= t.y < h
                            &&& t.distance < 65535
                        },
                decreases 4 - j,
            {
                let mut next_p = neighbours[j].1;
                if warp {
                    next_p.warp(w, h);
                }
                let ghost qj = queue@;
                proof {
                    lemma_narrow_bounds(game, next_p);
                    assert(next_p == vor_target(game@, p, vor_dir(j as int)));
                    assert(game@.board == game.board@);
                }
                // Survivable hazards are not crossed, nor are snakes (nor food, which the
                // board's snake and head tests also report).
                if next_p.out_of_bounds(w, h) || game.board.hazard_count(&next_p) > 0 || game.board.is_snake(
                    &next_p,
                ) || game.board.is_head(&next_p) {
                    proof {
                        assert(vor_push(game@, b1, work, vor_dir(j as int), max_distance) == Seq::<VoronoiTile>::empty());
                        assert(queue@ =~= q_rest + vor_pushes(game@, b1, work, max_distance, j + 1));
                    }
                    j += 1;
                    continue;
                }
                proof {
                    assert(!spec_out_of_bounds(next_p, w, h));
                    assert(next_p.y * wu + next_p.x < wu * hu) by (nonlinear_arith)
                        requires
                            0 <= next_p.x < wu,
                            0 <= next_p.y < hu,
                    ;
                }
                let next_idx = next_p.x as usize + next_p.y as usize * wu;
                if next_distance <= board[next_idx].distance && next_distance < max_distance {
                    let ghost qa = queue@;
                    queue.push_back(
                        VoronoiTile {
                            x: next_p.x,
                            y: next_p.y,
                            snake: work.snake,
                            distance: next_distance,
                            length: work.length,
                        },
                    );
                    proof {
                        if solo {
                            assert forall|k: int| 0 <= k < queue@.len() && (#[trigger] queue@[k]).x == hx && queue@[k].y == hy
                                && queue@[k].distance == 0 implies queue@[k].snake == 0 by {
                                if k < qa.len() {
                                    assert(queue@[k] == qa[k]);
                                }
                            }
                        }
                        assert(next_idx == next_p.x + next_p.y * game@.board.width);
                        assert(queue@ =~= q_rest + vor_pushes(game@, b1, work, max_distance, j + 1));
                    }
                } else {
                    proof {
                        assert(next_idx == next_p.x + next_p.y * game@.board.width);
                        assert(queue@ =~= q_rest + vor_pushes(game@, b1, work, max_distance, j + 1));
                    }
                }
                j += 1;
            }
            proof {
                assert(5 * tile_sum(board@, weight_fn()) + queue@.len() < measure0);
                lemma_tile_sum_nonneg(board@, weight_fn());
                assert(b1 == bs.update(tile_idx as int, work));
                assert(q_rest == q0.subrange(1, q0.len() as int));
                assert(vor_step(game@, max_distance, bs, q0) == (board@, queue@));
            }
        } else {
            proof {
                assert(5 * tile_sum(board@, weight_fn()) + queue@.len() < measure0);
                lemma_tile_sum_nonneg(board@, weight_fn());
                assert(vor_step(game@, max_distance, bs, q0) == (board@, queue@));
            }
        }
        proof {
            assert(fuel >= 1);
            assert(vor_run(game@, max_distance, bs, q0, fuel) == vor_run(game@, max_distance, board@, queue@, (fuel - 1) as nat));
            fuel = (fuel - 1) as nat;
        }
    }
    proof {
        assert(vor_run(game@, max_distance, board@, queue@, fuel) == board@);
        if solo {
            lemma_owned_positive(board@, h0, 0);
        }
        lemma_scores_total(scores@, board@, MAX_SNAKES as int);
        lemma_total_owned(board@, MAX_SNAKES as int);
        lemma_tile_sum_bounds(board@, owned_below(MAX_SNAKES as int));
        assert forall|s: int| game@.others.len() + 1 <= s < MAX_SNAKES implies #[trigger] scores@[s] == 0 by {
            lemma_unowned_count(board@, s, n as int);
        }
    }
    scores
}

/// The number of tiles each snake controls: ours first, then the opponents in order.
pub fn all(game: &Game) -> (res: Vec<usize>)
    requires
        voronoi_ok(game@),
    ensures
        res@.len() == game@.others.len() + 1,
        score_total(res@, res@.len() as int) <= game@.board.width * game@.board.height,
        head_alone(game@) ==> res@[0] >= 1,
        forall|k: int| 0 <= k < res@.len() ==> #[trigger] res@[k] == voronoi_count(game@, 65535, k),
{
    let scores = stack_voronoi(game, 65535);
    let n = game.others.len() + 1;
    let mut res: Vec<usize> = Vec::new();
    let mut i: usize = 0;
    while i < n
        invariant
            i <= n,
            n <= MAX_SNAKES,
            scores@.len() == MAX_SNAKES,
            res@ == scores@.take(i as int),
            forall|s: int| 0 <= s < MAX_SNAKES ==> #[trigger] scores@[s] == voronoi_count(game@, 65535, s),
        decreases n - i,
    {
        res.push(scores[i]);
        proof {
            assert(res@ =~= scores@.take(i + 1));
        }
        i += 1;
    }
    proof {
        lemma_score_total_prefix(scores@, n as int, MAX_SNAKES as int);
        lemma_score_total_take(scores@, n as int);
        assert(res@[0] == scores@[0]);
    }
    res
}

proof fn lemma_score_total_prefix(scores: Seq<usize>, j: int, k: int)
    requires
        0 <= j <= k <= scores.len(),
    ensures
        score_total(scores, j) <= score_total(scores, k),
    decreases k,
{
    if j < k {
        lemma_score_total_prefix(scores, j, k - 1);
    }
}

proof fn lemma_score_total_take(scores: Seq<usize>, k: int)
    requires
        0 <= k <= scores.len(),
    ensures
        score_total(scores.take(k), k) == score_total(scores, k),
    decreases k,
{
    if k > 0 {
        lemma_score_total_take_step(scores, k, k - 1);
        lemma_score_total_take(scores, k - 1);
    }
}

proof fn lemma_score_total_take_step(scores: Seq<usize>, k: int, j: int)
    requires
        0 <= j < k <= scores.len(),
    ensures
        score_total(scores.take(k), j) == score_total(scores.take(j), j),
    decreases j,
{
    if j > 0 {
        lemma_score_total_take_step(scores, k, j - 1);
        lemma_score_total_take_step(scores, j, j - 1);
    }
}

/// The number of tiles our snake controls: our head's tile among them when no opponent's
/// head shares it.
pub fn me(game: &Game) -> (res: usize)
    requires
        voronoi_ok(game@),
    ensures
        res == voronoi_count(game@, 65535, 0),
        res <= game@.board.width * game@.board.height,
        head_alone(game@) ==> res >= 1,
{
    let scores = stack_voronoi(game, 65535);
    proof {
        lemma_score_total_prefix(scores@, 1, MAX_SNAKES as int);
        assert(score_total(scores@, 0) == 0);
        assert(score_total(scores@, 1) == scores@[0]);
    }
    scores[0]
}

/// The number of tiles our snake controls within `max_distance` steps: our head's tile
/// among them when no opponent's head shares it.
pub fn me_range_limit(game: &Game, max_distance: u16) -> (res: usize)
    requires
        voronoi_ok(game@),
    ensures
        res == voronoi_count(game@, max_distance, 0),
        res <= game@.board.width * game@.board.height,
        head_alone(game@) ==> res >= 1,
{
    let scores = stack_voronoi(game, max_distance);
    proof {
        lemma_score_total_prefix(scores@, 1, MAX_SNAKES as int);
        assert(score_total(scores@, 0) == 0);
        assert(score_total(scores@, 1) == scores@[0]);
    }
    scores[0]
}

} // verus!

verus! {

/// The first of several scores is no more than their total.
pub proof fn lemma_first_score_bound(scores: Seq<usize>)
    requires
        scores.len() >= 1,
    ensures
        scores[0] <= score_total(scores, scores.len() as int),
{
    lemma_score_total_prefix(scores, 1, scores.len() as int);
    assert(score_total(scores, 0) == 0);
}


/// The heads of all snakes are on different tiles.
pub open spec fn heads_apart(g: GameModel) -> bool {
    &&& head_alone(g)
    &&& forall|i: int, j: int|
        0 <= i < j < g.others.len() ==> (#[trigger] g.others[i]).head != (#[trigger] g.others[j]).head
}

spec fn head_index(g: GameModel, t: VoronoiTile) -> int {
    t.x + t.y * g.board.width
}

proof fn lemma_no_pushes(g: GameModel, b: Seq<VoronoiTile>, work: VoronoiTile, max_distance: u16, j: int)
    requires
        max_distance <= 1,
    ensures
        vor_pushes(g, b, work, max_distance, j) == Seq::<VoronoiTile>::empty(),
    decreases j,
{
    if j > 0 {
        lemma_no_pushes(g, b, work, max_distance, j - 1);
        assert(vor_push(g, b, work, vor_dir(j - 1), max_distance) =~= Seq::<VoronoiTile>::empty());
        assert(Seq::<VoronoiTile>::empty() + Seq::<VoronoiTile>::empty() =~= Seq::<VoronoiTile>::empty());
    }
}

proof fn lemma_heads_apart(g: GameModel, a: int, c: int)
    requires
        voronoi_ok(g),
        heads_apart(g),
        0 <= a < c <= g.others.len(),
    ensures
        0 <= head_index(g, vor_heads(g)[a]) < g.board.width * g.board.height,
        0 <= head_index(g, vor_heads(g)[c]) < g.board.width * g.board.height,
        head_index(g, vor_heads(g)[a]) != head_index(g, vor_heads(g)[c]),
{
    let q = vor_heads(g);
    let w = g.board.width;
    let h = g.board.height;
    let pa = if a == 0 { g.you.head } else { g.others[a - 1].head };
    let pc = g.others[c - 1].head;
    assert(q[a].x == pa.x && q[a].y == pa.y);
    assert(q[c].x == pc.x && q[c].y == pc.y);
    assert(g.board.in_bounds(pc));
    assert(g.board.in_bounds(pa));
    assert(pa != pc);
    assert(0 <= pa.x + pa.y * w < w * h) by (nonlinear_arith)
        requires
            0 <= pa.x < w,
            0 <= pa.y < h,
    ;
    assert(0 <= pc.x + pc.y * w < w * h) by (nonlinear_arith)
        requires
            0 <= pc.x < w,
            0 <= pc.y < h,
    ;
    if pa.x + pa.y * w == pc.x + pc.y * w {
        lemma_index_inj(pa.x as int, pa.y as int, pc.x as int, pc.y as int, w);
    }
}

proof fn lemma_heads_only(g: GameModel, max_distance: u16, k: int, b: Seq<VoronoiTile>, fuel: nat)
    requires
        voronoi_ok(g),
        heads_apart(g),
        max_distance <= 1,
        0 <= k <= vor_heads(g).len(),
        fuel >= vor_heads(g).len() - k,
        b.len() == g.board.width * g.board.height,
        forall|j: int| k <= j < vor_heads(g).len() ==> (#[trigger] b[head_index(g, vor_heads(g)[j])]).snake == NO_SNAKE && b[head_index(
            g,
            vor_heads(g)[j],
        )].distance == 65535,
        tile_sum(b, owned_by(0)) == if k >= 1 { 1int } else { 0int },
    ensures
        tile_sum(vor_run(g, max_distance, b, vor_heads(g).subrange(k, vor_heads(g).len() as int), fuel), owned_by(0)) == 1,
    decreases vor_heads(g).len() - k,
{
    let q = vor_heads(g);
    let n = q.len() as int;
    let rest = q.subrange(k, n);
    if k == n {
        assert(n >= 1);
    } else {
        let work = rest[0];
        assert(work == q[k]);
        let idx = head_index(g, work);
        if k < n - 1 {
            lemma_heads_apart(g, k, n - 1);
        } else if k > 0 {
            lemma_heads_apart(g, 0, k);
        } else {
            assert(0 <= idx < g.board.width * g.board.height) by (nonlinear_arith)
                requires
                    0 <= g.you.head.x < g.board.width,
                    0 <= g.you.head.y < g.board.height,
                    idx == g.you.head.x + g.you.head.y * g.board.width,
            ;
        }
        let b2 = b.update(idx, work);
        lemma_no_pushes(g, b2, work, max_distance, 4);
        assert(rest.subrange(1, rest.len() as int) + Seq::<VoronoiTile>::empty() =~= q.subrange(k + 1, n));
        assert(vor_step(g, max_distance, b, rest) == (b2, q.subrange(k + 1, n)));
        lemma_tile_sum_update(b, idx, work, owned_by(0));
        assert(work.snake == 0 <==> k == 0);
        assert forall|j: int| k + 1 <= j < n implies (#[trigger] b2[head_index(g, q[j])]).snake == NO_SNAKE && b2[head_index(
            g,
            q[j],
        )].distance == 65535 by {
            lemma_heads_apart(g, k, j);
        }
        lemma_heads_only(g, max_distance, k + 1, b2, (fuel - 1) as nat);
    }
}

/// Within a distance of one, our snake holds exactly its head's tile when the heads of
/// all snakes are on different tiles.
pub proof fn law_range_one_holds_only_the_head(g: GameModel, max_distance: u16)
    requires
        voronoi_ok(g),
        heads_apart(g),
        max_distance <= 1,
    ensures
        voronoi_count(g, max_distance, 0) == 1,
{
    let q = vor_heads(g);
    let start = vor_start_tiles(g);
    let t0 = VoronoiTile { x: 0, y: 0, snake: NO_SNAKE, distance: 65535, length: 0 };
    let n = (g.board.width * g.board.height) as nat;
    assert(start =~= const_seq(n, t0));
    lemma_tile_sum_const(n, t0, owned_by(0));
    assert forall|t: VoronoiTile| 0 <= #[trigger] weight_fn()(t) by {}
    lemma_tile_sum_nonneg(start, weight_fn());
    assert forall|j: int| 0 <= j < q.len() implies (#[trigger] start[head_index(g, q[j])]).snake == NO_SNAKE && start[head_index(
        g,
        q[j],
    )].distance == 65535 by {
        if j > 0 {
            lemma_heads_apart(g, 0, j);
        } else if q.len() > 1 {
            lemma_heads_apart(g, 0, q.len() - 1);
        } else {
            assert(0 <= head_index(g, q[0]) < g.board.width * g.board.height) by (nonlinear_arith)
                requires
                    0 <= g.you.head.x < g.board.width,
                    0 <= g.you.head.y < g.board.height,
                    head_index(g, q[0]) == g.you.head.x + g.you.head.y * g.board.width,
            ;
        }
    }
    assert(q.subrange(0, q.len() as int) =~= q);
    lemma_heads_only(g, max_distance, 0, start, vor_fuel(g));
}

} // verus!
