//! Searches over the board.
use vstd::prelude::*;

use std::collections::VecDeque;

use super::board::BoardModel;
use super::game::{Game, GameMode, GameModel};
use super::point::{has_neighbours, lemma_warp_on_board, spec_neighbour, spec_out_of_bounds, spec_warp};
use super::queue::{insert_all, lemma_insert_all, puts, queue_extend, queue_items, queue_new, queue_pop, PointQueue};
use super::{spec_is_safe, spec_opposite, Board, Direction, Point, Tile};

verus! {

/// What a tile holds in the search: the distance at which it was claimed (255 for never)
/// and the snake that claimed it (255 for nobody).
#[derive(Clone, Copy)]
pub struct VoronoiTile {
    pub distance: u8,
    pub snake: u8,
}

/// A step of the search: snake `snake` reaching point `(x, y)` at `distance`.
#[derive(Clone, Copy)]
pub struct NextTile {
    pub x: i8,
    pub y: i8,
    pub distance: u8,
    pub snake: u8,
}

/// The lengths of the snakes: ours first, then the opponents in order.
pub open spec fn sv_lens(g: GameModel) -> Seq<int> {
    seq![g.you.length] + Seq::new(g.others.len(), |i: int| g.others[i].length)
}

/// Whether `work` claims the tile that holds `cur`: it comes nearer, or as near with a
/// longer snake, or as near to a tile that nobody holds.
pub open spec fn sv_first(lens: Seq<int>, cur: VoronoiTile, work: NextTile) -> bool {
    ||| cur.distance > work.distance
    ||| cur.distance == work.distance && (if cur.snake < lens.len() {
        lens[work.snake as int] > lens[cur.snake as int]
    } else {
        true
    })
}

/// The step that a claim of `work` queues in direction `d`, if any: onto the (wrapped)
/// neighbour when it is safe and its tile was claimed farther than `work`.
pub open spec fn sv_push(g: GameModel, b: Seq<VoronoiTile>, work: NextTile, d: Direction) -> Seq<NextTile> {
    let np0 = spec_neighbour(Point { x: work.x, y: work.y }, d);
    let np = if g.rules.game_mode == GameMode::Wrapped {
        spec_warp(np0, g.board.width as isize, g.board.height as isize)
    } else {
        np0
    };
    let idx = np.x + g.board.width * np.y;
    if 0 <= idx < b.len() && b[idx].distance > work.distance && spec_is_safe(g.board.tile(np)) {
        seq![NextTile { x: np.x, y: np.y, distance: (work.distance + 1) as u8, snake: work.snake }]
    } else {
        Seq::empty()
    }
}

/// The steps a claim of `work` queues in the first `j` directions, in order.
pub open spec fn sv_pushes(g: GameModel, b: Seq<VoronoiTile>, work: NextTile, j: int) -> Seq<NextTile>
    decreases j,
{
    if j <= 0 {
        Seq::empty()
    } else {
        sv_pushes(g, b, work, j - 1) + sv_push(g, b, work, super::voronoi::vor_dir(j - 1))
    }
}

/// The state of the search: the tiles, the queue, and which tiles our snake ever claimed.
pub type SearchState = (Seq<VoronoiTile>, Seq<NextTile>, Seq<bool>);

/// One step of the search: the first queued step claims its tile (as `sv_first` says),
/// marks it as ours when it is ours, and queues its next steps; otherwise it is dropped.
pub open spec fn sv_step(g: GameModel, st: SearchState) -> SearchState {
    let (b, q, was) = st;
    if q.len() == 0 {
        st
    } else {
        let work = q[0];
        let rest = q.subrange(1, q.len() as int);
        let idx = work.x + g.board.width * work.y;
        if sv_first(sv_lens(g), b[idx], work) {
            let b2 = b.update(idx, VoronoiTile { distance: work.distance, snake: work.snake });
            (b2, rest + sv_pushes(g, b2, work, 4), if work.snake == 0 { was.update(idx, true) } else { was })
        } else {
            (b, rest, was)
        }
    }
}

/// The state after `k` steps.
pub open spec fn sv_iter(g: GameModel, st: SearchState, k: nat) -> SearchState
    decreases k,
{
    if k == 0 {
        st
    } else {
        sv_step(g, sv_iter(g, st, (k - 1) as nat))
    }
}

/// The state the search starts from: nothing claimed, every head queued at distance 0,
/// ours first as snake 0, then the opponents from 1 in order.
pub open spec fn sv_start(g: GameModel) -> SearchState {
    let n = (g.board.width * g.board.height) as nat;
    (
        Seq::new(n, |i: int| VoronoiTile { distance: 255, snake: 255 }),
        seq![NextTile { x: g.you.head.x, y: g.you.head.y, distance: 0, snake: 0 }] + Seq::new(
            g.others.len(),
            |i: int| NextTile { x: g.others[i].head.x, y: g.others[i].head.y, distance: 0, snake: (i + 1) as u8 },
        ),
        Seq::new(n, |i: int| false),
    )
}

/// The number of tiles our snake claimed once the search has run out of steps.
pub open spec fn sv_count(g: GameModel) -> int {
    let k = choose|k: nat| sv_iter(g, sv_start(g), k).1.len() == 0;
    count_true(sv_iter(g, sv_start(g), k).2)
}

/// Once nothing is queued, further steps change nothing.
proof fn lemma_sv_done(g: GameModel, st: SearchState, k: nat, m: nat)
    requires
        sv_iter(g, st, k).1.len() == 0,
        k <= m,
    ensures
        sv_iter(g, st, m) == sv_iter(g, st, k),
    decreases m,
{
    if m > k {
        lemma_sv_done(g, st, k, (m - 1) as nat);
    }
}

/// The voronoi search can run: a wrapped board of at most 127 by 127 tiles, at most 254
/// opponents, and every head on the board.
pub open spec fn search_ok(g: GameModel) -> bool {
    &&& g.rules.game_mode == GameMode::Wrapped
    &&& 0 < g.board.width <= 127
    &&& 0 < g.board.height <= 127
    &&& g.others.len() <= 254
    &&& g.board.in_bounds(g.you.head)
    &&& forall|i: int| 0 <= i < g.others.len() ==> g.board.in_bounds(#[trigger] g.others[i].head)
}

/// The number of true entries.
pub open spec fn count_true(s: Seq<bool>) -> int
    decreases s.len(),
{
    if s.len() == 0 {
        0
    } else {
        count_true(s.drop_last()) + if s.last() { 1int } else { 0int }
    }
}

proof fn lemma_count_true_bound(s: Seq<bool>)
    ensures
        0 <= count_true(s) <= s.len(),
    decreases s.len(),
{
    if s.len() > 0 {
        lemma_count_true_bound(s.drop_last());
    }
}

proof fn lemma_count_true_set(s: Seq<bool>, i: int)
    requires
        0 <= i < s.len(),
        !s[i],
    ensures
        count_true(s.update(i, true)) == count_true(s) + 1,
    decreases s.len(),
{
    if i < s.len() - 1 {
        lemma_count_true_set(s.drop_last(), i);
        assert(s.update(i, true).drop_last() =~= s.drop_last().update(i, true));
    } else {
        assert(s.update(i, true).drop_last() =~= s.drop_last());
    }
}

proof fn lemma_count_true_false(n: nat)
    ensures
        count_true(Seq::new(n, |i: int| false)) == 0,
    decreases n,
{
    if n > 0 {
        lemma_count_true_false((n - 1) as nat);
        assert(Seq::new(n, |i: int| false).drop_last() =~= Seq::new((n - 1) as nat, |i: int| false));
    }
}

spec fn tsum(b: Seq<VoronoiTile>, f: spec_fn(VoronoiTile) -> int) -> int
    decreases b.len(),
{
    if b.len() == 0 {
        0
    } else {
        tsum(b.drop_last(), f) + f(b.last())
    }
}

proof fn lemma_tsum_update(b: Seq<VoronoiTile>, i: int, t: VoronoiTile, f: spec_fn(VoronoiTile) -> int)
    requires
        0 <= i < b.len(),
    ensures
        tsum(b.update(i, t), f) == tsum(b, f) - f(b[i]) + f(t),
    decreases b.len(),
{
    if i == b.len() - 1 {
        assert(b.update(i, t).drop_last() =~= b.drop_last());
    } else {
        lemma_tsum_update(b.drop_last(), i, t, f);
        assert(b.update(i, t).drop_last() =~= b.drop_last().update(i, t));
    }
}

proof fn lemma_tsum_nonneg(b: Seq<VoronoiTile>, f: spec_fn(VoronoiTile) -> int)
    requires
        forall|t: VoronoiTile| 0 <= #[trigger] f(t),
    ensures
        0 <= tsum(b, f),
    decreases b.len(),
{
    if b.len() > 0 {
        lemma_tsum_nonneg(b.drop_last(), f);
        assert(0 <= f(b.last()));
    }
}

spec fn dist_fn() -> spec_fn(VoronoiTile) -> int {
    |t: VoronoiTile| t.distance as int
}

/// The length of the snake that holds a tile (0 for nobody).
spec fn owner_len(lens: Seq<usize>, t: VoronoiTile) -> int {
    if t.snake < lens.len() {
        lens[t.snake as int] as int
    } else {
        0
    }
}

spec fn shortness_fn(lens: Seq<usize>) -> spec_fn(VoronoiTile) -> int {
    |t: VoronoiTile| usize::MAX - owner_len(lens, t)
}

/// The state of the search: the tiles, the queue in order of distance (no two queued
/// distances more than one apart), and the tiles our snake claimed, each still held at a
/// distance no farther than anything queued, by a snake at least as long as ours.
spec fn search_inv(
    b: Seq<VoronoiTile>,
    q: Seq<NextTile>,
    was0: Seq<bool>,
    lens: Seq<usize>,
    w: int,
    h: int,
) -> bool {
    &&& b.len() == w * h
    &&& was0.len() == b.len()
    &&& lens.len() >= 1
    &&& forall|k: int| 0 <= k < q.len() ==> (#[trigger] q[k]).snake < lens.len() && 0 <= q[k].x < w && 0 <= q[k].y < h
    &&& forall|i: int, j: int| 0 <= i <= j < q.len() ==> (#[trigger] q[i]).distance <= (#[trigger] q[j]).distance
    &&& q.len() > 0 ==> q.last().distance <= q[0].distance + 1
    &&& forall|t: int, k: int|
        0 <= t < b.len() && 0 <= k < q.len() && #[trigger] was0[t] ==> b[t].distance <= (#[trigger] q[k]).distance
    &&& forall|t: int| 0 <= t < b.len() && #[trigger] was0[t] ==> b[t].snake < lens.len() && owner_len(lens, b[t]) >= lens[0]
    &&& forall|t: int| 0 <= t < b.len() ==> (#[trigger] b[t]).snake < lens.len() || b[t].distance == 255
}

/// The number of tiles our snake reaches first, by a flood from every head at once over
/// safe tiles (a longer snake wins a tie, a tile claimed from us still counts). Our snake
/// is number 0. Our head's tile is always among them.
pub fn voronoi(game: &Game) -> (res: usize)
    requires
        search_ok(game@),
    ensures
        res == sv_count(game@),
        1 <= res <= game@.board.width * game@.board.height,
{
    let mut lens: Vec<usize> = Vec::new();
    lens.push(game.you.length);
    proof {
        assert(game@.you == game.you@);
    }
    let mut i: usize = 0;
    while i < game.others.len()
        invariant
            i <= game@.others.len(),
            lens@.len() == i + 1,
            lens@[0] == game.you.length,
            forall|t: int| 0 <= t < i + 1 ==> #[trigger] lens@[t] as int == sv_lens(game@)[t],
        decreases game@.others.len() - i,
    {
        let ghost l0 = lens@;
        lens.push(game.others[i].length);
        proof {
            assert(game@.others[i as int] == game.others@[i as int]@);
            assert forall|t: int| 0 <= t < i + 2 implies #[trigger] lens@[t] as int == sv_lens(game@)[t] by {
                if t < i + 1 {
                    assert(lens@[t] == l0[t]);
                }
            }
        }
        i += 1;
    }
    let width = game.board.width() as usize;
    let height = game.board.height() as usize;
    proof {
        assert(width * height <= 127 * 127) by (nonlinear_arith)
            requires
                width <= 127,
                height <= 127,
        ;
        let w = width as isize;
        let h = height as isize;
        assert(0 < w <= 127 ==> (w as i8) == w) by (bit_vector);
        assert(0 < h <= 127 ==> (h as i8) == h) by (bit_vector);
    }
    let n = width * height;
    let mut board: Vec<VoronoiTile> = vec![VoronoiTile { distance: 255, snake: 255 }; n];
    let ghost mut was0: Seq<bool> = Seq::new(n as nat, |i: int| false);
    let mut count: usize = 0;
    let mut queue: VecDeque<NextTile> = VecDeque::new();
    queue.push_back(NextTile { x: game.you.head.x, y: game.you.head.y, distance: 0, snake: 0 });
    proof {
        assert(queue@ =~= sv_start(game@).1.subrange(0, 1));
    }
    let mut k: usize = 0;
    while k < game.others.len()
        invariant
            k <= game@.others.len(),
            search_ok(game@),
            lens@.len() == game@.others.len() + 1,
            width == game@.board.width,
            height == game@.board.height,
            queue@.len() == k + 1,
            queue@[0].snake == 0,
            queue@ == sv_start(game@).1.subrange(0, k + 1),
            n == width * height,
            board@.len() == n,
            forall|t: int| 0 <= t < n ==> (#[trigger] board@[t]).distance == 255,
            forall|j: int| 0 <= j < queue@.len() ==> (#[trigger] queue@[j]).distance == 0 && queue@[j].snake < lens@.len()
                && 0 <= queue@[j].x < width && 0 <= queue@[j].y < height,
        decreases game@.others.len() - k,
    {
        let s = &game.others[k];
        proof {
            assert(game@.others[k as int] == s@);
        }
        let ghost qb = queue@;
        let item = NextTile { x: s.head.x, y: s.head.y, distance: 0, snake: k as u8 + 1 };
        queue.push_back(item);
        proof {
            assert(game@.board.in_bounds(game@.others[k as int].head));
            assert forall|j: int| 0 <= j < queue@.len() implies (#[trigger] queue@[j]).distance == 0 && queue@[j].snake
                < lens@.len() && 0 <= queue@[j].x < width && 0 <= queue@[j].y < height by {
                if j < qb.len() {
                    assert(queue@[j] == qb[j]);
                }
            }
            assert(queue@[0] == qb[0]);
            assert(queue@ =~= sv_start(game@).1.subrange(0, k + 2));
        }
        k += 1;
    }
    let ghost mut steps: nat = 0;
    proof {
        assert(queue@ =~= sv_start(game@).1);
        assert(board@ =~= sv_start(game@).0);
        assert(was0 =~= sv_start(game@).2);
    }
    proof {
        lemma_count_true_false(n as nat);
        assert(search_inv(board@, queue@, was0, lens@, width as int, height as int));
        assert(width * queue@[0].y + queue@[0].x < width * height) by (nonlinear_arith)
            requires
                0 <= queue@[0].x < width,
                0 <= queue@[0].y < height,
        ;
    }
    loop
        invariant
            search_ok(game@),
            width == game@.board.width,
            height == game@.board.height,
            n == width * height,
            n <= 127 * 127,
            (width as isize) as i8 == width,
            (height as isize) as i8 == height,
            lens@.len() == game@.others.len() + 1,
            lens@[0] == game.you.length,
            search_inv(board@, queue@, was0, lens@, width as int, height as int),
            count == count_true(was0),
            (board@, queue@, was0) == sv_iter(game@, sv_start(game@), steps),
            forall|t: int| 0 <= t < lens@.len() ==> #[trigger] lens@[t] as int == sv_lens(game@)[t],
            count >= 1 || (queue@.len() > 0 && queue@[0].snake == 0 && queue@[0].distance == 0 && board@[queue@[0].x
                + width * queue@[0].y].distance == 255),
        ensures
            queue@.len() == 0,
        decreases tsum(board@, dist_fn()), tsum(board@, shortness_fn(lens@)), queue@.len(),
    {
        let ghost q0 = queue@;
        let ghost b0 = board@;
        let ghost w0 = was0;
        let ghost a0 = tsum(board@, dist_fn());
        let ghost s0 = tsum(board@, shortness_fn(lens@));
        let work = match queue.pop_front() {
            Some(w) => w,
            None => break,
        };
        proof {
            assert(work == q0[0]);
            assert(queue@ =~= q0.subrange(1, q0.len() as int));
            assert forall|t: VoronoiTile| 0 <= #[trigger] dist_fn()(t) by {}
            assert forall|t: VoronoiTile| 0 <= #[trigger] shortness_fn(lens@)(t) by {}
            lemma_tsum_nonneg(b0, dist_fn());
            lemma_tsum_nonneg(b0, shortness_fn(lens@));
            assert(width * work.y + work.x < width * height) by (nonlinear_arith)
                requires
                    0 <= work.x < width,
                    0 <= work.y < height,
            ;
        }
        let p_idx = work.x as usize + width * work.y as usize;
        proof {
            assert(p_idx == work.x + game@.board.width * work.y);
        }
        let cur = board[p_idx];
        let mut first = false;
        if cur.distance > work.distance {
            first = true;
        } else if cur.distance == work.distance {
            if (cur.snake as usize) < lens.len() {
                if lens[work.snake as usize] > lens[cur.snake as usize] {
                    first = true;
                }
            } else {
                first = true;
            }
        }
        if first {
            let claimed = VoronoiTile { distance: work.distance, snake: work.snake };
            board.set(p_idx, claimed);
            proof {
                lemma_tsum_update(b0, p_idx as int, claimed, dist_fn());
                lemma_tsum_update(b0, p_idx as int, claimed, shortness_fn(lens@));
                if work.snake == 0 && was0[p_idx as int] {
                    assert(b0[p_idx as int].distance <= q0[0].distance);
                    assert(false);
                }
            }
            if work.snake == 0 {
                proof {
                    lemma_count_true_set(was0, p_idx as int);
                    was0 = was0.update(p_idx as int, true);
                    lemma_count_true_bound(was0);
                }
                count += 1;
            }
            proof {
                assert forall|t: int, j: int|
                    0 <= t < board@.len() && 0 <= j < queue@.len() && #[trigger] was0[t] implies board@[t].distance <= (
                    #[trigger] queue@[j]).distance by {
                    assert(queue@[j] == q0[j + 1]);
                    assert(q0[0].distance <= q0[j + 1].distance);
                }
                assert forall|t: int| 0 <= t < board@.len() && #[trigger] was0[t] implies board@[t].snake < lens@.len()
                    && owner_len(lens@, board@[t]) >= lens@[0] by {
                    if t == p_idx {
                        if work.snake != 0 {
                            assert(b0[t].snake < lens@.len());
                        }
                    }
                }
                assert forall|j: int| 0 <= j < queue@.len() implies (#[trigger] queue@[j]).snake < lens@.len() && 0
                    <= queue@[j].x < width && 0 <= queue@[j].y < height by {
                    assert(queue@[j] == q0[j + 1]);
                }
            }
            proof {
                assert forall|t: int| 0 <= t < board@.len() && #[trigger] was0[t] implies board@[t].distance <= q0[0].distance by {
                    if t != p_idx {
                        assert(b0[t].distance <= q0[0].distance);
                    }
                }
            }
            let p = Point { x: work.x, y: work.y };
            let neighbours = p.neighbours();
            let ghost b1 = board@;
            let ghost qa = queue@;
            proof {
                assert forall|k: int| 0 <= k < 4 implies (#[trigger] neighbours@[k]).0 == super::voronoi::vor_dir(k) by {
                    if k == 0 {
                    } else if k == 1 {
                    } else if k == 2 {
                    } else {
                    }
                }
                assert(queue@ =~= qa + sv_pushes(game@, b1, work, 0));
            }
            let mut j: usize = 0;
            while j < 4
                invariant
                    j <= 4,
                    queue@ == qa + sv_pushes(game@, b1, work, j as int),
                    forall|k: int| 0 <= k < 4 ==> (#[trigger] neighbours@[k]).0 == super::voronoi::vor_dir(k),
                    search_ok(game@),
                    width == game@.board.width,
                    height == game@.board.height,
                    n == width * height,
                    n <= 127 * 127,
                    (width as isize) as i8 == width,
                    (height as isize) as i8 == height,
                    lens@.len() == game@.others.len() + 1,
                    board@ == b1,
                    queue@.len() <= qa.len() + j,
                    work.snake < lens@.len(),
                    q0.len() > 0,
                    work.distance == q0[0].distance,
                    work.distance == 255 ==> queue@.len() == qa.len(),
                    forall|t: int| 0 <= t < b1.len() && #[trigger] was0[t] ==> b1[t].distance <= q0[0].distance,
                    0 <= work.x < width,
                    0 <= work.y < height,
                    p == (Point { x: work.x, y: work.y }),
                    forall|k: int| 0 <= k < 4 ==> (#[trigger] neighbours@[k]).1 == spec_neighbour(p, neighbours@[k].0),
                    forall|k: int| 0 <= k < queue@.len() ==> q0[0].distance <= (#[trigger] queue@[k]).distance <= q0[0].distance + 1,
                    forall|a: int, c: int| 0 <= a <= c < queue@.len() ==> (#[trigger] queue@[a]).distance <= (#[trigger] queue@[c]).distance,
                    search_inv(b1, qa, was0, lens@, width as int, height as int) || qa.len() == 0,
                    forall|k: int| 0 <= k < queue@.len() ==> (#[trigger] queue@[k]).snake < lens@.len() && 0 <= queue@[k].x < width
                        && 0 <= queue@[k].y < height,
                    forall|t: int, k: int|
                        0 <= t < b1.len() && 0 <= k < queue@.len() && #[trigger] was0[t] ==> b1[t].distance <= (#[trigger] queue@[k]).distance,
                decreases 4 - j,
            {
                let mut np = neighbours[j].1;
                proof {
                    lemma_warp_on_board(np, width as isize, height as isize);
                }
                game.warp(&mut np);
                proof {
                    assert(!spec_out_of_bounds(np, width as isize, height as isize));
                    assert(width * np.y + np.x < width * height) by (nonlinear_arith)
                        requires
                            0 <= np.x < width,
                            0 <= np.y < height,
                    ;
                }
                let np_idx = np.x as usize + width * np.y as usize;
                let ghost qj = queue@;
                proof {
                    assert(np_idx == np.x + game@.board.width * np.y);
                    assert(game@.board == game.board@);
                }
                if np_idx < board.len() {
                    if board[np_idx].distance > work.distance && game.board.get(&np).is_safe() {
                        let ghost qb = queue@;
                        queue.push_back(NextTile { x: np.x, y: np.y, distance: work.distance + 1, snake: work.snake });
                        proof {
                            assert forall|a: int, c: int| 0 <= a <= c < queue@.len() implies (#[trigger] queue@[a]).distance
                                <= (#[trigger] queue@[c]).distance by {
                                if c < qb.len() {
                                    assert(queue@[a] == qb[a] && queue@[c] == qb[c]);
                                } else if a < qb.len() {
                                    assert(queue@[a] == qb[a]);
                                }
                            }
                            assert forall|t: int, k: int|
                                0 <= t < b1.len() && 0 <= k < queue@.len() && #[trigger] was0[t] implies b1[t].distance <= (
                                #[trigger] queue@[k]).distance by {
                                if k < qb.len() {
                                    assert(queue@[k] == qb[k]);
                                } else {
                                    assert(b1[t].distance <= q0[0].distance);
                                }
                            }
                        }
                    }
                }
                proof {
                    assert(np == spec_warp(spec_neighbour(p, super::voronoi::vor_dir(j as int)), width as isize, height as isize));
                    assert(queue@ =~= qa + sv_pushes(game@, b1, work, j + 1));
                }
                j += 1;
            }
            proof {
                assert(search_inv(board@, queue@, was0, lens@, width as int, height as int)) by {
                    if queue@.len() > 0 {
                        assert(queue@.last().distance <= queue@[0].distance + 1);
                    }
                }
                assert forall|t: VoronoiTile| 0 <= #[trigger] dist_fn()(t) by {}
                assert forall|t: VoronoiTile| 0 <= #[trigger] shortness_fn(lens@)(t) by {}
                lemma_tsum_nonneg(board@, dist_fn());
                lemma_tsum_nonneg(board@, shortness_fn(lens@));
                let a1 = tsum(board@, dist_fn());
                let s1 = tsum(board@, shortness_fn(lens@));
                assert(a1 == a0 - cur.distance + work.distance);
                assert(s1 == s0 - shortness_fn(lens@)(cur) + shortness_fn(lens@)(claimed));
                if cur.distance == work.distance {
                    if (cur.snake as int) < lens@.len() {
                        assert(s1 < s0);
                    } else {
                        assert(b0[p_idx as int] == cur);
                        assert(work.distance == 255);
                    }
                }
                assert(sv_first(sv_lens(game@), b0[p_idx as int], work));
                assert(qa == q0.subrange(1, q0.len() as int));
                assert((board@, queue@, was0) == sv_step(game@, (b0, q0, w0)));
            }
        } else {
            proof {
                assert forall|t: int, j: int|
                    0 <= t < board@.len() && 0 <= j < queue@.len() && #[trigger] was0[t] implies board@[t].distance <= (
                    #[trigger] queue@[j]).distance by {
                    assert(queue@[j] == q0[j + 1]);
                }
                assert forall|j: int| 0 <= j < queue@.len() implies (#[trigger] queue@[j]).snake < lens@.len() && 0
                    <= queue@[j].x < width && 0 <= queue@[j].y < height by {
                    assert(queue@[j] == q0[j + 1]);
                }
                assert forall|a: int, c: int| 0 <= a <= c < queue@.len() implies (#[trigger] queue@[a]).distance <= (
                #[trigger] queue@[c]).distance by {
                    assert(queue@[a] == q0[a + 1] && queue@[c] == q0[c + 1]);
                }
                assert(!sv_first(sv_lens(game@), b0[p_idx as int], work));
                assert((board@, queue@, was0) == sv_step(game@, (b0, q0, w0)));
            }
        }
        proof {
            assert(sv_iter(game@, sv_start(game@), steps + 1) == sv_step(game@, sv_iter(game@, sv_start(game@), steps)));
            steps = steps + 1;
        }
    }
    proof {
        lemma_count_true_bound(was0);
        let k = choose|k: nat| sv_iter(game@, sv_start(game@), k).1.len() == 0;
        assert(sv_iter(game@, sv_start(game@), steps).1.len() == 0);
        if k <= steps {
            lemma_sv_done(game@, sv_start(game@), k, steps);
        } else {
            lemma_sv_done(game@, sv_start(game@), steps, k);
        }
    }
    count
}

/// Whether `q` lies on the grid of distances (as wide as there are rows, as high as the
/// first row is long).
pub open spec fn in_grid(ds: Seq<Vec<Option<i64>>>, q: Point) -> bool {
    ds.len() > 0 && 0 <= q.x < ds.len() && 0 <= q.y < ds[0]@.len()
}

/// The distance recorded for `q`, none off the grid.
pub open spec fn dist_at(ds: Seq<Vec<Option<i64>>>, q: Point) -> Option<i64> {
    if in_grid(ds, q) {
        ds[q.x as int]@[q.y as int]
    } else {
        None
    }
}

/// The grid of distances can be walked: at most 127 by 127 points, every row at least
/// as long as the first.
pub open spec fn grid_ok(ds: Seq<Vec<Option<i64>>>) -> bool {
    &&& ds.len() <= 127
    &&& ds.len() > 0 ==> ds[0]@.len() <= 127
    &&& forall|x: int| 0 <= x < ds.len() ==> (#[trigger] ds[x])@.len() >= ds[0]@.len()
}

/// The `i`-th point of the walk back from `target` along `path`, whose last direction is
/// the step into the target: the target itself, then the point before the last step, and
/// so on.
pub open spec fn walk_point(target: Point, path: Seq<Direction>, i: nat) -> Point
    decreases i,
{
    if i == 0 {
        target
    } else {
        spec_neighbour(walk_point(target, path, (i - 1) as nat), spec_opposite(path[path.len() - i]))
    }
}

/// Whether `q` is among the first `k + 1` points of the walk.
pub open spec fn walked(target: Point, path: Seq<Direction>, k: int, q: Point) -> bool {
    exists|j: int| 0 <= j <= k && #[trigger] walk_point(target, path, j as nat) == q
}

/// A point the walk may step to after its first `k + 1` points: on the grid, with a
/// distance, and not yet walked.
pub open spec fn candidate(ds: Seq<Vec<Option<i64>>>, target: Point, path: Seq<Direction>, k: int, q: Point) -> bool {
    in_grid(ds, q) && dist_at(ds, q) is Some && !walked(target, path, k, q)
}

/// The position of a direction in the order up, down, left, right.
pub open spec fn dir_rank(d: Direction) -> int {
    match d {
        Direction::Up => 0,
        Direction::Down => 1,
        Direction::Left => 2,
        Direction::Right => 3,
    }
}

/// Step `i` of the walk is greedy: it goes to a candidate with the least distance, the
/// first in the order up, down, left, right among those with that distance.
pub open spec fn greedy_step(ds: Seq<Vec<Option<i64>>>, target: Point, path: Seq<Direction>, i: int) -> bool {
    let here = walk_point(target, path, i as nat);
    let next = walk_point(target, path, (i + 1) as nat);
    let d = spec_opposite(path[path.len() - 1 - i]);
    &&& candidate(ds, target, path, i, next)
    &&& forall|e: Direction|
        #![trigger spec_neighbour(here, e)]
        candidate(ds, target, path, i, spec_neighbour(here, e)) ==> (dist_at(ds, next)->0 <= dist_at(
            ds,
            spec_neighbour(here, e),
        )->0 && (dir_rank(e) < dir_rank(d) ==> dist_at(ds, next)->0 < dist_at(ds, spec_neighbour(here, e))->0))
}

/// The walk is stuck at its `k`-th point: no neighbour is a candidate.
pub open spec fn stuck(ds: Seq<Vec<Option<i64>>>, target: Point, path: Seq<Direction>, k: int) -> bool {
    forall|e: Direction|
        #![trigger spec_neighbour(walk_point(target, path, k as nat), e)]
        !candidate(ds, target, path, k, spec_neighbour(walk_point(target, path, k as nat), e))
}

/// The place of a point of the grid in a numbering of the 128 by 128 points.
pub open spec fn grid_index(q: Point) -> int {
    q.x * 128 + q.y
}

proof fn lemma_walk_prepend(target: Point, path: Seq<Direction>, d: Direction)
    ensures
        forall|i: nat|
            i <= path.len() ==> #[trigger] walk_point(target, seq![d] + path, i) == walk_point(target, path, i),
{
    assert forall|i: nat| i <= path.len() implies #[trigger] walk_point(target, seq![d] + path, i) == walk_point(
        target,
        path,
        i,
    ) by {
        lemma_walk_prepend_at(target, path, d, i);
    }
}

proof fn lemma_walk_prepend_at(target: Point, path: Seq<Direction>, d: Direction, i: nat)
    requires
        i <= path.len(),
    ensures
        walk_point(target, seq![d] + path, i) == walk_point(target, path, i),
    decreases i,
{
    if i > 0 {
        lemma_walk_prepend_at(target, path, d, (i - 1) as nat);
        assert((seq![d] + path)[(path.len() + 1) - i] == path[path.len() - i]);
    }
}

/// The walk's points up to `k` and the candidates after them stay the same when a step is
/// put in front of the path.
proof fn lemma_candidate_prepend(ds: Seq<Vec<Option<i64>>>, target: Point, path: Seq<Direction>, d: Direction, k: int)
    requires
        0 <= k <= path.len(),
    ensures
        forall|q: Point| #[trigger] walked(target, seq![d] + path, k, q) == walked(target, path, k, q),
        forall|q: Point| #[trigger] candidate(ds, target, seq![d] + path, k, q) == candidate(ds, target, path, k, q),
{
    lemma_walk_prepend(target, path, d);
    assert forall|q: Point| #[trigger] walked(target, seq![d] + path, k, q) == walked(target, path, k, q) by {
        if walked(target, seq![d] + path, k, q) {
            let j = choose|j: int| 0 <= j <= k && #[trigger] walk_point(target, seq![d] + path, j as nat) == q;
            assert(walk_point(target, path, j as nat) == q);
        }
        if walked(target, path, k, q) {
            let j = choose|j: int| 0 <= j <= k && #[trigger] walk_point(target, path, j as nat) == q;
            assert(walk_point(target, seq![d] + path, j as nat) == q);
        }
    }
}

proof fn lemma_greedy_prepend(ds: Seq<Vec<Option<i64>>>, target: Point, path: Seq<Direction>, d: Direction, i: int)
    requires
        0 <= i < path.len(),
        greedy_step(ds, target, path, i),
    ensures
        greedy_step(ds, target, seq![d] + path, i),
{
    lemma_walk_prepend(target, path, d);
    lemma_candidate_prepend(ds, target, path, d, i);
    let np = seq![d] + path;
    assert(np[np.len() - 1 - i] == path[path.len() - 1 - i]);
    assert(walk_point(target, np, i as nat) == walk_point(target, path, i as nat));
    assert(walk_point(target, np, (i + 1) as nat) == walk_point(target, path, (i + 1) as nat));
}

proof fn lemma_wall_mark()
    ensures
        super::board::decode(super::board::encode(Tile::Wall)) == Tile::Hazard(3),
{
    assert((3u8 << 2u8) == 12u8 && (12u8 & 3u8) == 0u8 && ((12u8 & 12u8) >> 2u8) == 3u8) by (bit_vector);
}

/// What entering a point costs the food search: 1 for a safe tile, 9999999 otherwise.
pub open spec fn entry_cost(b: BoardModel, k: (i8, i8)) -> int {
    if spec_is_safe(b.tile(Point { x: k.0, y: k.1 })) {
        1
    } else {
        9999999
    }
}

/// Whether a point, given by its coordinates, lies on the board.
pub open spec fn on_board(b: BoardModel, k: (i8, i8)) -> bool {
    0 <= k.0 < b.width && 0 <= k.1 < b.height
}

/// The distance recorded for a point of the board.
pub open spec fn dist_of(ds: Seq<Vec<Option<i64>>>, k: (i8, i8)) -> Option<i64> {
    ds[k.0 as int]@[k.1 as int]
}

/// A grid of distances of `w` columns of `h` points each.
pub open spec fn shaped(ds: Seq<Vec<Option<i64>>>, w: int, h: int) -> bool {
    ds.len() == w && forall|x: int| 0 <= x < w ==> (#[trigger] ds[x])@.len() == h
}

/// The coordinates of the neighbour of a point in a direction.
pub open spec fn step(k: (i8, i8), d: Direction) -> (i8, i8) {
    let n = spec_neighbour(Point { x: k.0, y: k.1 }, d);
    (n.x, n.y)
}

/// Every neighbour on the board of a point with a distance has a distance too: the
/// search reached all it could.
pub open spec fn closed(b: BoardModel, ds: Seq<Vec<Option<i64>>>) -> bool {
    forall|k: (i8, i8), d: Direction|
        on_board(b, k) && dist_of(ds, k) is Some && on_board(b, #[trigger] step(k, d)) ==> dist_of(ds, step(k, d)) is Some
}

/// Whether one of the neighbours of `k` on the board has a distance.
pub open spec fn next_to_reached(b: BoardModel, ds: Seq<Vec<Option<i64>>>, k: (i8, i8)) -> bool {
    exists|d: Direction| on_board(b, #[trigger] step(k, d)) && dist_of(ds, step(k, d)) is Some
}

proof fn lemma_step_back(k: (i8, i8), d: Direction)
    requires
        0 <= k.0 < 127,
        0 <= k.1 < 127,
    ensures
        step(step(k, d), crate::logic::spec_opposite(d)) == k,
{
}

/// A food tile has a distance: the search stopped there.
pub open spec fn reached_food(b: BoardModel, ds: Seq<Vec<Option<i64>>>) -> bool {
    exists|k: (i8, i8)| on_board(b, k) && #[trigger] dist_of(ds, k) is Some && b.tile(Point { x: k.0, y: k.1 }) == Tile::Food
}

/// What `calculate_distances` promises of the grid it returns for a search from `p`: it
/// has the board's shape, `p` is at 0, every distance is between 0 and a bound, every
/// other point with a distance lies next to one with a distance and costs at least its own
/// entry cost, and unless the search stopped at food it reached every point it could.
pub open spec fn distances_ok(b: BoardModel, p: (i8, i8), ds: Seq<Vec<Option<i64>>>) -> bool {
    &&& shaped(ds, b.width, b.height)
    &&& dist_of(ds, p) == Some(0i64)
    &&& forall|k: (i8, i8)|
        on_board(b, k) && #[trigger] dist_of(ds, k) is Some ==> 0 <= dist_of(ds, k)->0 <= 9999999 * 80650
    &&& forall|k: (i8, i8)|
        on_board(b, k) && k != p && #[trigger] dist_of(ds, k) is Some ==> dist_of(ds, k)->0 >= entry_cost(b, k)
            && next_to_reached(b, ds, k)
    &&& reached_food(b, ds) || closed(b, ds)
}

/// The bookkeeping of the cheapest-path search over a board `b` from `src`: the queue
/// costs (priorities negated) lie between the last cost taken `c` and `c` plus the
/// largest entry cost, a reached point's distance is at most `c` plus its entry cost, a
/// queued reached point is unsafe and queued below its distance, the unreached points
/// next to reached ones are queued, and `unreached` holds exactly the unreached points.
spec fn dist_search_inv(
    b: BoardModel,
    src: (i8, i8),
    ds: Seq<Vec<Option<i64>>>,
    q: Map<(i8, i8), i64>,
    c: int,
    unreached: Set<(i8, i8)>,
) -> bool {
    &&& shaped(ds, b.width, b.height)
    &&& q.dom().finite()
    &&& unreached.finite()
    &&& 0 <= c
    &&& forall|k: (i8, i8)| #[trigger] q.contains_key(k) ==> c <= -q[k] <= c + 9999999
    &&& forall|k: (i8, i8)|
        on_board(b, k) && #[trigger] dist_of(ds, k) is Some ==> 0 <= dist_of(ds, k)->0 <= c + entry_cost(b, k)
    &&& forall|k: (i8, i8)|
        on_board(b, k) && k != src && #[trigger] dist_of(ds, k) is Some ==> dist_of(ds, k)->0 >= entry_cost(b, k)
            && next_to_reached(b, ds, k)
    &&& forall|k: (i8, i8)| #[trigger] q.contains_key(k) && on_board(b, k) ==> next_to_reached(b, ds, k)
    &&& b.width <= 127 && b.height <= 127
    &&& forall|k: (i8, i8)|
        #[trigger] q.contains_key(k) && on_board(b, k) && dist_of(ds, k) is Some ==> entry_cost(b, k) == 9999999
            && -q[k] < dist_of(ds, k)->0
    &&& forall|k: (i8, i8), d: Direction|
        on_board(b, k) && dist_of(ds, k) is Some && on_board(b, #[trigger] step(k, d)) && dist_of(ds, step(k, d))
            is None ==> q.contains_key(step(k, d))
    &&& forall|k: (i8, i8)| #[trigger] unreached.contains(k) <==> (on_board(b, k) && dist_of(ds, k) is None)
    &&& on_board(b, src) && dist_of(ds, src) == Some(0i64) && !q.contains_key(src)
}

/// The direction at a place in the order up, down, left, right.
spec fn dir_at(m: int) -> Direction {
    if m == 0 {
        Direction::Up
    } else if m == 1 {
        Direction::Down
    } else if m == 2 {
        Direction::Left
    } else {
        Direction::Right
    }
}

/// The grid after the point `k` gets the distance `v`.
spec fn grid_set(d_old: Seq<Vec<Option<i64>>>, d_new: Seq<Vec<Option<i64>>>, k: (i8, i8), v: Option<i64>) -> bool {
    &&& d_new.len() == d_old.len()
    &&& d_new[k.0 as int]@ == d_old[k.0 as int]@.update(k.1 as int, v)
    &&& forall|i: int| 0 <= i < d_old.len() && i != k.0 ==> #[trigger] d_new[i] == d_old[i]
}

proof fn lemma_grid_set(
    b: BoardModel,
    d_old: Seq<Vec<Option<i64>>>,
    d_new: Seq<Vec<Option<i64>>>,
    k: (i8, i8),
    v: Option<i64>,
)
    requires
        shaped(d_old, b.width, b.height),
        on_board(b, k),
        grid_set(d_old, d_new, k, v),
    ensures
        shaped(d_new, b.width, b.height),
        dist_of(d_new, k) == v,
        forall|j: (i8, i8)| on_board(b, j) && j != k ==> #[trigger] dist_of(d_new, j) == dist_of(d_old, j),
{
    assert forall|x: int| 0 <= x < b.width implies (#[trigger] d_new[x])@.len() == b.height by {
        if x != k.0 {
            assert(d_new[x] == d_old[x]);
        }
    }
    assert forall|j: (i8, i8)| on_board(b, j) && j != k implies #[trigger] dist_of(d_new, j) == dist_of(d_old, j) by {
        if j.0 != k.0 {
            assert(d_new[j.0 as int] == d_old[j.0 as int]);
        }
    }
}

/// Taking a point off the board from the queue keeps the bookkeeping and shrinks the
/// queue.
proof fn lemma_pop_off_board(
    b: BoardModel,
    src: (i8, i8),
    ds: Seq<Vec<Option<i64>>>,
    q: Map<(i8, i8), i64>,
    c: int,
    u: Set<(i8, i8)>,
    next: (i8, i8),
)
    requires
        dist_search_inv(b, src, ds, q, c, u),
        q.contains_key(next),
        forall|k: (i8, i8)| #[trigger] q.contains_key(k) ==> q[k] <= q[next],
        !on_board(b, next),
    ensures
        dist_search_inv(b, src, ds, q.remove(next), -q[next], u),
        q.remove(next).dom().len() + 5 * u.len() < q.dom().len() + 5 * u.len(),
        c <= -q[next] <= c + 9999999,
{
    let q1 = q.remove(next);
    assert(q1.dom() =~= q.dom().remove(next));
    assert forall|k: (i8, i8), d: Direction|
        on_board(b, k) && dist_of(ds, k) is Some && on_board(b, #[trigger] step(k, d)) && dist_of(ds, step(k, d)) is None
        implies q1.contains_key(step(k, d)) by {
        assert(q.contains_key(step(k, d)));
    }
}

/// Taking a point of the board from the queue, giving it its distance and queueing the
/// neighbours that `items` holds keeps the bookkeeping and shrinks the measure.
proof fn lemma_settle(
    b: BoardModel,
    src: (i8, i8),
    d_old: Seq<Vec<Option<i64>>>,
    d_new: Seq<Vec<Option<i64>>>,
    q: Map<(i8, i8), i64>,
    c: int,
    u_old: Set<(i8, i8)>,
    u_new: Set<(i8, i8)>,
    next: (i8, i8),
    items: Seq<((i8, i8), i64)>,
)
    requires
        dist_search_inv(b, src, d_old, q, c, u_old),
        c + 2 * 9999999 <= i64::MAX,
        q.contains_key(next),
        forall|k: (i8, i8)| #[trigger] q.contains_key(k) ==> q[k] <= q[next],
        on_board(b, next),
        grid_set(d_old, d_new, next, Some((-q[next] + entry_cost(b, next)) as i64)),
        u_new == (if dist_of(d_old, next) is None {
            u_old.remove(next)
        } else {
            u_old
        }),
        items.len() <= 4,
        forall|t: int|
            0 <= t < items.len() ==> (#[trigger] items[t]).1 == q[next] - entry_cost(b, next) && on_board(b, items[t].0)
                && (exists|d: Direction| items[t].0 == #[trigger] step(next, d)) && (dist_of(d_new, items[t].0) is None
                || dist_of(d_new, items[t].0)->0 > -q[next] + entry_cost(b, next)),
        forall|d: Direction|
            on_board(b, #[trigger] step(next, d)) && (dist_of(d_new, step(next, d)) is None || dist_of(
                d_new,
                step(next, d),
            )->0 > -q[next] + entry_cost(b, next)) ==> puts(items, step(next, d)),
    ensures
        dist_search_inv(b, src, d_new, insert_all(q.remove(next), items), -q[next], u_new),
        insert_all(q.remove(next), items).dom().len() + 5 * u_new.len() < q.dom().len() + 5 * u_old.len(),
        c <= -q[next] <= c + 9999999,
{
    let cs = -q[next];
    let v = entry_cost(b, next);
    let ctp = cs + v;
    let q1 = q.remove(next);
    assert(q1.dom() =~= q.dom().remove(next));
    lemma_grid_set(b, d_old, d_new, next, Some(ctp as i64));
    lemma_insert_all(q1, items, (q[next] - v) as i64);
    let qn = insert_all(q1, items);
    // The items are neighbours of `next`, so never `next` itself.
    assert forall|t: int| 0 <= t < items.len() implies (#[trigger] items[t]).0 != next by {
        let d = choose|d: Direction| items[t].0 == #[trigger] step(next, d);
    }
    assert forall|k: (i8, i8)| puts(items, k) implies k != next && on_board(b, k) && (dist_of(d_new, k) is None
        || dist_of(d_new, k)->0 > ctp) by {
        let t = choose|t: int| 0 <= t < items.len() && #[trigger] items[t].0 == k;
        assert(items[t].0 != next);
    }
    assert forall|k: (i8, i8)| #[trigger] qn.contains_key(k) implies cs <= -qn[k] <= cs + 9999999 by {
        if !puts(items, k) {
            assert(q.contains_key(k));
        }
    }
    assert forall|k: (i8, i8)| on_board(b, k) && #[trigger] dist_of(d_new, k) is Some implies 0 <= dist_of(d_new, k)->0
        <= cs + entry_cost(b, k) by {
        if k != next {
            assert(dist_of(d_new, k) == dist_of(d_old, k));
        }
    }
    assert forall|k: (i8, i8)| #[trigger] qn.contains_key(k) && on_board(b, k) && dist_of(d_new, k) is Some implies entry_cost(
        b,
        k,
    ) == 9999999 && -qn[k] < dist_of(d_new, k)->0 by {
        if puts(items, k) {
            assert(dist_of(d_new, k) == dist_of(d_old, k));
        } else {
            assert(q.contains_key(k));
            assert(k != next);
            assert(dist_of(d_new, k) == dist_of(d_old, k));
        }
    }
    assert forall|k: (i8, i8), d: Direction|
        on_board(b, k) && dist_of(d_new, k) is Some && on_board(b, #[trigger] step(k, d)) && dist_of(d_new, step(k, d))
            is None implies qn.contains_key(step(k, d)) by {
        if k == next {
            assert(puts(items, step(next, d)));
        } else {
            assert(dist_of(d_new, k) == dist_of(d_old, k));
            assert(step(k, d) != next);
            assert(dist_of(d_new, step(k, d)) == dist_of(d_old, step(k, d)));
            assert(q.contains_key(step(k, d)));
        }
    }
    assert forall|k: (i8, i8)| #[trigger] u_new.contains(k) <==> (on_board(b, k) && dist_of(d_new, k) is None) by {
        if k != next && on_board(b, k) {
            assert(dist_of(d_new, k) == dist_of(d_old, k));
        }
    }
    assert(dist_of(d_new, src) == Some(0i64)) by {
        assert(src != next);
    }
    assert(!qn.contains_key(src)) by {
        if puts(items, src) {
            assert(dist_of(d_new, src) == Some(0i64));
        }
    }
    assert forall|k: (i8, i8)| #[trigger] qn.contains_key(k) && on_board(b, k) implies next_to_reached(b, d_new, k) by {
        if puts(items, k) {
            let t = choose|t: int| 0 <= t < items.len() && #[trigger] items[t].0 == k;
            let d = choose|d: Direction| items[t].0 == #[trigger] step(next, d);
            lemma_step_back(next, d);
            let e = crate::logic::spec_opposite(d);
            assert(step(k, e) == next);
            assert(on_board(b, step(k, e)) && dist_of(d_new, step(k, e)) is Some);
        } else {
            assert(q.contains_key(k));
            let d0 = choose|d: Direction| on_board(b, #[trigger] step(k, d)) && dist_of(d_old, step(k, d)) is Some;
            if step(k, d0) != next {
                assert(dist_of(d_new, step(k, d0)) == dist_of(d_old, step(k, d0)));
            }
            assert(on_board(b, step(k, d0)) && dist_of(d_new, step(k, d0)) is Some);
        }
    }
    assert forall|k: (i8, i8)| on_board(b, k) && k != src && #[trigger] dist_of(d_new, k) is Some implies dist_of(d_new, k)->0
        >= entry_cost(b, k) && next_to_reached(b, d_new, k) by {
        if k != next {
            assert(dist_of(d_new, k) == dist_of(d_old, k));
        }
        assert(next_to_reached(b, d_old, k));
        let d0 = choose|d: Direction| on_board(b, #[trigger] step(k, d)) && dist_of(d_old, step(k, d)) is Some;
        if step(k, d0) != next {
            assert(dist_of(d_new, step(k, d0)) == dist_of(d_old, step(k, d0)));
        }
        assert(on_board(b, step(k, d0)) && dist_of(d_new, step(k, d0)) is Some);
    }
    // The measure: a point reached for the first time pays for the at most four items
    // it queues; one reached before queues only unreached points, which are queued
    // already.
    if dist_of(d_old, next) is None {
        assert(u_old.contains(next));
        assert(u_new.len() == u_old.len() - 1);
        assert(q1.dom().len() == q.dom().len() - 1);
    } else {
        assert(v == 9999999);
        assert forall|i: int| 0 <= i < items.len() implies q1.contains_key(#[trigger] items[i].0) by {
            let k = items[i].0;
            let d = choose|d: Direction| items[i].0 == #[trigger] step(next, d);
            assert(puts(items, k));
            if dist_of(d_new, k) is Some {
                assert(dist_of(d_new, k) == dist_of(d_old, k));
            }
            assert(dist_of(d_new, k) is None);
            assert(dist_of(d_old, k) is None);
            assert(q.contains_key(step(next, d)));
        }
    }
}

fn set_dist(ds: &mut Vec<Vec<Option<i64>>>, x: usize, y: usize, v: Option<i64>)
    requires
        x < old(ds)@.len(),
        y < old(ds)@[x as int]@.len(),
    ensures
        final(ds)@.len() == old(ds)@.len(),
        final(ds)@[x as int]@ == old(ds)@[x as int]@.update(y as int, v),
        forall|i: int| 0 <= i < old(ds)@.len() && i != x ==> final(ds)@[i] == old(ds)@[i],
{
    let mut row: Vec<Option<i64>> = Vec::new();
    std::mem::swap(&mut row, &mut ds[x]);
    row.set(y, v);
    std::mem::swap(&mut row, &mut ds[x]);
}

/// The cost of the cheapest way found from `p` to each point of the board, entering a safe
/// tile for 1 and any other tile for 9999999, `p` itself at 0: points are taken cheapest
/// first from a priority queue, each given the cost it was queued with plus its own entry
/// cost, and its neighbours on the board are queued at that cost unless they have a
/// distance no higher already. The search stops when it takes a food tile. Points it did
/// not reach have no distance; unless it stopped at food, it reached every point it could.
pub fn calculate_distances(board: &Board, p: &Point) -> (res: Vec<Vec<Option<i64>>>)
    requires
        board@.width <= 127,
        board@.height <= 127,
        on_board(board@, (p.x, p.y)),
    ensures
        distances_ok(board@, (p.x, p.y), res@),
{
    let ghost b = board@;
    let w = board.width() as usize;
    let h = board.height() as usize;
    let mut distances: Vec<Vec<Option<i64>>> = Vec::new();
    let ghost mut unreached: Set<(i8, i8)> = Set::empty();
    let mut i: usize = 0;
    while i < w
        invariant
            i <= w,
            w == b.width,
            h == b.height,
            w <= 127,
            h <= 127,
            distances@.len() == i,
            forall|x: int| 0 <= x < i ==> (#[trigger] distances@[x])@.len() == h,
            forall|x: int, y: int| 0 <= x < i && 0 <= y < h ==> #[trigger] distances@[x]@[y] is None,
            unreached.finite(),
            unreached.len() == i * h,
            forall|k: (i8, i8)| #[trigger] unreached.contains(k) <==> (0 <= k.0 < i && 0 <= k.1 < h),
        decreases w - i,
    {
        let mut row: Vec<Option<i64>> = Vec::new();
        let mut j: usize = 0;
        while j < h
            invariant
                j <= h,
                i < w,
                w <= 127,
                h <= 127,
                row@.len() == j,
                forall|y: int| 0 <= y < j ==> row@[y] is None,
                unreached.finite(),
                unreached.len() == i * h + j,
                forall|k: (i8, i8)|
                    #[trigger] unreached.contains(k) <==> ((0 <= k.0 < i && 0 <= k.1 < h) || (k.0 == i && 0 <= k.1 < j)),
            decreases h - j,
        {
            row.push(None);
            proof {
                assert(!unreached.contains((i as i8, j as i8)));
                unreached = unreached.insert((i as i8, j as i8));
            }
            j += 1;
        }
        distances.push(row);
        proof {
            assert(unreached.len() == (i + 1) * h) by (nonlinear_arith)
                requires
                    unreached.len() == i * h + h,
            ;
        }
        i += 1;
    }
    let (px, py) = (p.x as usize, p.y as usize);
    set_dist(&mut distances, px, py, Some(0));
    proof {
        unreached = unreached.remove((p.x, p.y));
    }
    let mut q = queue_new();
    let nbrs = p.neighbours();
    let mut start_items: Vec<((i8, i8), i64)> = Vec::new();
    let mut k: usize = 0;
    while k < 4
        invariant
            k <= 4,
            start_items@.len() == k,
            forall|j: int| 0 <= j < k ==> (#[trigger] start_items@[j]).1 == 0,
            forall|j: int| 0 <= j < k ==> (#[trigger] start_items@[j]).0 == (nbrs@[j].1.x, nbrs@[j].1.y),
        decreases 4 - k,
    {
        let (_, n) = nbrs[k];
        start_items.push(((n.x, n.y), 0));
        k += 1;
    }
    let ghost src: (i8, i8) = (p.x, p.y);
    proof {
        lemma_insert_all(queue_items(q), start_items@, 0);
    }
    let ghost q0 = queue_items(q);
    queue_extend(&mut q, start_items);
    let ghost mut c: int = 0;
    let ghost mut steps: int = 0;
    proof {
        assert forall|j: int| 0 <= j < 4 implies (#[trigger] start_items@[j]).0 != src by {
            assert(nbrs@[j].1 == spec_neighbour(*p, dir_at(j)));
        }
        assert(q0 =~= Map::<(i8, i8), i64>::empty());
        let qs = queue_items(q);
        assert forall|k: (i8, i8)| #[trigger] qs.contains_key(k) implies 0 <= -qs[k] <= 9999999 by {
            assert(puts(start_items@, k));
        }
        assert(!qs.contains_key(src)) by {
            if puts(start_items@, src) {
                let t = choose|t: int| 0 <= t < start_items@.len() && #[trigger] start_items@[t].0 == src;
            }
        }
        assert forall|k: (i8, i8)| #[trigger] qs.contains_key(k) && on_board(b, k) implies next_to_reached(b, distances@, k) by {
            let t = choose|t: int| 0 <= t < start_items@.len() && #[trigger] start_items@[t].0 == k;
            let d = dir_at(t);
            assert(nbrs@[t].1 == spec_neighbour(*p, d));
            assert(k == step(src, d));
            lemma_step_back(src, d);
            assert(step(k, crate::logic::spec_opposite(d)) == src);
        }
        assert forall|k: (i8, i8), d: Direction|
            on_board(b, k) && dist_of(distances@, k) is Some && on_board(b, #[trigger] step(k, d)) && dist_of(
                distances@,
                step(k, d),
            ) is None implies qs.contains_key(step(k, d)) by {
            assert(k == src);
            let t: int = match d {
                Direction::Up => 0,
                Direction::Down => 1,
                Direction::Left => 2,
                Direction::Right => 3,
            };
            assert(start_items@[t].0 == step(k, d));
        }
        assert(unreached.len() == w * h - 1);
        assert(w * h <= 127 * 127) by (nonlinear_arith)
            requires
                w <= 127,
                h <= 127,
        ;
    }
    let ghost phi0: int = (queue_items(q).dom().len() + 5 * unreached.len()) as int;
    loop
        invariant_except_break
            dist_search_inv(b, src, distances@, queue_items(q), c, unreached),
            steps + queue_items(q).dom().len() + 5 * unreached.len() <= phi0,
            c <= 9999999 * steps,
            0 <= steps,
        invariant
            b == board@,
            w == b.width,
            h == b.height,
            w <= 127,
            h <= 127,
            src == (p.x, p.y),
            phi0 <= 4 + 5 * 127 * 127,
        ensures
            distances_ok(b, src, distances@),
        decreases queue_items(q).dom().len() + 5 * unreached.len(),
    {
        let ghost q_old = queue_items(q);
        let ghost d_old = distances@;
        let popped = queue_pop(&mut q);
        match popped {
            None => {
                proof {
                    assert forall|k: (i8, i8), d: Direction|
                        on_board(b, k) && dist_of(distances@, k) is Some && on_board(b, #[trigger] step(k, d)) implies dist_of(
                        distances@,
                        step(k, d),
                    ) is Some by {
                        if dist_of(distances@, step(k, d)) is None {
                            assert(q_old.contains_key(step(k, d)));
                            assert(q_old.dom().contains(step(k, d)));
                        }
                    }
                }
                break;
            },
            Some(pair) => {
                let next = pair.0;
                let neg = pair.1;
                let ghost c_old = c;
                proof {
                    assert(q_old.contains_key(next));
                    assert(c <= -neg <= c + 9999999);
                    steps = steps + 1;
                    c = -neg;
                }
                let cost_so_far: i64 = -neg;
                if next.0 < 0 || next.1 < 0 {
                    proof {
                        lemma_pop_off_board(b, src, d_old, q_old, c_old, unreached, next);
                    }
                    continue;
                }
                let (x, y) = (next.0 as usize, next.1 as usize);
                if x >= distances.len() || y >= distances[x].len() {
                    proof {
                        lemma_pop_off_board(b, src, d_old, q_old, c_old, unreached, next);
                    }
                    continue;
                }
                let np = Point { x: next.0, y: next.1 };
                let tile = board.get(&np);
                let value: i64 = if tile.is_safe() {
                    1
                } else {
                    9999999
                };
                let ghost u_old = unreached;
                set_dist(&mut distances, x, y, Some(value + cost_so_far));
                proof {
                    if dist_of(d_old, next) is None {
                        unreached = unreached.remove(next);
                    }
                    lemma_grid_set(b, d_old, distances@, next, Some((value + cost_so_far) as i64));
                    assert forall|k: (i8, i8)| on_board(b, k) && #[trigger] dist_of(distances@, k) is Some implies 0 <= dist_of(
                        distances@,
                        k,
                    )->0 <= 9999999 * 80650 by {
                        if k != next {
                            assert(dist_of(distances@, k) == dist_of(d_old, k));
                        }
                    }
                    assert(dist_of(distances@, src) == Some(0i64)) by {
                        assert(src != next);
                    }
                }
                if tile == Tile::Food {
                    proof {
                        assert(dist_of(distances@, next) is Some);
                    }
                    break;
                }
                let cost_to_p = cost_so_far + value;
                let nb = np.neighbours();
                let mut items: Vec<((i8, i8), i64)> = Vec::new();
                let mut j: usize = 0;
                while j < 4
                    invariant
                        j <= 4,
                        0 <= cost_to_p,
                        b == board@,
                        shaped(distances@, b.width, b.height),
                        nb@[0] == (Direction::Up, spec_neighbour(np, Direction::Up)),
                        nb@[1] == (Direction::Down, spec_neighbour(np, Direction::Down)),
                        nb@[2] == (Direction::Left, spec_neighbour(np, Direction::Left)),
                        nb@[3] == (Direction::Right, spec_neighbour(np, Direction::Right)),
                        np == (Point { x: next.0, y: next.1 }),
                        items@.len() <= j,
                        forall|t: int|
                            0 <= t < items@.len() ==> (#[trigger] items@[t]).1 == -cost_to_p && on_board(b, items@[t].0)
                                && (exists|m: int| 0 <= m < j && items@[t].0 == step(next, #[trigger] dir_at(m))) && (
                            dist_of(distances@, items@[t].0) is None || dist_of(distances@, items@[t].0)->0 > cost_to_p),
                        forall|m: int|
                            0 <= m < j && on_board(b, step(next, #[trigger] dir_at(m))) && (dist_of(
                                distances@,
                                step(next, dir_at(m)),
                            ) is None || dist_of(distances@, step(next, dir_at(m)))->0 > cost_to_p) ==> puts(
                                items@,
                                step(next, dir_at(m)),
                            ),
                    decreases 4 - j,
                {
                    let (_, n) = nb[j];
                    let ghost items0 = items@;
                    proof {
                        assert(nb@[j as int].1 == spec_neighbour(np, dir_at(j as int)));
                        assert((n.x, n.y) == step(next, dir_at(j as int)));
                    }
                    if n.x >= 0 && n.y >= 0 && (n.x as isize) < board.width() && (n.y as isize) < board.height() {
                        proof {
                            assert(distances@[n.x as int]@.len() == b.height);
                        }
                        match distances[n.x as usize][n.y as usize] {
                            Some(d) => {
                                if d > cost_to_p {
                                    items.push(((n.x, n.y), -cost_to_p));
                                }
                            },
                            None => {
                                items.push(((n.x, n.y), -cost_to_p));
                            },
                        }
                    }
                    proof {
                        assert forall|t: int|
                            0 <= t < items@.len() implies (#[trigger] items@[t]).1 == -cost_to_p && on_board(b, items@[t].0)
                                && (exists|m: int| 0 <= m < j + 1 && items@[t].0 == step(next, #[trigger] dir_at(m))) && (
                            dist_of(distances@, items@[t].0) is None || dist_of(distances@, items@[t].0)->0 > cost_to_p) by {
                            if t < items0.len() {
                                assert(items@[t] == items0[t]);
                            } else {
                                assert(items@[t].0 == step(next, dir_at(j as int)));
                            }
                        }
                        assert forall|m: int|
                            0 <= m < j + 1 && on_board(b, step(next, #[trigger] dir_at(m))) && (dist_of(
                                distances@,
                                step(next, dir_at(m)),
                            ) is None || dist_of(distances@, step(next, dir_at(m)))->0 > cost_to_p) implies puts(
                            items@,
                            step(next, dir_at(m)),
                        ) by {
                            if m < j {
                                let t = choose|t: int| 0 <= t < items0.len() && #[trigger] items0[t].0 == step(next, dir_at(m));
                                assert(items@[t] == items0[t]);
                            } else {
                                assert(items@[items@.len() - 1].0 == step(next, dir_at(m)));
                            }
                        }
                    }
                    j += 1;
                }
                proof {
                    assert forall|t: int| 0 <= t < items@.len() implies (exists|d: Direction| (#[trigger] items@[t]).0 == #[trigger] step(next, d)) by {
                        let m = choose|m: int| 0 <= m < 4 && items@[t].0 == step(next, #[trigger] dir_at(m));
                        assert(items@[t].0 == step(next, dir_at(m)));
                    }
                    assert forall|d: Direction|
                        on_board(b, #[trigger] step(next, d)) && (dist_of(distances@, step(next, d)) is None || dist_of(
                            distances@,
                            step(next, d),
                        )->0 > cost_to_p) implies puts(items@, step(next, d)) by {
                        let m: int = match d {
                            Direction::Up => 0,
                            Direction::Down => 1,
                            Direction::Left => 2,
                            Direction::Right => 3,
                        };
                        assert(dir_at(m) == d);
                    }
                    lemma_settle(b, src, d_old, distances@, q_old, c_old, u_old, unreached, next, items@);
                }
                queue_extend(&mut q, items);
            },
        }
    }
    distances
}

/// Where following `path` from `p`, one step per direction, arrives.
pub open spec fn follow(p: Point, path: Seq<Direction>) -> Point
    decreases path.len(),
{
    if path.len() == 0 {
        p
    } else {
        follow(spec_neighbour(p, path[0]), path.drop_first())
    }
}

proof fn lemma_walk_drop_first(target: Point, path: Seq<Direction>, i: nat)
    requires
        0 < path.len(),
        i < path.len(),
    ensures
        walk_point(target, path.drop_first(), i) == walk_point(target, path, i),
    decreases i,
{
    if i > 0 {
        lemma_walk_drop_first(target, path, (i - 1) as nat);
        assert(path.drop_first()[path.drop_first().len() - i] == path[path.len() - i]);
    }
}

/// Following a path from the point where the walk back from `target` along it ends
/// arrives at `target`: the path read off the distances leads there.
pub proof fn law_path_reaches_target(target: Point, path: Seq<Direction>)
    requires
        forall|i: nat| i <= path.len() ==> has_neighbours(#[trigger] walk_point(target, path, i)),
    ensures
        follow(walk_point(target, path, path.len()), path) == target,
    decreases path.len(),
{
    if path.len() > 0 {
        let n = path.len();
        let rest = path.drop_first();
        assert forall|i: nat| i <= rest.len() implies has_neighbours(#[trigger] walk_point(target, rest, i)) by {
            lemma_walk_drop_first(target, path, i);
        }
        law_path_reaches_target(target, rest);
        lemma_walk_drop_first(target, path, (n - 1) as nat);
        let before = walk_point(target, path, (n - 1) as nat);
        assert(walk_point(target, path, n) == spec_neighbour(before, spec_opposite(path[0])));
        super::point::lemma_neighbour_opposite(before, spec_opposite(path[0]));
        assert(spec_opposite(spec_opposite(path[0])) == path[0]);
    }
}

/// What `find_path` promises of the path it reads off the distances from `start` to
/// `target`: nothing off the grid, a greedy walk back from the target that does not pass
/// the start, and that stays on the grid and ends at the start or where it is stuck.
pub open spec fn walk_back_ok(ds: Seq<Vec<Option<i64>>>, start: Point, target: Point, path: Seq<Direction>) -> bool {
    &&& !in_grid(ds, target) ==> path.len() == 0
    &&& forall|i: int| 0 <= i < path.len() ==> #[trigger] walk_point(target, path, i as nat) != start
    &&& forall|i: int| 0 <= i < path.len() ==> #[trigger] greedy_step(ds, target, path, i)
    &&& in_grid(ds, target) ==> forall|i: int|
        0 <= i <= path.len() ==> in_grid(ds, #[trigger] walk_point(target, path, i as nat))
    &&& in_grid(ds, target) ==> walk_point(target, path, path.len()) == start || stuck(ds, target, path, path.len() as int)
}

/// A path from `start` to `target` read off the distances by walking back from the
/// target: each step goes to the neighbour with the least distance that the walk has not
/// been on yet (the first of up, down, left, right on a tie), and the walk ends at the
/// start or where no neighbour is left. The directions come back in walking order from
/// where the walk ended to the target. A target off the grid gives no path.
pub fn find_path(distances: &Vec<Vec<Option<i64>>>, start: &Point, target: &Point) -> (res: Vec<Direction>)
    requires
        grid_ok(distances@),
    ensures
        walk_back_ok(distances@, *start, *target, res@),
{
    let ghost ds = distances@;
    let mut path: Vec<Direction> = Vec::new();
    let w = distances.len();
    let h = if w > 0 {
        distances[0].len()
    } else {
        0
    };
    proof {
        assert(w * h + 3 <= usize::MAX) by (nonlinear_arith)
            requires
                w <= 127,
                h <= 127,
        ;
    }
    let mut past_places = Board::new(w, h);
    let mut p = *target;
    let start = *start;
    let ghost mut seen: Set<int> = Set::empty();
    proof {
        vstd::set_lib::lemma_int_range(0, 16384);
        lemma_wall_mark();
    }
    while p != start
        invariant_except_break
            forall|q: Point|
                #![trigger past_places@.tile(q)]
                past_places@.in_bounds(q) ==> (past_places@.tile(q) == Tile::Empty <==> !walked(
                    *target,
                    path@,
                    path@.len() - 1,
                    q,
                )),
        invariant
            grid_ok(ds),
            ds == distances@,
            w == ds.len(),
            w > 0 ==> h == ds[0]@.len(),
            w == 0 ==> h == 0,
            past_places@.width == w,
            past_places@.height == h,
            super::board::decode(super::board::encode(Tile::Wall)) == Tile::Hazard(3),
            vstd::set_lib::set_int_range(0, 16384).len() == 16384,
            vstd::set_lib::set_int_range(0, 16384).finite(),
            path@.len() > 0 ==> in_grid(ds, *target),
            p == walk_point(*target, path@, path@.len()),
            path@.len() > 0 ==> in_grid(ds, p) && !walked(*target, path@, path@.len() - 1, p),
            forall|j: int| 0 <= j < path@.len() ==> in_grid(ds, #[trigger] walk_point(*target, path@, j as nat)),
            forall|i: int| 0 <= i < path@.len() ==> #[trigger] walk_point(*target, path@, i as nat) != start,
            forall|i: int| 0 <= i < path@.len() ==> #[trigger] greedy_step(ds, *target, path@, i),
            seen.finite(),
            seen.subset_of(vstd::set_lib::set_int_range(0, 16384)),
            seen.len() == path@.len(),
            forall|t: int|
                #[trigger] seen.contains(t) ==> exists|j: int|
                    0 <= j < path@.len() && grid_index(#[trigger] walk_point(*target, path@, j as nat)) == t,
        ensures
            !in_grid(ds, *target) ==> path@.len() == 0,
            in_grid(ds, *target) ==> forall|i: int|
                0 <= i <= path@.len() ==> in_grid(ds, #[trigger] walk_point(*target, path@, i as nat)),
            forall|i: int| 0 <= i < path@.len() ==> #[trigger] walk_point(*target, path@, i as nat) != start,
            forall|i: int| 0 <= i < path@.len() ==> #[trigger] greedy_step(ds, *target, path@, i),
            in_grid(ds, *target) ==> walk_point(*target, path@, path@.len()) == start || stuck(
                ds,
                *target,
                path@,
                path@.len() as int,
            ),
        decreases 16384 - seen.len(),
    {
        let mut best_dist: Option<i64> = None;
        let mut best_dir: Option<Direction> = None;
        // Each walked point is marked, so the walk never comes back to one: this holds only
        // of a target off the grid, which gives no path.
        if past_places.get(&p) != Tile::Empty {
            return Vec::new();
        }
        let ghost n = path@.len() as int;
        proof {
            assert(in_grid(ds, p));
            assert(!walked(*target, path@, n - 1, p));
            vstd::set_lib::lemma_len_subset(seen, vstd::set_lib::set_int_range(0, 16384));
            if seen.contains(grid_index(p)) {
                let j = choose|j: int| 0 <= j < n && grid_index(#[trigger] walk_point(*target, path@, j as nat)) == grid_index(p);
                assert(in_grid(ds, walk_point(*target, path@, j as nat)));
                assert(walk_point(*target, path@, j as nat) == p);
                assert(walked(*target, path@, n - 1, p));
            }
        }
        let ghost old_pp = past_places@;
        past_places.set(&p, Tile::Wall);
        proof {
            assert(old_pp.in_bounds(p));
            assert(past_places@ == old_pp.update(p, Tile::Hazard(3)));
            assert(past_places@.tile(p) == Tile::Hazard(3));
            assert forall|q: Point|
                #![trigger past_places@.tile(q)]
                past_places@.in_bounds(q) implies (past_places@.tile(q) == Tile::Empty <==> !walked(*target, path@, n, q)) by {
                if q == p {
                    assert(walk_point(*target, path@, n as nat) == q);
                    assert(walked(*target, path@, n, q));
                } else {
                    assert(past_places@.tile(q) == old_pp.tile(q));
                    if walked(*target, path@, n, q) {
                        let j = choose|j: int| 0 <= j <= n && #[trigger] walk_point(*target, path@, j as nat) == q;
                        assert(j < n);
                    }
                }
            }
        }
        let nbrs = p.neighbours();
        let mut k: usize = 0;
        while k < 4
            invariant
                k <= 4,
                grid_ok(ds),
                ds == distances@,
                w == ds.len(),
                w > 0 ==> h == ds[0]@.len(),
                w == 0 ==> h == 0,
                past_places@.width == w,
                past_places@.height == h,
                in_grid(ds, p),
                nbrs@[0] == (Direction::Up, spec_neighbour(p, Direction::Up)),
                nbrs@[1] == (Direction::Down, spec_neighbour(p, Direction::Down)),
                nbrs@[2] == (Direction::Left, spec_neighbour(p, Direction::Left)),
                nbrs@[3] == (Direction::Right, spec_neighbour(p, Direction::Right)),
                forall|q: Point|
                    #![trigger past_places@.tile(q)]
                    past_places@.in_bounds(q) ==> (past_places@.tile(q) == Tile::Empty <==> !walked(*target, path@, n, q)),
                best_dir is Some <==> best_dist is Some,
                best_dir matches Some(bd) ==> dir_rank(bd) < k && candidate(ds, *target, path@, n, spec_neighbour(p, bd))
                    && best_dist == dist_at(ds, spec_neighbour(p, bd)),
                forall|e: Direction|
                    #![trigger spec_neighbour(p, e)]
                    dir_rank(e) < k && candidate(ds, *target, path@, n, spec_neighbour(p, e)) ==> best_dir is Some
                        && best_dist->0 <= dist_at(ds, spec_neighbour(p, e))->0 && (dir_rank(e) < dir_rank(best_dir->0)
                        ==> best_dist->0 < dist_at(ds, spec_neighbour(p, e))->0),
            decreases 4 - k,
        {
            let (dir, np) = nbrs[k];
            proof {
                assert(dir_rank(dir) == k);
                assert(np == spec_neighbour(p, dir));
            }
            if past_places.get(&np) == Tile::Empty && np.x >= 0 && np.y >= 0 {
                let (x, y) = (np.x as usize, np.y as usize);
                if x < distances.len() && y < distances[0].len() {
                    proof {
                        assert(in_grid(ds, np));
                        assert(ds[x as int]@.len() >= ds[0]@.len());
                    }
                    if let Some(dist) = distances[x][y] {
                        match best_dist {
                            Some(to_beat) => {
                                if to_beat > dist {
                                    best_dist = Some(dist);
                                    best_dir = Some(dir);
                                }
                            },
                            None => {
                                best_dist = Some(dist);
                                best_dir = Some(dir);
                            },
                        }
                    }
                }
            }
            k += 1;
        }
        match best_dir {
            Some(dir) => {
                let ghost old_path = path@;
                let ghost np = spec_neighbour(p, dir);
                path.insert(0, dir.opposite());
                proof {
                    assert(path@ == seq![spec_opposite(dir)] + old_path);
                    lemma_walk_prepend(*target, old_path, spec_opposite(dir));
                    lemma_candidate_prepend(ds, *target, old_path, spec_opposite(dir), n);
                    assert(walk_point(*target, path@, n as nat) == p);
                    assert(path@[0] == spec_opposite(dir));
                    assert(path@[path@.len() - (n + 1)] == spec_opposite(dir));
                    assert(walk_point(*target, path@, (n + 1) as nat) == np);
                    assert(walk_point(*target, old_path, 0) == *target);
                    assert(walk_point(*target, path@, 0) == *target);
                    assert forall|i: int| 0 <= i < path@.len() implies #[trigger] greedy_step(ds, *target, path@, i) by {
                        if i < n {
                            lemma_greedy_prepend(ds, *target, old_path, spec_opposite(dir), i);
                        } else {
                            assert(walk_point(*target, path@, i as nat) == p);
                        }
                    }
                    assert forall|j: int| 0 <= j < path@.len() implies in_grid(ds, #[trigger] walk_point(*target, path@, j as nat)) by {
                        if j < n {
                            assert(walk_point(*target, path@, j as nat) == walk_point(*target, old_path, j as nat));
                        }
                    }
                    assert forall|i: int| 0 <= i < path@.len() implies #[trigger] walk_point(*target, path@, i as nat) != start by {
                        if i < n {
                            assert(walk_point(*target, path@, i as nat) == walk_point(*target, old_path, i as nat));
                        }
                    }
                    assert(0 <= grid_index(p) < 16384);
                    assert(!seen.contains(grid_index(p)));
                    seen = seen.insert(grid_index(p));
                    vstd::set_lib::lemma_len_subset(seen, vstd::set_lib::set_int_range(0, 16384));
                    assert forall|t: int| #[trigger] seen.contains(t) implies exists|j: int|
                        0 <= j < path@.len() && grid_index(#[trigger] walk_point(*target, path@, j as nat)) == t by {
                        if t == grid_index(p) {
                            assert(walk_point(*target, path@, n as nat) == p);
                        } else {
                            let j = choose|j: int| 0 <= j < n && grid_index(#[trigger] walk_point(*target, old_path, j as nat)) == t;
                            assert(walk_point(*target, path@, j as nat) == walk_point(*target, old_path, j as nat));
                        }
                    }
                }
                p = p.neighbour(dir);
            },
            None => {
                proof {
                    assert forall|e: Direction|
                        #![trigger spec_neighbour(walk_point(*target, path@, n as nat), e)]
                        !candidate(ds, *target, path@, n, spec_neighbour(walk_point(*target, path@, n as nat), e)) by {
                        assert(dir_rank(e) < 4);
                    }
                }
                break;
            },
        }
    }
    path
}

} // verus!
