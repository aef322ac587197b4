//! The alpha-beta minimax search of the spaceheater snake.
use vstd::prelude::*;

use std::time::Instant;

use crate::logic::board::BoardModel;
use crate::logic::game::{moves_computable, others_can_move, spec_execute_moves, spec_move_others, GameMode, GameModel, Rules};
use crate::logic::laws::lemma_move_others_size;
use crate::logic::point::{has_neighbours, warp_size_ok};
use crate::logic::snake::{can_move, SnakeModel};
use crate::logic::{Direction, Game};
use crate::protocol::{all_directions, spec_all_directions, Direction as Dir};
use crate::snakes::deadline::past_deadline;
use crate::snakes::spaceheater2::scores::Scoretree;
use crate::snakes::spaceheater3::util::{
    all_sensible_enemy_moves, certain_death, combos_fit, moves_judgeable, spec_certain_death, spec_enemy_combos, spec_target,
};

verus! {

/// A snake whose next move the engine can play and judge: its head is on the board, its
/// health can take a hazard, it can still grow, and its body is as long as it should be.
pub open spec fn snake_playable(g: GameModel, s: SnakeModel) -> bool {
    &&& g.board.in_bounds(s.head)
    &&& i8::MIN + 1 <= s.health - g.rules.hazard_damage_per_turn <= i8::MAX
    &&& s.health > i8::MIN
    &&& s.length < usize::MAX
    &&& 1 <= s.length <= s.body.len() + 1
}

/// A game whose next turn the engine can play and judge: the board is at most 127 tiles
/// each way, three hazards do at most 126 damage, there are at most 15 opponents and
/// every snake is playable.
pub open spec fn playable(g: GameModel) -> bool {
    &&& 0 <= g.board.width <= 127
    &&& 0 <= g.board.height <= 127
    &&& -42 <= g.rules.hazard_damage_per_turn <= 42
    &&& g.turn < usize::MAX
    &&& g.others.len() <= 15
    &&& forall|p: crate::logic::Point| crate::logic::spec_hazard_count(#[trigger] g.board.tile(p)) <= 3
    &&& snake_playable(g, g.you)
    &&& forall|i: int| 0 <= i < g.others.len() ==> snake_playable(g, #[trigger] g.others[i])
}

fn snake_is_playable(game: &Game, s: &crate::logic::Snake) -> (res: bool)
    ensures
        res == snake_playable(game@, s@),
{
    let w = game.board.width();
    let h = game.board.height();
    let per_turn = game.rules.hazard_damage_per_turn as i16;
    let health = s.health as i16;
    s.head.x >= 0 && (s.head.x as isize) < w && s.head.y >= 0 && (s.head.y as isize) < h && i8::MIN as i16 + 1
        <= health - per_turn && health - per_turn <= i8::MAX as i16 && s.health > i8::MIN && s.length < usize::MAX
        && 1 <= s.length && s.length - 1 <= s.body.len()
}

/// Whether the next turn of the game can be played and judged.
pub fn is_playable(game: &Game) -> (res: bool)
    ensures
        res == playable(game@),
{
    let w = game.board.width();
    let h = game.board.height();
    proof {
        game.board.lemma_model();
    }
    if !(w <= 127 && h <= 127 && -42 <= game.rules.hazard_damage_per_turn && game.rules.hazard_damage_per_turn <= 42
        && game.turn < usize::MAX && game.others.len() <= 15) {
        return false;
    }
    if !snake_is_playable(game, &game.you) {
        return false;
    }
    let mut i: usize = 0;
    while i < game.others.len()
        invariant
            i <= game@.others.len(),
            forall|j: int| 0 <= j < i ==> snake_playable(game@, #[trigger] game@.others[j]),
        decreases game@.others.len() - i,
    {
        proof {
            assert(game@.others[i as int] == game.others@[i as int]@);
        }
        if !snake_is_playable(game, &game.others[i]) {
            return false;
        }
        i += 1;
    }
    true
}

spec fn pow4(k: int) -> int
    decreases k,
{
    if k <= 0 {
        1
    } else {
        4 * pow4(k - 1)
    }
}

proof fn lemma_pow4(k: int)
    requires
        0 <= k <= 15,
    ensures
        1 <= pow4(k) <= pow4(15),
        pow4(15) == 0x4000_0000,
    decreases k,
{
    reveal_with_fuel(pow4, 16);
    if k > 0 {
        lemma_pow4(k - 1);
    }
}

proof fn lemma_combos_len(g: GameModel, k: int)
    requires
        0 <= k,
    ensures
        spec_enemy_combos(g, k).len() <= pow4(k),
    decreases k,
{
    if k > 0 {
        lemma_combos_len(g, k - 1);
        let prev = spec_enemy_combos(g, k - 1);
        let moves = crate::snakes::spaceheater3::util::spec_sensible_moves(g, g.others[k - 1]);
        assert(moves.len() <= 4) by {
            let all = crate::protocol::spec_all_directions();
            all.lemma_filter_len(
                |d: Dir| !spec_certain_death(g, g.others[k - 1], spec_target(g, g.others[k - 1], d), g.others[k - 1].health),
            );
        }
        assert(moves.len() * prev.len() <= 4 * pow4(k - 1)) by (nonlinear_arith)
            requires
                moves.len() <= 4,
                prev.len() <= pow4(k - 1),
        ;
    }
}

proof fn lemma_others_can_move(g: GameModel, dirs: Seq<Dir>, m: BoardModel, k: int)
    requires
        playable(g),
        m.width == g.board.width,
        m.height == g.board.height,
        0 <= k <= dirs.len() <= g.others.len(),
    ensures
        others_can_move(g.others, dirs, m, g.rules, k),
    decreases k,
{
    if k > 0 {
        lemma_others_can_move(g, dirs, m, k - 1);
        let mm = spec_move_others(g.others, dirs, m, g.rules, k - 1).1;
        lemma_move_others_size(g.others, dirs, m, g.rules, k - 1);
        let s = g.others[k - 1];
        assert(snake_playable(g, s));
        let w = g.board.width as isize;
        let h = g.board.height as isize;
        assert(0 <= w <= 127 ==> (w as i8) == w) by (bit_vector);
        assert(0 <= h <= 127 ==> (h as i8) == h) by (bit_vector);
        assert(can_move(s, dirs[k - 1], mm, g.rules));
    }
}

/// A playable game's next turn can be played with any moves, and the opponents' moves can
/// be judged and combined.
pub proof fn lemma_playable(g: GameModel)
    requires
        playable(g),
    ensures
        forall|d: Dir, dirs: Seq<Dir>| dirs.len() <= g.others.len() ==> #[trigger] moves_computable(g, d, dirs),
        moves_judgeable(g, g.you),
        forall|i: int| 0 <= i < g.others.len() ==> moves_judgeable(g, #[trigger] g.others[i]),
        combos_fit(g),
{
    let w = g.board.width as isize;
    let h = g.board.height as isize;
    assert(0 <= w <= 127 ==> (w as i8) == w) by (bit_vector);
    assert(0 <= h <= 127 ==> (h as i8) == h) by (bit_vector);
    assert forall|d: Dir, dirs: Seq<Dir>| dirs.len() <= g.others.len() implies #[trigger] moves_computable(g, d, dirs) by {
        let m1 = crate::logic::snake::spec_next_board(g.you, d, g.board, g.rules);
        assert(m1.width == g.board.width && m1.height == g.board.height);
        lemma_others_can_move(g, dirs, m1, dirs.len() as int);
    }
    assert forall|i: int| 0 <= i < g.others.len() implies moves_judgeable(g, #[trigger] g.others[i]) by {
        lemma_judgeable(g, g.others[i]);
    }
    lemma_judgeable(g, g.you);
    assert forall|k: int| 0 <= k <= g.others.len() implies #[trigger] spec_enemy_combos(g, k).len() <= usize::MAX by {
        lemma_combos_len(g, k);
        lemma_pow4(k);
    }
}

proof fn lemma_judgeable(g: GameModel, s: SnakeModel)
    requires
        playable(g),
        snake_playable(g, s),
    ensures
        moves_judgeable(g, s),
{
    let w = g.board.width as isize;
    let h = g.board.height as isize;
    assert(0 <= w <= 127 ==> (w as i8) == w) by (bit_vector);
    assert(0 <= h <= 127 ==> (h as i8) == h) by (bit_vector);
    assert forall|d: Dir| crate::snakes::spaceheater3::util::certain_death_computable(g, s, #[trigger] spec_target(g, s, d)) by {
        let p = spec_target(g, s, d);
        let t = g.board.tile(p);
        let pt = g.rules.hazard_damage_per_turn as int;
        assert(crate::logic::spec_hazard_count(t) <= 3);
        match t {
            crate::logic::Tile::Hazard(x) | crate::logic::Tile::HazardWithSnake(x) | crate::logic::Tile::HazardWithHead(x) => {
                assert(-126 <= pt * x <= 126) by (nonlinear_arith)
                    requires
                        -42 <= pt <= 42,
                        0 <= x <= 3,
                ;
            },
            _ => {},
        }
    }
}


pub(crate) proof fn lemma_combo_lengths(g: GameModel, k: int)
    requires
        0 <= k,
    ensures
        forall|i: int| 0 <= i < spec_enemy_combos(g, k).len() ==> (#[trigger] spec_enemy_combos(g, k)[i]).len() == k,
    decreases k,
{
    if k > 0 {
        lemma_combo_lengths(g, k - 1);
        let prev = spec_enemy_combos(g, k - 1);
        crate::snakes::spaceheater3::util::lemma_combos_nonempty(g, k - 1);
        assert forall|i: int| 0 <= i < spec_enemy_combos(g, k).len() implies (#[trigger] spec_enemy_combos(g, k)[i]).len()
            == k by {
            let n = prev.len() as int;
            assert(0 <= i % n < n) by {
                vstd::arithmetic::div_mod::lemma_mod_bound(i, n);
            }
        }
    }
}

fn prepend(d: Dir, v: &Vec<Dir>) -> (res: Vec<Dir>)
    ensures
        res@ == seq![d] + v@,
{
    let mut res: Vec<Dir> = Vec::new();
    res.push(d);
    let mut i: usize = 0;
    while i < v.len()
        invariant
            i <= v@.len(),
            res@ == seq![d] + v@.take(i as int),
        decreases v@.len() - i,
    {
        res.push(v[i]);
        proof {
            assert(seq![d] + v@.take(i + 1) == (seq![d] + v@.take(i as int)).push(v@[i as int]));
        }
        i += 1;
    }
    proof {
        assert(v@.take(v@.len() as int) =~= v@);
    }
    res
}

/// Whether our snake certainly dies moving in direction `d`.
pub open spec fn you_die_moving(g: GameModel, d: Dir) -> bool {
    spec_certain_death(g, g.you, spec_target(g, g.you, d), g.you.health)
}

/// The game that our moves `path` lead to from `g` when the opponents answer each turn
/// with the moves in `replies`.
pub open spec fn path_end(g: GameModel, path: Seq<Dir>, replies: Seq<Seq<Dir>>) -> GameModel
    decreases path.len(),
{
    if path.len() == 0 {
        g
    } else {
        path_end(spec_execute_moves(g, path[0], replies[0]), path.drop_first(), replies.drop_first())
    }
}

/// Whether `end` is a game that our moves `path` can lead to from `g`, each turn with some
/// moves of the opponents.
pub open spec fn leads_to(g: GameModel, path: Seq<Dir>, end: GameModel) -> bool {
    exists|replies: Seq<Seq<Dir>>| replies.len() == path.len() && #[trigger] path_end(g, path, replies) == end
}

proof fn lemma_leads_to_step(g: GameModel, d: Dir, ds: Seq<Dir>, rest: Seq<Dir>, end: GameModel)
    requires
        leads_to(spec_execute_moves(g, d, ds), rest, end),
    ensures
        leads_to(g, seq![d] + rest, end),
{
    let r = choose|replies: Seq<Seq<Dir>>| replies.len() == rest.len() && #[trigger] path_end(
        spec_execute_moves(g, d, ds),
        rest,
        replies,
    ) == end;
    let p = seq![d] + rest;
    let rr = seq![ds] + r;
    assert(p.drop_first() =~= rest);
    assert(rr.drop_first() =~= r);
    assert(path_end(g, p, rr) == end);
}

/// What the clock and the scorer said during a search, keyed by node and kind. A node is
/// named by the moves that lead to it from the root: our move and the place of the
/// opponents' combination among `spec_enemy_combos`, turn by turn. At a node, kind 0 holds
/// whether the deadline had passed when the node was entered (1 if it had), kind 2 the
/// score `score_fn` gave it, and kind `after_kind(d, j)` whether the deadline had passed
/// after its child `(d, j)` was searched.
pub type SearchTrace = Map<(Seq<(Dir, int)>, int), i64>;

/// The place of a direction in the order up, down, left, right.
pub open spec fn dir_index(d: Dir) -> int {
    match d {
        Dir::Up => 0,
        Dir::Down => 1,
        Dir::Left => 2,
        Dir::Right => 3,
    }
}

/// The kind under which a node keeps the clock's answer after its child `(d, j)`.
pub open spec fn after_kind(d: Dir, j: int) -> int {
    3 + 4 * j + dir_index(d)
}

/// Whether the trace says the deadline had passed at `key`.
pub open spec fn past_at(t: SearchTrace, key: (Seq<(Dir, int)>, int)) -> bool {
    t.contains_key(key) && t[key] != 0
}

/// The part of a trace below the child `(d, j)`, named from that child.
pub open spec fn below(t: SearchTrace, d: Dir, j: int) -> SearchTrace {
    Map::new(
        |k: (Seq<(Dir, int)>, int)| t.contains_key((seq![(d, j)] + k.0, k.1)),
        |k: (Seq<(Dir, int)>, int)| t[(seq![(d, j)] + k.0, k.1)],
    )
}

/// The combinations of sensible opponent moves in a game.
pub open spec fn combos_of(g: GameModel) -> Seq<Seq<Dir>> {
    spec_enemy_combos(g, g.others.len() as int)
}

/// The game at the node `h` below `g`.
pub open spec fn node_game(g: GameModel, h: Seq<(Dir, int)>) -> GameModel
    decreases h.len(),
{
    if h.len() == 0 {
        g
    } else {
        node_game(spec_execute_moves(g, h[0].0, combos_of(g)[h[0].1]), h.drop_first())
    }
}

/// Every score in the trace is one that `f` gives the game of its node.
pub open spec fn scores_traced<F: Fn(&Game) -> i64>(f: F, g: GameModel, t: SearchTrace) -> bool {
    forall|key: (Seq<(Dir, int)>, int)|
        #[trigger] t.contains_key(key) && key.1 == 2 ==> exists|e: Game| e@ == node_game(g, key.0) && f.ensures((&e,), t[key])
}

/// A node's state after our move `d`, whose replies ended in `rs`, from the state `st`
/// (alpha, beta, best score, best path, cut off): where the replies gave the move a score
/// at least the best so far, the move and its path take over and alpha rises to that
/// score; beta is what the replies left; once alpha reaches beta the rest is cut off.
pub open spec fn move_update(
    st: (Option<i64>, Option<i64>, Option<i64>, Seq<Dir>, bool),
    d: Dir,
    rs: (Option<i64>, Option<i64>, Seq<Dir>, bool),
) -> (Option<i64>, Option<i64>, Option<i64>, Seq<Dir>, bool) {
    let (alpha1, max1, best1) = match rs.1 {
        Some(sv) => if (match st.2 {
            Some(s) => s,
            None => sv,
        }) <= sv {
            (
                match st.0 {
                    Some(a) => if a <= sv {
                        Some(sv)
                    } else {
                        st.0
                    },
                    None => Some(sv),
                },
                Some(sv),
                seq![d] + rs.2,
            )
        } else {
            (st.0, st.2, st.3)
        },
        None => (st.0, st.2, st.3),
    };
    let cut = match (alpha1, rs.0) {
        (Some(a), Some(b)) => a >= b,
        _ => false,
    };
    (alpha1, rs.0, max1, best1, cut)
}

/// The state of the replies to a move (beta, the move's score, its path, stopped) after
/// one more reply, whose search gave `child`, from `rs`: a reply whose score is no higher
/// than `max_score`, the best score of our earlier moves (any reply's, before there is
/// one), becomes the move's score and path and lowers beta to it; the replies stop once
/// the deadline has passed (`past`) or alpha reaches beta.
pub open spec fn reply_update(
    rs: (Option<i64>, Option<i64>, Seq<Dir>, bool),
    child: (Seq<Dir>, i64),
    max_score: Option<i64>,
    alpha: Option<i64>,
    past: bool,
) -> (Option<i64>, Option<i64>, Seq<Dir>, bool) {
    let sv = child.1;
    let taken = (match max_score {
        Some(s) => s,
        None => sv,
    }) >= sv;
    let beta1 = if taken {
        match rs.0 {
            Some(b) => if b >= sv {
                Some(sv)
            } else {
                rs.0
            },
            None => Some(sv),
        }
    } else {
        rs.0
    };
    let stop = past || match (alpha, beta1) {
        (Some(a), Some(b)) => a >= b,
        _ => false,
    };
    if taken {
        (beta1, Some(sv), child.0, stop)
    } else {
        (beta1, rs.1, rs.2, stop)
    }
}

/// Whether a node is scored as it stands: its snake is dead, its path is full, the
/// deadline had passed when it was entered, or its turn cannot be played.
pub open spec fn ab_leaf(g: GameModel, plen: int, md: int, t: SearchTrace) -> bool {
    g.you.health <= 0 || plen >= md || past_at(t, (Seq::empty(), 0)) || !playable(g)
}

/// The value of the search of `g` with `plen` moves already on the path, at most `md` in
/// all, and bounds `alpha` and `beta`, where the clock and the scorer answered as `t`
/// says: the path of our moves and its score. A leaf (see `ab_leaf`) is scored as it
/// stands, with an empty path; so is a node none of whose moves got a score. Otherwise
/// the value is the best move's path and score after our moves (see `ab_moves`).
#[verifier::opaque]
pub open spec fn ab_value(g: GameModel, plen: int, md: int, alpha: Option<i64>, beta: Option<i64>, t: SearchTrace) -> (
    Seq<Dir>,
    i64,
)
    decreases md - plen, 2int, 0int,
{
    if ab_leaf(g, plen, md, t) {
        (Seq::empty(), t[(Seq::empty(), 2)])
    } else {
        let st = ab_moves(g, plen, md, t, 4, (alpha, beta, None, Seq::empty(), false));
        match st.2 {
            Some(s) => (st.3, s),
            None => (Seq::empty(), t[(Seq::empty(), 2)]),
        }
    }
}

/// The state (alpha, beta, best score, best path, cut off) after our first `k` moves, in
/// the order up, down, left, right, from `st0`: a move that is certain death is passed
/// over, and once the node is cut off the rest are too; any other move's replies are
/// searched (see `ab_replies`) and the state updated (see `move_update`).
#[verifier::opaque]
pub open spec fn ab_moves(
    g: GameModel,
    plen: int,
    md: int,
    t: SearchTrace,
    k: int,
    st0: (Option<i64>, Option<i64>, Option<i64>, Seq<Dir>, bool),
) -> (Option<i64>, Option<i64>, Option<i64>, Seq<Dir>, bool)
    decreases md - plen, 1int, k,
{
    if k <= 0 || plen >= md {
        st0
    } else {
        let st = ab_moves(g, plen, md, t, k - 1, st0);
        let d = spec_all_directions()[k - 1];
        if st.4 || you_die_moving(g, d) {
            st
        } else {
            move_update(
                st,
                d,
                ab_replies(g, plen, md, t, d, st.0, st.2, combos_of(g).len() as int, (st.1, None, Seq::empty(), false)),
            )
        }
    }
}

/// The state of the replies to our move `d` (beta, the move's score, its path, stopped)
/// after the first `j` combinations of opponent moves, searched with alpha `alpha`, from
/// `rs0`: once stopped the rest are skipped; otherwise each reply's game is searched one
/// move deeper with the current beta, on the part of the trace below it, and the state
/// updated (see `reply_update`).
#[verifier::opaque]
pub open spec fn ab_replies(
    g: GameModel,
    plen: int,
    md: int,
    t: SearchTrace,
    d: Dir,
    alpha: Option<i64>,
    max_score: Option<i64>,
    j: int,
    rs0: (Option<i64>, Option<i64>, Seq<Dir>, bool),
) -> (Option<i64>, Option<i64>, Seq<Dir>, bool)
    decreases md - plen, 0int, j,
{
    if j <= 0 || plen >= md {
        rs0
    } else {
        let rs = ab_replies(g, plen, md, t, d, alpha, max_score, j - 1, rs0);
        if rs.3 {
            rs
        } else {
            reply_update(
                rs,
                ab_value(spec_execute_moves(g, d, combos_of(g)[j - 1]), plen + 1, md, alpha, rs.0, below(t, d, j - 1)),
                max_score,
                alpha,
                past_at(t, (Seq::empty(), after_kind(d, j - 1))),
            )
        }
    }
}

proof fn lemma_value_unfold(g: GameModel, plen: int, md: int, alpha: Option<i64>, beta: Option<i64>, t: SearchTrace)
    ensures
        ab_value(g, plen, md, alpha, beta, t) == if ab_leaf(g, plen, md, t) {
            (Seq::empty(), t[(Seq::empty(), 2)])
        } else {
            let st = ab_moves(g, plen, md, t, 4, (alpha, beta, None, Seq::empty(), false));
            match st.2 {
                Some(s) => (st.3, s),
                None => (Seq::empty(), t[(Seq::empty(), 2)]),
            }
        },
{
    reveal(ab_value);
    reveal(ab_moves);
    reveal(ab_replies);
}

proof fn lemma_moves_unfold(
    g: GameModel,
    plen: int,
    md: int,
    t: SearchTrace,
    k: int,
    st0: (Option<i64>, Option<i64>, Option<i64>, Seq<Dir>, bool),
)
    requires
        0 < k,
        plen < md,
    ensures
        ab_moves(g, plen, md, t, k, st0) == {
            let st = ab_moves(g, plen, md, t, k - 1, st0);
            let d = spec_all_directions()[k - 1];
            if st.4 || you_die_moving(g, d) {
                st
            } else {
                move_update(
                    st,
                    d,
                    ab_replies(g, plen, md, t, d, st.0, st.2, combos_of(g).len() as int, (st.1, None, Seq::empty(), false)),
                )
            }
        },
        ab_moves(g, plen, md, t, 0, st0) == st0,
{
    reveal(ab_value);
    reveal(ab_moves);
    reveal(ab_replies);
}

proof fn lemma_start_states(
    g: GameModel,
    plen: int,
    md: int,
    t: SearchTrace,
    d: Dir,
    alpha: Option<i64>,
    max_score: Option<i64>,
    st0: (Option<i64>, Option<i64>, Option<i64>, Seq<Dir>, bool),
    rs0: (Option<i64>, Option<i64>, Seq<Dir>, bool),
)
    ensures
        ab_moves(g, plen, md, t, 0, st0) == st0,
        ab_replies(g, plen, md, t, d, alpha, max_score, 0, rs0) == rs0,
{
    reveal(ab_moves);
    reveal(ab_replies);
}

proof fn lemma_replies_unfold(
    g: GameModel,
    plen: int,
    md: int,
    t: SearchTrace,
    d: Dir,
    alpha: Option<i64>,
    max_score: Option<i64>,
    j: int,
    rs0: (Option<i64>, Option<i64>, Seq<Dir>, bool),
)
    requires
        0 < j,
        plen < md,
    ensures
        ab_replies(g, plen, md, t, d, alpha, max_score, j, rs0) == {
            let rs = ab_replies(g, plen, md, t, d, alpha, max_score, j - 1, rs0);
            if rs.3 {
                rs
            } else {
                reply_update(
                    rs,
                    ab_value(spec_execute_moves(g, d, combos_of(g)[j - 1]), plen + 1, md, alpha, rs.0, below(t, d, j - 1)),
                    max_score,
                    alpha,
                    past_at(t, (Seq::empty(), after_kind(d, j - 1))),
                )
            }
        },
        ab_replies(g, plen, md, t, d, alpha, max_score, 0, rs0) == rs0,
{
    reveal(ab_value);
    reveal(ab_moves);
    reveal(ab_replies);
}

/// The trace of a child `(d, j)`, named from the parent.
pub open spec fn above(tc: SearchTrace, d: Dir, j: int) -> SearchTrace {
    Map::new(
        |k: (Seq<(Dir, int)>, int)| k.0.len() > 0 && k.0[0] == (d, j) && tc.contains_key((k.0.drop_first(), k.1)),
        |k: (Seq<(Dir, int)>, int)| tc[(k.0.drop_first(), k.1)],
    )
}

/// The parent's trace once its child `(d, j)` was searched with trace `tc` and the clock
/// answered `pv` after it.
pub open spec fn with_child(t: SearchTrace, tc: SearchTrace, d: Dir, j: int, pv: i64) -> SearchTrace {
    t.union_prefer_right(above(tc, d, j)).insert((Seq::empty(), after_kind(d, j)), pv)
}

/// Two traces agree on every child of a move before the `k`-th.
pub open spec fn agree_before(t1: SearchTrace, t2: SearchTrace, k: int) -> bool {
    forall|d2: Dir, j2: int|
        dir_index(d2) < k && 0 <= j2 ==> #[trigger] below(t1, d2, j2) == below(t2, d2, j2) && past_at(
            t1,
            (Seq::empty(), after_kind(d2, j2)),
        ) == past_at(t2, (Seq::empty(), after_kind(d2, j2)))
}

/// No node of the trace lies below a child at or after `(k, j)` in the order of the search.
spec fn keys_before(t: SearchTrace, k: int, j: int) -> bool {
    forall|key: (Seq<(Dir, int)>, int)|
        #[trigger] t.contains_key(key) && key.0.len() > 0 ==> dir_index(key.0[0].0) < k || (dir_index(key.0[0].0) == k
            && key.0[0].1 < j)
}

proof fn lemma_dir_at(i: int)
    requires
        0 <= i < 4,
    ensures
        dir_index(spec_all_directions()[i]) == i,
{
    assert(spec_all_directions()[0] == Dir::Up);
    assert(spec_all_directions()[1] == Dir::Down);
    assert(spec_all_directions()[2] == Dir::Left);
    assert(spec_all_directions()[3] == Dir::Right);
}

proof fn lemma_with_child_other(t: SearchTrace, tc: SearchTrace, d: Dir, j: int, pv: i64, d2: Dir, j2: int)
    requires
        0 <= j,
        0 <= j2,
        (d2, j2) != (d, j),
    ensures
        below(with_child(t, tc, d, j, pv), d2, j2) == below(t, d2, j2),
        past_at(with_child(t, tc, d, j, pv), (Seq::empty(), after_kind(d2, j2))) == past_at(
            t,
            (Seq::empty(), after_kind(d2, j2)),
        ),
{
    let tn = with_child(t, tc, d, j, pv);
    let up = above(tc, d, j);
    assert forall|k: (Seq<(Dir, int)>, int)| #![auto] below(tn, d2, j2).contains_key(k) == below(t, d2, j2).contains_key(k)
        && (below(t, d2, j2).contains_key(k) ==> below(tn, d2, j2)[k] == below(t, d2, j2)[k]) by {
        let h = seq![(d2, j2)] + k.0;
        assert(h.len() > 0 && h[0] == (d2, j2));
        assert(!up.contains_key((h, k.1)));
        assert((h, k.1) != (Seq::<(Dir, int)>::empty(), after_kind(d, j)));
    }
    assert(below(tn, d2, j2) =~= below(t, d2, j2));
    assert(after_kind(d2, j2) != after_kind(d, j));
    assert(!up.contains_key((Seq::<(Dir, int)>::empty(), after_kind(d2, j2))));
}

proof fn lemma_with_child_same(t: SearchTrace, tc: SearchTrace, d: Dir, j: int, pv: i64)
    requires
        0 <= j,
        keys_before(t, dir_index(d), j),
    ensures
        below(with_child(t, tc, d, j, pv), d, j) == tc,
        past_at(with_child(t, tc, d, j, pv), (Seq::empty(), after_kind(d, j))) == (pv != 0),
        past_at(with_child(t, tc, d, j, pv), (Seq::empty(), 0)) == past_at(t, (Seq::empty(), 0)),
        keys_before(with_child(t, tc, d, j, pv), dir_index(d), j + 1),
{
    let tn = with_child(t, tc, d, j, pv);
    let up = above(tc, d, j);
    let bt = below(tn, d, j);
    assert forall|k: (Seq<(Dir, int)>, int)| #[trigger] bt.contains_key(k) == tc.contains_key(k) && (tc.contains_key(k)
        ==> bt[k] == tc[k]) by {
        let h = seq![(d, j)] + k.0;
        assert(h.len() > 0 && h[0] == (d, j));
        assert(h.drop_first() =~= k.0);
        assert((h.drop_first(), k.1) == k);
        assert((h, k.1) != (Seq::<(Dir, int)>::empty(), after_kind(d, j)));
        assert(up.contains_key((h, k.1)) == tc.contains_key(k));
        if t.contains_key((h, k.1)) {
            assert(dir_index(h[0].0) < dir_index(d) || (dir_index(h[0].0) == dir_index(d) && h[0].1 < j));
        }
        assert(tn.contains_key((h, k.1)) == tc.contains_key(k));
        if tc.contains_key(k) {
            assert(up[(h, k.1)] == tc[k]);
            assert(tn[(h, k.1)] == tc[k]);
        }
    }
    assert forall|k: (Seq<(Dir, int)>, int)| #[trigger] tc.contains_key(k) implies bt.contains_key(k) && bt[k] == tc[k] by {
        assert(bt.contains_key(k) == tc.contains_key(k));
    }
    assert(bt.dom() =~= tc.dom());
    assert(below(tn, d, j) =~= tc);
    assert(after_kind(d, j) != 0);
    assert(!up.contains_key((Seq::<(Dir, int)>::empty(), 0)));
}

proof fn lemma_with_child_traced<F: Fn(&Game) -> i64>(f: F, g: GameModel, t: SearchTrace, tc: SearchTrace, d: Dir, j: int, pv: i64)
    requires
        0 <= j < combos_of(g).len(),
        scores_traced(f, g, t),
        scores_traced(f, spec_execute_moves(g, d, combos_of(g)[j]), tc),
    ensures
        scores_traced(f, g, with_child(t, tc, d, j, pv)),
{
    let tn = with_child(t, tc, d, j, pv);
    let up = above(tc, d, j);
    assert forall|key: (Seq<(Dir, int)>, int)| #[trigger] tn.contains_key(key) && key.1 == 2 implies exists|e: Game|
        e@ == node_game(g, key.0) && f.ensures((&e,), tn[key]) by {
        assert(key != (Seq::<(Dir, int)>::empty(), after_kind(d, j)));
        if up.contains_key(key) {
            let k0 = (key.0.drop_first(), key.1);
            assert(tc.contains_key(k0));
            assert(node_game(g, key.0) == node_game(spec_execute_moves(g, d, combos_of(g)[j]), key.0.drop_first()));
        } else {
            assert(t.contains_key(key));
        }
    }
}

proof fn lemma_replies_frame(
    g: GameModel,
    plen: int,
    md: int,
    t1: SearchTrace,
    t2: SearchTrace,
    d: Dir,
    alpha: Option<i64>,
    ms: Option<i64>,
    j: int,
    rs0: (Option<i64>, Option<i64>, Seq<Dir>, bool),
)
    requires
        forall|i: int|
            0 <= i < j ==> #[trigger] below(t1, d, i) == below(t2, d, i) && past_at(t1, (Seq::empty(), after_kind(d, i)))
                == past_at(t2, (Seq::empty(), after_kind(d, i))),
    ensures
        ab_replies(g, plen, md, t1, d, alpha, ms, j, rs0) == ab_replies(g, plen, md, t2, d, alpha, ms, j, rs0),
    decreases j,
{
    reveal(ab_value);
    reveal(ab_moves);
    reveal(ab_replies);
    if j > 0 && plen < md {
        lemma_replies_frame(g, plen, md, t1, t2, d, alpha, ms, j - 1, rs0);
        assert(below(t1, d, j - 1) == below(t2, d, j - 1));
    }
}

proof fn lemma_moves_frame(
    g: GameModel,
    plen: int,
    md: int,
    t1: SearchTrace,
    t2: SearchTrace,
    k: int,
    st0: (Option<i64>, Option<i64>, Option<i64>, Seq<Dir>, bool),
)
    requires
        k <= 4,
        forall|d: Dir, i: int|
            dir_index(d) < k && 0 <= i ==> #[trigger] below(t1, d, i) == below(t2, d, i) && past_at(
                t1,
                (Seq::empty(), after_kind(d, i)),
            ) == past_at(t2, (Seq::empty(), after_kind(d, i))),
    ensures
        ab_moves(g, plen, md, t1, k, st0) == ab_moves(g, plen, md, t2, k, st0),
    decreases k,
{
    reveal(ab_value);
    reveal(ab_moves);
    reveal(ab_replies);
    if k > 0 && plen < md {
        lemma_moves_frame(g, plen, md, t1, t2, k - 1, st0);
        let d = spec_all_directions()[k - 1];
        lemma_dir_at(k - 1);
        let st = ab_moves(g, plen, md, t1, k - 1, st0);
        assert forall|i: int| 0 <= i < combos_of(g).len() implies #[trigger] below(t1, d, i) == below(t2, d, i) && past_at(
            t1,
            (Seq::empty(), after_kind(d, i)),
        ) == past_at(t2, (Seq::empty(), after_kind(d, i))) by {}
        lemma_replies_frame(g, plen, md, t1, t2, d, st.0, st.2, combos_of(g).len() as int, (st.1, None, Seq::empty(), false));
    }
}

proof fn lemma_replies_stopped(
    g: GameModel,
    plen: int,
    md: int,
    t: SearchTrace,
    d: Dir,
    alpha: Option<i64>,
    ms: Option<i64>,
    j: int,
    j2: int,
    rs0: (Option<i64>, Option<i64>, Seq<Dir>, bool),
)
    requires
        0 <= j <= j2,
        ab_replies(g, plen, md, t, d, alpha, ms, j, rs0).3,
    ensures
        ab_replies(g, plen, md, t, d, alpha, ms, j2, rs0) == ab_replies(g, plen, md, t, d, alpha, ms, j, rs0),
    decreases j2 - j,
{
    reveal(ab_replies);
    if j2 > j {
        lemma_replies_stopped(g, plen, md, t, d, alpha, ms, j, j2 - 1, rs0);
    }
}

proof fn lemma_moves_cut(
    g: GameModel,
    plen: int,
    md: int,
    t: SearchTrace,
    k: int,
    k2: int,
    st0: (Option<i64>, Option<i64>, Option<i64>, Seq<Dir>, bool),
)
    requires
        0 <= k <= k2,
        ab_moves(g, plen, md, t, k, st0).4,
    ensures
        ab_moves(g, plen, md, t, k2, st0) == ab_moves(g, plen, md, t, k, st0),
    decreases k2 - k,
{
    reveal(ab_moves);
    if k2 > k {
        lemma_moves_cut(g, plen, md, t, k, k2 - 1, st0);
    }
}

proof fn lemma_reply_step<F: Fn(&Game) -> i64>(
    f: F,
    g: GameModel,
    plen: int,
    md: int,
    tr: SearchTrace,
    tr_k: SearchTrace,
    tc: SearchTrace,
    d: Dir,
    k: int,
    j: int,
    pv: i64,
    alpha: Option<i64>,
    max_score: Option<i64>,
    rs0: (Option<i64>, Option<i64>, Seq<Dir>, bool),
    child: (Seq<Dir>, i64),
    beta_call: Option<i64>,
)
    requires
        plen < md,
        0 <= j < combos_of(g).len(),
        dir_index(d) == k,
        keys_before(tr, k, j),
        scores_traced(f, g, tr),
        scores_traced(f, spec_execute_moves(g, d, combos_of(g)[j]), tc),
        ab_value(spec_execute_moves(g, d, combos_of(g)[j]), plen + 1, md, alpha, beta_call, tc) == child,
        !ab_replies(g, plen, md, tr, d, alpha, max_score, j, rs0).3,
        ab_replies(g, plen, md, tr, d, alpha, max_score, j, rs0).0 == beta_call,
        agree_before(tr, tr_k, k),
        tr.contains_key((Seq::empty(), 0)) && tr[(Seq::empty(), 0)] == 0,
    ensures
        ab_replies(g, plen, md, with_child(tr, tc, d, j, pv), d, alpha, max_score, j + 1, rs0) == reply_update(
            ab_replies(g, plen, md, tr, d, alpha, max_score, j, rs0),
            child,
            max_score,
            alpha,
            pv != 0,
        ),
        keys_before(with_child(tr, tc, d, j, pv), k, j + 1),
        scores_traced(f, g, with_child(tr, tc, d, j, pv)),
        with_child(tr, tc, d, j, pv).contains_key((Seq::empty(), 0)) && with_child(tr, tc, d, j, pv)[(Seq::empty(), 0)] == 0,
        agree_before(with_child(tr, tc, d, j, pv), tr_k, k),
{
    let tn = with_child(tr, tc, d, j, pv);
    lemma_with_child_same(tr, tc, d, j, pv);
    lemma_with_child_traced(f, g, tr, tc, d, j, pv);
    assert forall|i: int| 0 <= i < j implies #[trigger] below(tn, d, i) == below(tr, d, i) && past_at(
        tn,
        (Seq::empty(), after_kind(d, i)),
    ) == past_at(tr, (Seq::empty(), after_kind(d, i))) by {
        lemma_with_child_other(tr, tc, d, j, pv, d, i);
    }
    lemma_replies_frame(g, plen, md, tn, tr, d, alpha, max_score, j, rs0);
    lemma_replies_unfold(g, plen, md, tn, d, alpha, max_score, j + 1, rs0);
    assert forall|d2: Dir, j2: int| dir_index(d2) < k && 0 <= j2 implies #[trigger] below(tn, d2, j2) == below(tr_k, d2, j2)
        && past_at(tn, (Seq::empty(), after_kind(d2, j2))) == past_at(tr_k, (Seq::empty(), after_kind(d2, j2))) by {
        lemma_with_child_other(tr, tc, d, j, pv, d2, j2);
        assert(below(tr, d2, j2) == below(tr_k, d2, j2));
    }
    assert(after_kind(d, j) != 0);
}

proof fn lemma_move_end(
    g: GameModel,
    plen: int,
    md: int,
    tr: SearchTrace,
    tr_k: SearchTrace,
    k: int,
    st_k: (Option<i64>, Option<i64>, Option<i64>, Seq<Dir>, bool),
    st0: (Option<i64>, Option<i64>, Option<i64>, Seq<Dir>, bool),
)
    requires
        plen < md,
        0 <= k < 4,
        st_k == ab_moves(g, plen, md, tr_k, k, st0),
        !st_k.4,
        agree_before(tr, tr_k, k),
    ensures
        ab_moves(g, plen, md, tr, k + 1, st0) == if you_die_moving(g, spec_all_directions()[k]) {
            st_k
        } else {
            move_update(
                st_k,
                spec_all_directions()[k],
                ab_replies(
                    g,
                    plen,
                    md,
                    tr,
                    spec_all_directions()[k],
                    st_k.0,
                    st_k.2,
                    combos_of(g).len() as int,
                    (st_k.1, None, Seq::empty(), false),
                ),
            )
        },
{
    lemma_moves_frame(g, plen, md, tr, tr_k, k, st0);
    lemma_moves_unfold(g, plen, md, tr, k + 1, st0);
}

proof fn lemma_insert_root_score<F: Fn(&Game) -> i64>(f: F, g: GameModel, t: SearchTrace, e: Game, v: i64)
    requires
        scores_traced(f, g, t),
        e@ == g,
        f.ensures((&e,), v),
    ensures
        forall|d: Dir, i: int|
            0 <= i ==> #[trigger] below(t.insert((Seq::empty(), 2), v), d, i) == below(t, d, i) && past_at(
                t.insert((Seq::empty(), 2), v),
                (Seq::empty(), after_kind(d, i)),
            ) == past_at(t, (Seq::empty(), after_kind(d, i))),
        past_at(t.insert((Seq::empty(), 2), v), (Seq::empty(), 0)) == past_at(t, (Seq::empty(), 0)),
        t.insert((Seq::empty(), 2), v)[(Seq::empty(), 2)] == v,
        scores_traced(f, g, t.insert((Seq::empty(), 2), v)),
{
    let t2 = t.insert((Seq::<(Dir, int)>::empty(), 2), v);
    assert forall|d: Dir, i: int| 0 <= i implies #[trigger] below(t2, d, i) == below(t, d, i) && past_at(
        t2,
        (Seq::empty(), after_kind(d, i)),
    ) == past_at(t, (Seq::empty(), after_kind(d, i))) by {
        assert forall|k: (Seq<(Dir, int)>, int)| #![auto] below(t2, d, i).contains_key(k) == below(t, d, i).contains_key(k) && (
        below(t, d, i).contains_key(k) ==> below(t2, d, i)[k] == below(t, d, i)[k]) by {
            let h = seq![(d, i)] + k.0;
            assert(h.len() > 0);
            assert((h, k.1) != (Seq::<(Dir, int)>::empty(), 2int));
        }
        assert(below(t2, d, i) =~= below(t, d, i));
    }
    assert forall|key: (Seq<(Dir, int)>, int)| #[trigger] t2.contains_key(key) && key.1 == 2 implies exists|e2: Game|
        e2@ == node_game(g, key.0) && f.ensures((&e2,), t2[key]) by {
        if key == (Seq::<(Dir, int)>::empty(), 2int) {
            assert(node_game(g, key.0) == g);
            assert(e@ == node_game(g, key.0) && f.ensures((&e,), t2[key]));
        } else {
            assert(t.contains_key(key));
        }
    }
}

/// An alpha-beta search for our best path of moves and its score. A game in which our
/// snake is dead, a path of `max_depth` moves, a passed deadline, and a game whose next
/// turn cannot be played are scored by `score_fn` and end the path. A move of ours that is
/// certain death is not tried. For each other move the combinations of sensible opponent
/// moves are searched in turn, and a combination's score becomes the move's score when it
/// is no higher than the best score of our earlier moves (any combination's, before one
/// of them has a score), so the move's score is that of the last such combination. The
/// move with the highest score is taken, the later one of two equal. Where no move has a
/// score (every combination was cut off), the game itself is scored, with an empty path.
/// The path and score are exactly `ab_value` of the game for some trace of what the clock
/// and `score_fn` answered at each node the search reached, and the score is that of a
/// game the path leads to.
#[verifier::spinoff_prover]
#[verifier::rlimit(100)]
pub fn solve<F: Fn(&Game) -> i64>(
    game: &Game,
    path_so_far: Vec<Direction>,
    score_fn: &F,
    scores: &Scoretree<i64>,
    deadline: &Instant,
    max_depth: usize,
    alpha: Option<i64>,
    beta: Option<i64>,
) -> (res: (Vec<Direction>, i64))
    requires
        path_so_far@.len() <= max_depth,
        forall|g: &Game| #[trigger] score_fn.requires((g,)),
    ensures
        path_so_far@.len() + res.0@.len() <= max_depth,
        res.0@.len() > 0 ==> !you_die_moving(game@, res.0@[0]),
        game@.you.health <= 0 || path_so_far@.len() == max_depth ==> res.0@.len() == 0 && score_fn.ensures((game,), res.1),
        res.0@.len() == 0 ==> score_fn.ensures((game,), res.1),
        exists|e: Game| leads_to(game@, res.0@, e@) && score_fn.ensures((&e,), res.1),
        exists|t: SearchTrace|
            ab_value(game@, path_so_far@.len() as int, max_depth as int, alpha, beta, t) == (res.0@, res.1) && scores_traced(
                *score_fn,
                game@,
                t,
            ),
    decreases max_depth - path_so_far@.len(),
{
    let ghost plen = path_so_far@.len() as int;
    let ghost md = max_depth as int;
    let ghost root: Seq<(Dir, int)> = Seq::empty();
    if game.you.health <= 0 || path_so_far.len() == max_depth {
        let v = score_fn(game);
        let r: Vec<Direction> = Vec::new();
        proof {
            assert(path_end(game@, r@, Seq::<Seq<Dir>>::empty()) == game@);
            assert(leads_to(game@, r@, (*game)@) && score_fn.ensures((&*game,), v));
            let t = Map::<(Seq<(Dir, int)>, int), i64>::empty().insert((root, 2), v);
            assert(node_game(game@, root) == game@);
            lemma_value_unfold(game@, plen, md, alpha, beta, t);
            assert(ab_value(game@, plen, md, alpha, beta, t) == (r@, v));
            assert(scores_traced(*score_fn, game@, t));
        }
        return (r, v);
    }
    let past = past_deadline(deadline);
    if past || !is_playable(game) {
        let v = score_fn(game);
        let r: Vec<Direction> = Vec::new();
        proof {
            assert(path_end(game@, r@, Seq::<Seq<Dir>>::empty()) == game@);
            assert(leads_to(game@, r@, (*game)@) && score_fn.ensures((&*game,), v));
            let t = Map::<(Seq<(Dir, int)>, int), i64>::empty().insert((root, 0), if past { 1i64 } else { 0i64 }).insert(
                (root, 2),
                v,
            );
            assert(node_game(game@, root) == game@);
            lemma_value_unfold(game@, plen, md, alpha, beta, t);
            assert(ab_value(game@, plen, md, alpha, beta, t) == (r@, v));
            assert(scores_traced(*score_fn, game@, t));
        }
        return (r, v);
    }
    let ghost mut tr: SearchTrace = Map::<(Seq<(Dir, int)>, int), i64>::empty().insert((root, 0), 0);
    let ghost alpha0 = alpha;
    let ghost beta0 = beta;
    proof {
        lemma_start_states(game@, plen, md, tr, Dir::Up, alpha, None, (alpha0, beta0, None, Seq::empty(), false), (beta0, None, Seq::empty(), false));
    }
    proof {
        lemma_playable(game@);
        lemma_combo_lengths(game@, game@.others.len() as int);
    }
    let mut alpha = alpha;
    let mut beta = beta;
    let mut max_score: Option<i64> = None;
    let mut best_move: Vec<Direction> = Vec::new();
    let dirs = all_directions();
    let mut k: usize = 0;
    let mut cut = false;
    while k < 4 && !cut
        invariant
            k <= 4,
            dirs@ == spec_all_directions(),
            path_so_far@.len() < max_depth,
            forall|g: &Game| #[trigger] score_fn.requires((g,)),
            playable(game@),
            forall|d: Dir, ds: Seq<Dir>| ds.len() <= game@.others.len() ==> #[trigger] moves_computable(game@, d, ds),
            moves_judgeable(game@, game@.you),
            forall|i: int| 0 <= i < game@.others.len() ==> moves_judgeable(game@, #[trigger] game@.others[i]),
            combos_fit(game@),
            forall|i: int|
                0 <= i < spec_enemy_combos(game@, game@.others.len() as int).len() ==> (#[trigger] spec_enemy_combos(
                    game@,
                    game@.others.len() as int,
                )[i]).len() == game@.others.len(),
            path_so_far@.len() + best_move@.len() <= max_depth,
            best_move@.len() > 0 ==> !you_die_moving(game@, best_move@[0]),
            best_move@.len() > 0 <==> max_score is Some,
            max_score matches Some(v) ==> exists|e: Game| leads_to(game@, best_move@, e@) && score_fn.ensures((&e,), v),
            plen == path_so_far@.len(),
            md == max_depth,
            root == Seq::<(Dir, int)>::empty(),
            (alpha, beta, max_score, best_move@, cut) == ab_moves(game@, plen, md, tr, k as int, (alpha0, beta0, None, Seq::empty(), false)),
            keys_before(tr, k as int, 0),
            scores_traced(*score_fn, game@, tr),
            tr.contains_key((root, 0)) && tr[(root, 0)] == 0,
        decreases 4 - k,
    {
        let my_dir = dirs[k];
        let mut my_pos = game.you.head.neighbour(my_dir);
        game.warp(&mut my_pos);
        let mut path = crate::snakes::spaceheater3::util::clone_moves(&path_so_far);
        path.push(my_dir);
        proof {
            assert(game@.you == game.you@);
            assert(my_pos == spec_target(game@, game@.you, my_dir));
            assert(crate::snakes::spaceheater3::util::certain_death_computable(game@, game@.you, spec_target(game@, game@.you, my_dir)));
        }
        if !certain_death(game, &game.you, &my_pos) {
            let mut min_score: Option<i64> = None;
            let mut best_min_move: Vec<Direction> = Vec::new();
            let combos = all_sensible_enemy_moves(game);
            let mut j: usize = 0;
            let mut stop = false;
            let ghost tr_k = tr;
            let ghost beta_k = beta;
            let ghost st_k = (alpha, beta, max_score, best_move@, cut);
            proof {
                lemma_dir_at(k as int);
                lemma_start_states(game@, plen, md, tr, my_dir, alpha, max_score, st_k, (beta_k, None, Seq::empty(), false));
            }
            while j < combos.len() && !stop
                invariant
                    j <= combos@.len(),
                    path@.len() == path_so_far@.len() + 1,
                    path_so_far@.len() < max_depth,
                    forall|g: &Game| #[trigger] score_fn.requires((g,)),
                    forall|d: Dir, ds: Seq<Dir>| ds.len() <= game@.others.len() ==> #[trigger] moves_computable(game@, d, ds),
                    crate::snakes::spaceheater3::util::vec_views(combos@) == spec_enemy_combos(game@, game@.others.len() as int),
                    forall|i: int|
                        0 <= i < spec_enemy_combos(game@, game@.others.len() as int).len() ==> (#[trigger] spec_enemy_combos(
                            game@,
                            game@.others.len() as int,
                        )[i]).len() == game@.others.len(),
                    path@.len() + best_min_move@.len() <= max_depth,
                    min_score matches Some(v) ==> exists|e: Game| leads_to(game@, seq![my_dir] + best_min_move@, e@)
                        && score_fn.ensures((&e,), v),
                    plen == path_so_far@.len(),
                    md == max_depth,
                    root == Seq::<(Dir, int)>::empty(),
                    my_dir == spec_all_directions()[k as int],
                    dir_index(my_dir) == k,
                    k < 4,
                    (beta, min_score, best_min_move@, stop) == ab_replies(
                        game@,
                        plen,
                        md,
                        tr,
                        my_dir,
                        alpha,
                        max_score,
                        j as int,
                        (beta_k, None, Seq::empty(), false),
                    ),
                    st_k == (alpha, beta_k, max_score, best_move@, cut),
                    st_k == ab_moves(game@, plen, md, tr_k, k as int, (alpha0, beta0, None, Seq::empty(), false)),
                    keys_before(tr, k as int, j as int),
                    scores_traced(*score_fn, game@, tr),
                    tr.contains_key((root, 0)) && tr[(root, 0)] == 0,
                    agree_before(tr, tr_k, k as int),
                decreases combos@.len() - j,
            {
                proof {
                    assert(crate::snakes::spaceheater3::util::vec_views(combos@)[j as int] == combos@[j as int]@);
                    assert(moves_computable(game@, my_dir, combos@[j as int]@));
                }
                let mut successor = game.clone();
                successor.execute_moves(my_dir, &combos[j]);
                let ghost beta_call = beta;
                let ghost rs_j = (beta, min_score, best_min_move@, stop);
                let (next_move, succ_score) = solve(
                    &successor,
                    crate::snakes::spaceheater3::util::clone_moves(&path),
                    score_fn,
                    scores,
                    deadline,
                    max_depth,
                    alpha,
                    beta,
                );
                let min = match max_score {
                    Some(s) => s,
                    None => succ_score,
                };
                proof {
                    let e = choose|e: Game| leads_to(successor@, next_move@, e@) && score_fn.ensures((&e,), succ_score);
                    assert(successor@ == spec_execute_moves(game@, my_dir, combos@[j as int]@));
                    lemma_leads_to_step(game@, my_dir, combos@[j as int]@, next_move@, e@);
                }
                if min >= succ_score {
                    best_min_move = next_move;
                    min_score = Some(succ_score);
                    let beta_score = match beta {
                        Some(s) => s,
                        None => succ_score,
                    };
                    if beta_score >= succ_score {
                        beta = Some(succ_score);
                    }
                }
                let p2 = past_deadline(deadline);
                proof {
                    let pv: i64 = if p2 { 1 } else { 0 };
                    let cg = spec_execute_moves(game@, my_dir, combos_of(game@)[j as int]);
                    assert(combos@[j as int]@ == combos_of(game@)[j as int]);
                    assert(successor@ == cg);
                    let tc = choose|t: SearchTrace|
                        ab_value(cg, plen + 1, md, alpha, beta_call, t) == (next_move@, succ_score) && scores_traced(
                            *score_fn,
                            cg,
                            t,
                        );
                    lemma_reply_step(
                        *score_fn,
                        game@,
                        plen,
                        md,
                        tr,
                        tr_k,
                        tc,
                        my_dir,
                        k as int,
                        j as int,
                        pv,
                        alpha,
                        max_score,
                        (beta_k, None, Seq::empty(), false),
                        (next_move@, succ_score),
                        beta_call,
                    );
                    tr = with_child(tr, tc, my_dir, j as int, pv);
                }
                if p2 {
                    stop = true;
                } else {
                    match (alpha, beta) {
                        (Some(a), Some(b)) => {
                            if a >= b {
                                stop = true;
                            }
                        },
                        _ => {},
                    }
                }
                proof {
                    assert((beta, min_score, best_min_move@, stop) == ab_replies(
                        game@,
                        plen,
                        md,
                        tr,
                        my_dir,
                        alpha,
                        max_score,
                        j + 1,
                        (beta_k, None, Seq::empty(), false),
                    ));
                }
                j += 1;
            }
            proof {
                if stop {
                    lemma_replies_stopped(
                        game@,
                        plen,
                        md,
                        tr,
                        my_dir,
                        alpha,
                        max_score,
                        j as int,
                        combos@.len() as int,
                        (beta_k, None, Seq::empty(), false),
                    );
                }
                assert(combos@.len() == combos_of(game@).len());
                lemma_move_end(game@, plen, md, tr, tr_k, k as int, st_k, (alpha0, beta0, None, Seq::empty(), false));
            }
            match min_score {
                Some(succ_score) => {
                    let max = match max_score {
                        Some(s) => s,
                        None => succ_score,
                    };
                    if max <= succ_score {
                        best_move = prepend(my_dir, &best_min_move);
                        max_score = Some(succ_score);
                        let alpha_score = match alpha {
                            Some(s) => s,
                            None => succ_score,
                        };
                        if alpha_score <= succ_score {
                            alpha = Some(succ_score);
                        }
                    }
                },
                None => {},
            }
            match (alpha, beta) {
                (Some(a), Some(b)) => {
                    if a >= b {
                        cut = true;
                    }
                },
                _ => {},
            }
        } else {
            proof {
                lemma_dir_at(k as int);
                lemma_move_end(game@, plen, md, tr, tr, k as int, (alpha, beta, max_score, best_move@, cut), (alpha0, beta0, None, Seq::empty(), false));
            }
        }
        k += 1;
    }
    proof {
        if cut {
            lemma_moves_cut(game@, plen, md, tr, k as int, 4, (alpha0, beta0, None, Seq::empty(), false));
        }
        lemma_value_unfold(game@, plen, md, alpha0, beta0, tr);
    }
    match max_score {
        Some(s) => (best_move, s),
        None => {
            let v = score_fn(game);
            let r: Vec<Direction> = Vec::new();
            proof {
                assert(path_end(game@, r@, Seq::<Seq<Dir>>::empty()) == game@);
                assert(leads_to(game@, r@, (*game)@) && score_fn.ensures((&*game,), v));
                let t2 = tr.insert((root, 2), v);
                lemma_insert_root_score(*score_fn, game@, tr, *game, v);
                lemma_moves_frame(game@, plen, md, t2, tr, 4, (alpha0, beta0, None, Seq::empty(), false));
                lemma_value_unfold(game@, plen, md, alpha0, beta0, t2);
                assert(ab_value(game@, plen, md, alpha0, beta0, t2) == (r@, v));
            }
            (r, v)
        },
    }
}

} // verus!
