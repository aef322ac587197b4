//! The nodes of the search where our snake moves.
use vstd::prelude::*;

use std::time::Instant;

use crate::logic::game::{spec_execute_moves, GameModel};
use crate::logic::scoring::Scorer;
use crate::logic::{Direction, Game};
use crate::protocol::{all_directions, spec_all_directions};
use crate::snakes::deadline::past_deadline;
use crate::snakes::spaceheater2::solve::{is_playable, lemma_playable, playable, you_die_moving};

use super::alphabeta::AlphaBeta;
use super::min::MinimizingNode;
use super::util::{certain_death, certain_death_computable, spec_enemy_combos, spec_target};

verus! {

/// A game in which it is our turn: the best move found and its score, and a child for each
/// move of ours that is not certain death.
pub struct MaximizingNode {
    pub game: Game,
    pub score: Option<(Direction, i64)>,
    pub children: Vec<MinimizingNode>,
    pub will_die: bool,
}

/// The order of scores in which a minimizing node wants its children: lowest first, those
/// without a score last.
pub open spec fn max_node_key(n: MaximizingNode) -> i64 {
    match n.score {
        Some(s) => s.1,
        None => i64::MAX,
    }
}

/// The larger of two scores.
pub open spec fn score_max(a: i64, b: i64) -> i64 {
    if a >= b {
        a
    } else {
        b
    }
}

/// The smaller of two scores.
pub open spec fn score_min(a: i64, b: i64) -> i64 {
    if a <= b {
        a
    } else {
        b
    }
}

/// How a maximizing node searched with bounds `ab` chose `s` among its children `c`: the
/// first `m` children were searched (at least one) and each got a score; `s` is the move
/// and score of one of them, the highest; the rest were cut off because that score
/// reached beta.
pub open spec fn max_chosen(c: Seq<MinimizingNode>, s: (Direction, i64), ab: AlphaBeta) -> bool {
    exists|m: int|
        #![trigger c.subrange(0, m)]
        0 < m <= c.len() && (forall|k: int| 0 <= k < m ==> (#[trigger] c[k]).score is Some && c[k].score->0 <= s.1)
            && (exists|k: int| 0 <= k < m && (#[trigger] c[k]).my_move == s.0 && c[k].score == Some(s.1)) && (m
            < c.len() ==> score_max(ab.alpha, s.1) >= ab.beta)
}

/// How a minimizing node searched with bounds `ab` chose `v` among its children `c`: the
/// first `m` children were searched (at least one) and each got a score; `v` is the score
/// of one of them, the lowest; the rest were cut off because that score fell to alpha.
pub open spec fn min_chosen(c: Seq<MaximizingNode>, v: i64, ab: AlphaBeta) -> bool {
    exists|m: int|
        #![trigger c.subrange(0, m)]
        0 < m <= c.len() && (forall|k: int| 0 <= k < m ==> (#[trigger] c[k]).score is Some && (c[k].score->0).1 >= v)
            && (exists|k: int| 0 <= k < m && ((#[trigger] c[k]).score->0).1 == v && c[k].score is Some) && (m
            < c.len() ==> ab.alpha >= score_min(ab.beta, v))
}

/// The alpha of a maximizing node with bounds starting at alpha `a` once its first `k`
/// children are scored: the highest of `a` and their scores.
pub open spec fn run_max(c: Seq<MinimizingNode>, a: i64, k: int) -> i64
    decreases k,
{
    if k <= 0 {
        a
    } else {
        score_max(run_max(c, a, k - 1), c[k - 1].score->0)
    }
}

/// The beta of a minimizing node with bounds starting at beta `b` once its first `k`
/// children are scored: the lowest of `b` and their scores.
pub open spec fn run_min(c: Seq<MaximizingNode>, b: i64, k: int) -> i64
    decreases k,
{
    if k <= 0 {
        b
    } else {
        score_min(run_min(c, b, k - 1), (c[k - 1].score->0).1)
    }
}

/// The bounds a maximizing node with bounds `ab` hands its child `k`.
pub open spec fn max_child_bounds(c: Seq<MinimizingNode>, ab: AlphaBeta, k: int) -> AlphaBeta {
    AlphaBeta { alpha: run_max(c, ab.alpha, k), beta: ab.beta, has_parent: true }
}

/// The bounds a minimizing node with bounds `ab` hands its child `k`.
pub open spec fn min_child_bounds(c: Seq<MaximizingNode>, ab: AlphaBeta, k: int) -> AlphaBeta {
    AlphaBeta { alpha: ab.alpha, beta: run_min(c, ab.beta, k), has_parent: true }
}

/// A maximizing node that a search `depth` more moves of ours deep, with bounds `ab`,
/// scored all the way down. A dead snake keeps the score it was first given. The last
/// level, a game whose turn cannot be played, and a game in which every move is certain
/// death (our snake is then moved up) are scored by the scorer as they stand. Otherwise
/// the children were searched in order, each with alpha raised to the best score before
/// it, until alpha reached beta (the rest were cut off); the score is the move and score
/// of the highest of those searched.
#[verifier::opaque]
pub open spec fn max_solved<S: Scorer>(n: MaximizingNode, depth: nat, scorer: S, ab: AlphaBeta) -> bool
    decreases depth, 1int,
{
    &&& n.score is Some
    &&& {
        ||| n.game.you.health <= 0
        ||| (depth == 0 || !playable(n.game@) || n.children@.len() == 0) && n.score == Some(
            (Direction::Up, scorer.spec_score(n.game)),
        )
        ||| depth > 0 && exists|m: int|
            #![trigger n.children@.subrange(0, m)]
            0 < m <= n.children@.len() && (forall|k: int|
                0 <= k < m ==> min_solved(#[trigger] n.children@[k], depth, scorer, max_child_bounds(n.children@, ab, k))
                    && n.children@[k].score->0 <= (n.score->0).1 && run_max(n.children@, ab.alpha, k) < ab.beta) && (
            exists|k: int|
                0 <= k < m && (#[trigger] n.children@[k]).my_move == (n.score->0).0 && n.children@[k].score == Some(
                    (n.score->0).1,
                )) && (m < n.children@.len() ==> run_max(n.children@, ab.alpha, m) >= ab.beta)
    }
}

/// A minimizing node that a search `depth` more moves of ours deep, with bounds `ab`,
/// scored all the way down: its children (combinations of the opponents' replies) were
/// searched in order, each one move of ours less deep with beta lowered to the lowest
/// score before it, until beta fell to alpha (the rest were cut off); the score is the
/// lowest of those searched.
#[verifier::opaque]
pub open spec fn min_solved<S: Scorer>(c: MinimizingNode, depth: nat, scorer: S, ab: AlphaBeta) -> bool
    decreases depth, 0int,
{
    &&& c.score is Some
    &&& depth > 0
    &&& exists|m: int|
        #![trigger c.children@.subrange(0, m)]
        0 < m <= c.children@.len() && (forall|k: int|
            0 <= k < m ==> max_solved(
                #[trigger] c.children@[k],
                (depth - 1) as nat,
                scorer,
                min_child_bounds(c.children@, ab, k),
            ) && (c.children@[k].score->0).1 >= c.score->0 && ab.alpha < run_min(c.children@, ab.beta, k)) && (exists|k: int|
            0 <= k < m && ((#[trigger] c.children@[k]).score->0).1 == c.score->0) && (m < c.children@.len() ==> ab.alpha
            >= run_min(c.children@, ab.beta, m))
}

proof fn lemma_run_max_prefix(c1: Seq<MinimizingNode>, c2: Seq<MinimizingNode>, a: i64, k: int)
    requires
        k <= c1.len(),
        k <= c2.len(),
        forall|j: int| 0 <= j < k ==> c1[j] == c2[j],
    ensures
        run_max(c1, a, k) == run_max(c2, a, k),
    decreases k,
{
    if k > 0 {
        lemma_run_max_prefix(c1, c2, a, k - 1);
    }
}

pub(crate) proof fn lemma_run_min_prefix(c1: Seq<MaximizingNode>, c2: Seq<MaximizingNode>, b: i64, k: int)
    requires
        k <= c1.len(),
        k <= c2.len(),
        forall|j: int| 0 <= j < k ==> c1[j] == c2[j],
    ensures
        run_min(c1, b, k) == run_min(c2, b, k),
    decreases k,
{
    if k > 0 {
        lemma_run_min_prefix(c1, c2, b, k - 1);
    }
}

/// `b` is `a` after `k` turns in each of which every move of ours is certain death, our
/// snake moves up and the opponents do not move (how a node where every move is certain
/// death is scored, level after level).
pub open spec fn up_chain(a: GameModel, b: GameModel, k: nat) -> bool
    decreases k,
{
    if k == 0 {
        b == a
    } else {
        &&& forall|d: Direction| you_die_moving(a, d)
        &&& up_chain(spec_execute_moves(a, Direction::Up, Seq::empty()), b, (k - 1) as nat)
    }
}

/// `x` is the game after our move `mv` in `g` and one combination of the opponents'
/// sensible moves (then, where every move is certain death, our snake moved up).
pub open spec fn reply_game(g: GameModel, mv: Direction, x: GameModel) -> bool {
    exists|r: int, k: nat|
        0 <= r < spec_enemy_combos(g, g.others.len() as int).len() && #[trigger] up_chain(
            spec_execute_moves(g, mv, spec_enemy_combos(g, g.others.len() as int)[r]),
            x,
            k,
        )
}

pub proof fn lemma_up_chain_extend(a: GameModel, b: GameModel, k: nat)
    requires
        up_chain(a, b, k),
        forall|d: Direction| you_die_moving(b, d),
    ensures
        up_chain(a, spec_execute_moves(b, Direction::Up, Seq::empty()), k + 1),
    decreases k,
{
    let a1 = spec_execute_moves(a, Direction::Up, Seq::empty());
    let b1 = spec_execute_moves(b, Direction::Up, Seq::empty());
    if k > 0 {
        lemma_up_chain_extend(a1, b, (k - 1) as nat);
        assert(((k + 1) - 1) as nat == ((k - 1) as nat + 1) as nat);
    } else {
        assert(b == a);
        assert(up_chain(a1, b1, 0));
    }
}

/// A search tree in which every move of ours, among the children and in a score, is one
/// that is not certain death (a score may also hold the default move up), and every game
/// below a move of ours is one that move and a reply lead to.
pub open spec fn max_tree_ok(n: MaximizingNode) -> bool
    decreases n,
{
    &&& (n.score matches Some(s) ==> s.0 == Direction::Up || !you_die_moving(n.game@, s.0))
    &&& forall|i: int|
        0 <= i < n.children@.len() ==> !you_die_moving(n.game@, (#[trigger] n.children@[i]).my_move)
            && min_tree_ok(n.children@[i], n.game@)
}

/// A search tree below our move in `g` in which every game is one that move and a reply
/// lead to, and every move of ours further down is one that is not certain death.
pub open spec fn min_tree_ok(m: MinimizingNode, g: GameModel) -> bool
    decreases m,
{
    forall|i: int|
        0 <= i < m.children@.len() ==> max_tree_ok(#[trigger] m.children@[i]) && reply_game(g, m.my_move, m.children@[i].game@)
}

impl MaximizingNode {
    pub fn new(game: Game) -> (res: MaximizingNode)
        ensures
            res.game == game,
            res.score is None,
            res.children@.len() == 0,
            !res.will_die,
            max_tree_ok(res),
    {
        MaximizingNode { game, score: None, children: Vec::new(), will_die: false }
    }

    /// Compares the scores of two nodes, a node without a score counting as the highest.
    pub fn cmp_scores(&self, other: &Self) -> (res: std::cmp::Ordering)
        ensures
            res == if max_node_key(*self) < max_node_key(*other) {
                std::cmp::Ordering::Less
            } else if max_node_key(*self) == max_node_key(*other) {
                std::cmp::Ordering::Equal
            } else {
                std::cmp::Ordering::Greater
            },
    {
        let a = match self.score {
            Some(s) => s.1,
            None => i64::MAX,
        };
        let b = match other.score {
            Some(s) => s.1,
            None => i64::MAX,
        };
        if a < b {
            std::cmp::Ordering::Less
        } else if a == b {
            std::cmp::Ordering::Equal
        } else {
            std::cmp::Ordering::Greater
        }
    }

    /// The moves of ours that are not certain death, as fresh children, in the order up,
    /// down, left, right; on a later visit, the children sorted best first for us.
    fn update_children(&mut self)
        requires
            playable(old(self).game@),
            max_tree_ok(*old(self)),
        ensures
            final(self).game == old(self).game,
            final(self).score == old(self).score,
            final(self).will_die == old(self).will_die,
            max_tree_ok(*final(self)),
            old(self).children@.len() > 0 ==> final(self).children@.to_multiset() == old(self).children@.to_multiset(),
            old(self).children@.len() > 0 ==> final(self).children@.len() == old(self).children@.len(),
            old(self).children@.len() == 0 && (exists|d: Direction| !you_die_moving(old(self).game@, d))
                ==> final(self).children@.len() > 0,
    {
        proof {
            lemma_playable(self.game@);
        }
        if self.children.len() == 0 {
            let dirs = all_directions();
            let ghost g = self.game@;
            let mut k: usize = 0;
            while k < 4
                invariant
                    k <= 4,
                    dirs@ == spec_all_directions(),
                    self.game@ == g,
                    self.score == old(self).score,
                    self.will_die == old(self).will_die,
                    playable(g),
                    max_tree_ok(*old(self)),
                    self.game == old(self).game,
                    super::util::moves_judgeable(g, g.you),
                    forall|i: int| 0 <= i < self.children@.len() ==> !you_die_moving(
                        g,
                        (#[trigger] self.children@[i]).my_move,
                    ) && min_tree_ok(self.children@[i], g),
                    (exists|j: int| 0 <= j < k && !you_die_moving(g, #[trigger] dirs@[j])) ==> self.children@.len() > 0,
                decreases 4 - k,
            {
                let my_dir = dirs[k];
                let mut my_pos = self.game.you.head.neighbour(my_dir);
                self.game.warp(&mut my_pos);
                proof {
                    assert(self.game@.you == self.game.you@);
                    assert(my_pos == spec_target(g, g.you, my_dir));
                    assert(certain_death_computable(g, g.you, spec_target(g, g.you, my_dir)));
                }
                let ghost c0 = self.children@;
                if !certain_death(&self.game, &self.game.you, &my_pos) {
                    self.children.push(MinimizingNode::new(my_dir));
                }
                proof {
                    assert forall|i: int| 0 <= i < self.children@.len() implies !you_die_moving(
                        g,
                        (#[trigger] self.children@[i]).my_move,
                    ) && min_tree_ok(self.children@[i], g) by {
                        if i < c0.len() {
                            assert(self.children@[i] == c0[i]);
                        }
                    }
                }
                k += 1;
            }
            proof {
                if exists|d: Direction| !you_die_moving(g, d) {
                    let d = choose|d: Direction| !you_die_moving(g, d);
                    let j: int = match d {
                        Direction::Up => 0,
                        Direction::Down => 1,
                        Direction::Left => 2,
                        Direction::Right => 3,
                    };
                    assert(dirs@[j] == d);
                }
            }
        } else {
            let ghost c0 = self.children@;
            super::min::sort_min_nodes(&mut self.children);
            proof {
                vstd::seq_lib::to_multiset_len(c0);
                vstd::seq_lib::to_multiset_len(self.children@);
                assert forall|i: int| 0 <= i < self.children@.len() implies !you_die_moving(
                    self.game@,
                    (#[trigger] self.children@[i]).my_move,
                ) && min_tree_ok(self.children@[i], self.game@) by {
                    super::util::lemma_multiset_member(self.children@, c0, i);
                }
            }
        }
    }

    /// A dead snake, or the last level of the search: the node scores its game. A dead
    /// snake keeps a score it already has.
    fn check_bounds<S: Scorer>(&mut self, max_depth: usize, scorer: &S) -> (res: bool)
        requires
            max_tree_ok(*old(self)),
        ensures
            final(self).game == old(self).game,
            final(self).children == old(self).children,
            res == (old(self).game.you.health <= 0 || max_depth == 0),
            res ==> final(self).score is Some,
            old(self).game.you.health <= 0 ==> final(self).will_die,
            old(self).game.you.health <= 0 && old(self).score is Some ==> final(self).score == old(self).score,
            old(self).game.you.health > 0 ==> final(self).will_die == old(self).will_die,
            (old(self).game.you.health <= 0 && old(self).score is None) || (old(self).game.you.health > 0
                && max_depth == 0) ==> (final(self).score->0).0 == Direction::Up,
            !res ==> final(self).score == old(self).score,
            max_tree_ok(*final(self)),
            old(self).game.you.health <= 0 && old(self).score is None ==> final(self).score == Some(
                (Direction::Up, scorer.spec_score(old(self).game)),
            ),
            old(self).game.you.health > 0 && max_depth == 0 ==> final(self).score == Some(
                (Direction::Up, scorer.spec_score(old(self).game)),
            ),
    {
        if self.game.you.dead() {
            if self.score.is_none() {
                self.score = Some((Direction::Up, scorer.score(&self.game)));
            }
            self.will_die = true;
            return true;
        }
        if max_depth == 0 {
            let score = scorer.score(&self.game);
            self.score = Some((Direction::Up, score));
            return true;
        }
        false
    }

    /// Searches the game `max_depth` more moves of ours deep, unless the deadline passes
    /// first (then nothing comes back): the best move of ours, with the lowest score the
    /// opponents can give us after it, and the number of nodes searched. A dead snake, the
    /// last level, and a game whose turn cannot be played are scored as they are; when
    /// every move is certain death, the snake moves up and the game after it is scored.
    /// A move other than up that comes back is never certain death.
    #[verifier::spinoff_prover]
    #[verifier::rlimit(60)]
    pub fn solve<S: Scorer>(
        &mut self,
        deadline: &Instant,
        max_depth: usize,
        scorer: &S,
        alpha_beta: &AlphaBeta,
    ) -> (res: (Option<(Direction, i64)>, usize))
        requires
            max_tree_ok(*old(self)),
        ensures
            max_tree_ok(*final(self)),
            res.0 is Some ==> res.0 == final(self).score,
            final(self).game != old(self).game ==> (res.0 matches Some(s) && s.0 == Direction::Up) && forall|d: Direction|
                you_die_moving(old(self).game@, d),
            final(self).game != old(self).game ==> final(self).game@ == spec_execute_moves(
                old(self).game@,
                Direction::Up,
                Seq::empty(),
            ),
            res.0 matches Some(s) ==> (s.0 != Direction::Up ==> !you_die_moving(old(self).game@, s.0)),
            old(self).game.you.health <= 0 && old(self).score is Some && res.0 is Some ==> res.0 == old(self).score,
            res.0 is Some && (old(self).game.you.health <= 0 && old(self).score is None || old(self).game.you.health > 0
                && (max_depth == 0 || !playable(old(self).game@))) ==> res.0 == Some(
                (Direction::Up, scorer.spec_score(old(self).game)),
            ),
            res.0 is Some && old(self).game.you.health > 0 && max_depth > 0 && playable(old(self).game@)
                && final(self).children@.len() == 0 ==> res.0 == Some((Direction::Up, scorer.spec_score(final(self).game))),
            res.0 matches Some(s) ==> (old(self).game.you.health > 0 && max_depth > 0 && playable(old(self).game@)
                && final(self).children@.len() > 0 ==> max_chosen(final(self).children@, s, *alpha_beta)),
            res.0 is None && alpha_beta.alpha < alpha_beta.beta ==> final(self).score == old(self).score,
            res.0 is Some ==> max_solved(*final(self), max_depth as nat, *scorer, *alpha_beta),
            old(self).game.you.health <= 0 || max_depth == 0 || !playable(old(self).game@) ==> final(self).game == old(
                self,
            ).game,
        decreases max_depth, 1int,
    {
        if past_deadline(deadline) {
            return (None, 0);
        }
        if self.check_bounds(max_depth, scorer) {
            proof {
                reveal(max_solved);
            }
            return (self.score, 1);
        }
        if !is_playable(&self.game) {
            let score = scorer.score(&self.game);
            self.score = Some((Direction::Up, score));
            proof {
                reveal(max_solved);
            }
            return (self.score, 1);
        }
        let ghost g0 = self.game@;
        self.update_children();
        if self.children.len() == 0 {
            proof {
                lemma_playable(self.game@);
                assert(crate::logic::game::moves_computable(self.game@, Direction::Up, Seq::<Direction>::empty()));
            }
            let no_moves: Vec<Direction> = Vec::new();
            proof {
                assert(no_moves@ =~= Seq::<Direction>::empty());
            }
            self.game.execute_moves(Direction::Up, &no_moves);
            let score = scorer.score(&self.game);
            self.score = Some((Direction::Up, score));
            proof {
                reveal(max_solved);
            }
            return (self.score, 1);
        }
        let mut top_move = Direction::Up;
        let mut top: Option<i64> = None;
        let mut ab = alpha_beta.new_child();
        let mut total: usize = 0;
        let mut will_die = false;
        let ghost mut vis: int = 0;
        let ghost s0 = self.score;
        let mut i: usize = 0;
        while i < self.children.len()
            invariant
                i <= self.children@.len(),
                self.score == s0,
                s0 == old(self).score,
                self.children@.len() > 0,
                0 <= vis <= i,
                top is Some <==> vis > 0,
                ab.beta == alpha_beta.beta,
                ab.has_parent,
                ab.alpha == (match top {
                    Some(t) => score_max(alpha_beta.alpha, t),
                    None => alpha_beta.alpha,
                }),
                forall|k: int| 0 <= k < vis ==> (#[trigger] self.children@[k]).score is Some && self.children@[k].score->0
                    <= top->0,
                top is Some ==> exists|k: int| 0 <= k < vis && (#[trigger] self.children@[k]).my_move == top_move
                    && self.children@[k].score == top,
                vis < i ==> ab.alpha >= ab.beta,
                self.game@ == g0,
                self.game == old(self).game,
                playable(g0),
                max_depth >= 1,
                forall|j: int|
                    0 <= j < self.children@.len() ==> !you_die_moving(g0, (#[trigger] self.children@[j]).my_move)
                        && min_tree_ok(self.children@[j], g0),
                top is Some ==> !you_die_moving(g0, top_move),
                ab.alpha == run_max(self.children@, alpha_beta.alpha, vis),
                forall|k: int|
                    0 <= k < vis ==> min_solved(
                        #[trigger] self.children@[k],
                        max_depth as nat,
                        *scorer,
                        max_child_bounds(self.children@, *alpha_beta, k),
                    ),
                forall|k: int| 0 <= k < vis ==> #[trigger] run_max(self.children@, alpha_beta.alpha, k) < alpha_beta.beta,
                self.score matches Some(s) ==> (s.0 == Direction::Up || !you_die_moving(g0, s.0)),
            decreases self.children@.len() - i,
        {
            let ghost c_start = self.children@;
            if !ab.should_be_pruned() {
                proof {
                    assert(vis == i);
                }
                let mut child = MinimizingNode::new(Direction::Up);
                std::mem::swap(&mut child, &mut self.children[i]);
                let ghost ab_call = ab;
                let (next_score, node_count) = child.solve(&self.game, deadline, max_depth, scorer, &ab);
                total = total.wrapping_add(node_count);
                let ghost c_before = self.children@;
                let ghost top_before = top;
                let ghost move_before = top_move;
                match next_score {
                    Some(ns) => {
                        let new_max = match top {
                            Some(t) => t < ns,
                            None => true,
                        };
                        if new_max {
                            top_move = child.my_move;
                            top = Some(ns);
                            will_die = child.will_die();
                            ab.new_alpha_score(ns);
                        }
                    },
                    None => {
                        // Cut off by the clock: so is this node.
                        std::mem::swap(&mut child, &mut self.children[i]);
                        proof {
                            assert forall|j: int| 0 <= j < self.children@.len() implies !you_die_moving(
                                g0,
                                (#[trigger] self.children@[j]).my_move,
                            ) && min_tree_ok(self.children@[j], g0) by {
                                if j != i {
                                    assert(self.children@[j] == c_before[j]);
                                }
                            }
                        }
                        return (None, total);
                    },
                }
                std::mem::swap(&mut child, &mut self.children[i]);
                proof {
                    assert forall|j: int| 0 <= j < self.children@.len() implies !you_die_moving(
                        g0,
                        (#[trigger] self.children@[j]).my_move,
                    ) && min_tree_ok(self.children@[j], g0) by {
                        if j != i {
                            assert(self.children@[j] == c_before[j]);
                        }
                    }
                    assert(self.children@[i as int].score == next_score);
                    assert forall|j: int| 0 <= j < vis implies self.children@[j] == c_start[j] by {}
                    lemma_run_max_prefix(self.children@, c_start, alpha_beta.alpha, vis);
                    assert(ab_call == max_child_bounds(self.children@, *alpha_beta, vis));
                    assert(ab_call.alpha < ab_call.beta);
                    assert(min_solved(self.children@[i as int], max_depth as nat, *scorer, ab_call));
                    assert(ab.alpha == run_max(self.children@, alpha_beta.alpha, vis + 1));
                    assert forall|k: int| 0 <= k < vis + 1 implies (#[trigger] self.children@[k]).score is Some
                        && self.children@[k].score->0 <= top->0 && min_solved(
                        self.children@[k],
                        max_depth as nat,
                        *scorer,
                        max_child_bounds(self.children@, *alpha_beta, k),
                    ) && run_max(self.children@, alpha_beta.alpha, k) < alpha_beta.beta by {
                        if k < vis {
                            assert(self.children@[k] == c_start[k]);
                            lemma_run_max_prefix(self.children@, c_start, alpha_beta.alpha, k);
                        }
                    }
                    if top_before is Some && top == top_before {
                        let k0 = choose|k: int| 0 <= k < vis && (#[trigger] c_start[k]).my_move == move_before
                            && c_start[k].score == top_before;
                        assert(self.children@[k0] == c_start[k0]);
                    } else {
                        assert(self.children@[i as int].my_move == top_move);
                    }
                    vis = vis + 1;
                    assert(forall|k: int|
                        0 <= k < vis ==> min_solved(
                            #[trigger] self.children@[k],
                            max_depth as nat,
                            *scorer,
                            max_child_bounds(self.children@, *alpha_beta, k),
                        ));
                    assert(forall|k: int|
                        0 <= k < vis ==> #[trigger] run_max(self.children@, alpha_beta.alpha, k) < alpha_beta.beta);
                }
            }
            i += 1;
        }
        if past_deadline(deadline) {
            return (None, total);
        }
        self.score = match top {
            Some(s) => Some((top_move, s)),
            None => None,
        };
        proof {
            if top is Some {
                assert(self.children@.subrange(0, vis) == self.children@.subrange(0, vis));
                assert(max_chosen(self.children@, (top_move, top->0), *alpha_beta));
                reveal(max_solved);
                assert(max_solved(*self, max_depth as nat, *scorer, *alpha_beta));
            }
        }
        self.will_die = will_die;
        (self.score, total)
    }
}

} // verus!
