//! The nodes of the search where the opponents move.
use vstd::prelude::*;

use std::time::Instant;

use crate::logic::scoring::Scorer;
use crate::logic::{Direction, Game};
use crate::snakes::deadline::past_deadline;
use crate::snakes::spaceheater2::solve::{lemma_playable, playable};

use super::alphabeta::AlphaBeta;
use super::max::{
    lemma_run_min_prefix, lemma_up_chain_extend, max_node_key, max_solved, max_tree_ok, min_chosen, min_child_bounds, min_solved,
    min_tree_ok, reply_game, run_min, score_min, up_chain, MaximizingNode,
};
use super::util::{all_sensible_enemy_moves, spec_enemy_combos, vec_views};

verus! {

/// A game in which our move `my_move` is made and the opponents move: the lowest score
/// found, and a child for each combination of sensible opponent moves.
pub struct MinimizingNode {
    pub my_move: Direction,
    pub score: Option<i64>,
    pub children: Vec<MaximizingNode>,
    pub will_die: bool,
}

/// The order of scores in which a maximizing node wants its children: highest first,
/// those without a score last.
pub open spec fn min_node_key(n: MinimizingNode) -> i64 {
    match n.score {
        Some(s) => s,
        None => i64::MIN,
    }
}

fn min_key(n: &MinimizingNode) -> (res: i64)
    ensures
        res == min_node_key(*n),
{
    match n.score {
        Some(s) => s,
        None => i64::MIN,
    }
}

fn max_key(n: &MaximizingNode) -> (res: i64)
    ensures
        res == max_node_key(*n),
{
    match n.score {
        Some(s) => s.1,
        None => i64::MAX,
    }
}

/// Sorts the children of a maximizing node, highest score first; among equal scores the
/// order stays.
pub fn sort_min_nodes(v: &mut Vec<MinimizingNode>)
    ensures
        final(v)@.to_multiset() == old(v)@.to_multiset(),
        forall|a: int, b: int| 0 <= a < b < final(v)@.len() ==> min_node_key(#[trigger] final(v)@[a]) >= min_node_key(#[trigger] final(v)@[b]),
{
    broadcast use vstd::seq_lib::to_multiset_remove, vstd::seq_lib::to_multiset_insert;

    let n = v.len();
    let mut i: usize = 1;
    while i < n
        invariant
            n == v@.len(),
            1 <= i,
            v@.to_multiset() == old(v)@.to_multiset(),
            forall|a: int, b: int| 0 <= a < b < i && b < n ==> min_node_key(#[trigger] v@[a]) >= min_node_key(#[trigger] v@[b]),
        decreases n - i,
    {
        let ghost v0 = v@;
        let x = v.remove(i);
        let kx = min_key(&x);
        let mut k: usize = 0;
        while k < i && min_key(&v[k]) >= kx
            invariant
                k <= i,
                i < n,
                v0.len() == n,
                v@ == v0.remove(i as int),
                x == v0[i as int],
                kx == min_node_key(x),
                forall|a: int| 0 <= a < k ==> min_node_key(#[trigger] v@[a]) >= kx,
            decreases i - k,
        {
            k += 1;
        }
        let ghost r = v@;
        v.insert(k, x);
        proof {
            assert(v@ == r.insert(k as int, x));
            assert(v@.to_multiset() =~= v0.to_multiset()) by {
                broadcast use vstd::multiset::group_multiset_axioms;

                vstd::seq_lib::to_multiset_remove(v0, i as int);
                vstd::seq_lib::to_multiset_insert(r, k as int, x);
                assert(v0.to_multiset().count(x) > 0) by {
                    vstd::seq_lib::to_multiset_contains(v0, x);
                    assert(v0.contains(x)) by {
                        assert(v0[i as int] == x);
                    }
                }
            }
            assert forall|a: int, b: int| 0 <= a < b < i + 1 && b < n implies min_node_key(#[trigger] v@[a]) >= min_node_key(
                #[trigger] v@[b],
            ) by {
                let va = if a < k {
                    v0[a]
                } else if a == k {
                    x
                } else {
                    v0[a - 1]
                };
                let vb = if b < k {
                    v0[b]
                } else if b == k {
                    x
                } else {
                    v0[b - 1]
                };
                assert(v@[a] == va);
                assert(v@[b] == vb);
                if a < k && b == k {
                    assert(r[a] == v0[a]);
                } else if a == k && b > k {
                    if k < i {
                        assert(r[k as int] == v0[k as int]);
                        assert(min_node_key(v0[k as int]) < kx);
                        assert(min_node_key(v0[k as int]) >= min_node_key(v0[b - 1]) || k == b - 1);
                    }
                } else if a < k && b > k {
                    assert(min_node_key(v0[a]) >= min_node_key(v0[b - 1]));
                } else if a > k {
                    assert(min_node_key(v0[a - 1]) >= min_node_key(v0[b - 1]));
                } else {
                    assert(min_node_key(v0[a]) >= min_node_key(v0[b]));
                }
            }
        }
        i += 1;
    }
}

/// Sorts the children of a minimizing node, lowest score first; among equal scores the
/// order stays.
pub fn sort_max_nodes(v: &mut Vec<MaximizingNode>)
    ensures
        final(v)@.to_multiset() == old(v)@.to_multiset(),
        forall|a: int, b: int| 0 <= a < b < final(v)@.len() ==> max_node_key(#[trigger] final(v)@[a]) <= max_node_key(#[trigger] final(v)@[b]),
{
    broadcast use vstd::seq_lib::to_multiset_remove, vstd::seq_lib::to_multiset_insert;

    let n = v.len();
    let mut i: usize = 1;
    while i < n
        invariant
            n == v@.len(),
            1 <= i,
            v@.to_multiset() == old(v)@.to_multiset(),
            forall|a: int, b: int| 0 <= a < b < i && b < n ==> max_node_key(#[trigger] v@[a]) <= max_node_key(#[trigger] v@[b]),
        decreases n - i,
    {
        let ghost v0 = v@;
        let x = v.remove(i);
        let kx = max_key(&x);
        let mut k: usize = 0;
        while k < i && max_key(&v[k]) <= kx
            invariant
                k <= i,
                i < n,
                v0.len() == n,
                v@ == v0.remove(i as int),
                x == v0[i as int],
                kx == max_node_key(x),
                forall|a: int| 0 <= a < k ==> max_node_key(#[trigger] v@[a]) <= kx,
            decreases i - k,
        {
            k += 1;
        }
        let ghost r = v@;
        v.insert(k, x);
        proof {
            assert(v@ == r.insert(k as int, x));
            assert(v@.to_multiset() =~= v0.to_multiset()) by {
                broadcast use vstd::multiset::group_multiset_axioms;

                vstd::seq_lib::to_multiset_remove(v0, i as int);
                vstd::seq_lib::to_multiset_insert(r, k as int, x);
                assert(v0.to_multiset().count(x) > 0) by {
                    vstd::seq_lib::to_multiset_contains(v0, x);
                    assert(v0.contains(x)) by {
                        assert(v0[i as int] == x);
                    }
                }
            }
            assert forall|a: int, b: int| 0 <= a < b < i + 1 && b < n implies max_node_key(#[trigger] v@[a]) <= max_node_key(
                #[trigger] v@[b],
            ) by {
                let va = if a < k {
                    v0[a]
                } else if a == k {
                    x
                } else {
                    v0[a - 1]
                };
                let vb = if b < k {
                    v0[b]
                } else if b == k {
                    x
                } else {
                    v0[b - 1]
                };
                assert(v@[a] == va);
                assert(v@[b] == vb);
                if a < k && b == k {
                    assert(r[a] == v0[a]);
                } else if a == k && b > k {
                    if k < i {
                        assert(r[k as int] == v0[k as int]);
                        assert(max_node_key(v0[k as int]) > kx);
                        assert(max_node_key(v0[k as int]) <= max_node_key(v0[b - 1]) || k == b - 1);
                    }
                } else if a < k && b > k {
                    assert(max_node_key(v0[a]) <= max_node_key(v0[b - 1]));
                } else if a > k {
                    assert(max_node_key(v0[a - 1]) <= max_node_key(v0[b - 1]));
                } else {
                    assert(max_node_key(v0[a]) <= max_node_key(v0[b]));
                }
            }
        }
        i += 1;
    }
}

impl MinimizingNode {
    pub fn new(my_move: Direction) -> (res: MinimizingNode)
        ensures
            res.my_move == my_move,
            res.score is None,
            res.children@.len() == 0,
            !res.will_die,
    {
        MinimizingNode { my_move, score: None, children: Vec::new(), will_die: false }
    }

    pub fn will_die(&self) -> (res: bool)
        ensures
            res == self.will_die,
    {
        self.will_die
    }

    /// Compares the scores of two nodes, higher first, a node without a score counting as
    /// the lowest.
    pub fn cmp_scores(&self, other: &Self) -> (res: std::cmp::Ordering)
        ensures
            res == if min_node_key(*other) < min_node_key(*self) {
                std::cmp::Ordering::Less
            } else if min_node_key(*other) == min_node_key(*self) {
                std::cmp::Ordering::Equal
            } else {
                std::cmp::Ordering::Greater
            },
    {
        let a = match self.score {
            Some(s) => s,
            None => i64::MIN,
        };
        let b = match other.score {
            Some(s) => s,
            None => i64::MIN,
        };
        if b < a {
            std::cmp::Ordering::Less
        } else if b == a {
            std::cmp::Ordering::Equal
        } else {
            std::cmp::Ordering::Greater
        }
    }

    /// The games after our move and each combination of sensible opponent moves, as fresh
    /// children; on a later visit, the children sorted worst first for us.
    fn update_children(&mut self, game: &Game)
        requires
            playable(game@),
            min_tree_ok(*old(self), game@),
        ensures
            final(self).my_move == old(self).my_move,
            final(self).score == old(self).score,
            final(self).will_die == old(self).will_die,
            min_tree_ok(*final(self), game@),
            old(self).children@.len() == 0 ==> {
                &&& final(self).children@.len() == spec_enemy_combos(game@, game@.others.len() as int).len()
                &&& forall|i: int|
                    0 <= i < final(self).children@.len() ==> {
                        &&& (#[trigger] final(self).children@[i]).game@ == crate::logic::game::spec_execute_moves(
                            game@,
                            old(self).my_move,
                            spec_enemy_combos(game@, game@.others.len() as int)[i],
                        )
                        &&& final(self).children@[i].score is None
                        &&& final(self).children@[i].children@.len() == 0
                        &&& !final(self).children@[i].will_die
                    }
            },
            old(self).children@.len() > 0 ==> {
                &&& final(self).children@.to_multiset() == old(self).children@.to_multiset()
                &&& forall|a: int, b: int|
                    0 <= a < b < final(self).children@.len() ==> max_node_key(#[trigger] final(self).children@[a])
                        <= max_node_key(#[trigger] final(self).children@[b])
            },
    {
        proof {
            lemma_playable(game@);
        }
        if self.children.len() == 0 {
            let combos = all_sensible_enemy_moves(game);
            proof {
                crate::snakes::spaceheater2::solve::lemma_combo_lengths(game@, game@.others.len() as int);
            }
            let mut j: usize = 0;
            while j < combos.len()
                invariant
                    j <= combos@.len(),
                    forall|d: Direction, ds: Seq<Direction>| ds.len() <= game@.others.len() ==> #[trigger] crate::logic::game::moves_computable(game@, d, ds),
                    vec_views(combos@) == spec_enemy_combos(game@, game@.others.len() as int),
                    forall|i: int|
                        0 <= i < spec_enemy_combos(game@, game@.others.len() as int).len() ==> (#[trigger] spec_enemy_combos(
                            game@,
                            game@.others.len() as int,
                        )[i]).len() == game@.others.len(),
                    self.my_move == old(self).my_move,
                    self.score == old(self).score,
                    self.will_die == old(self).will_die,
                    forall|i: int| 0 <= i < self.children@.len() ==> max_tree_ok(#[trigger] self.children@[i]),
                    old(self).children@.len() == 0,
                    self.children@.len() == j,
                    forall|i: int|
                        0 <= i < j ==> {
                            &&& (#[trigger] self.children@[i]).game@ == crate::logic::game::spec_execute_moves(
                                game@,
                                old(self).my_move,
                                spec_enemy_combos(game@, game@.others.len() as int)[i],
                            )
                            &&& self.children@[i].score is None
                            &&& self.children@[i].children@.len() == 0
                            &&& !self.children@[i].will_die
                        },
                decreases combos@.len() - j,
            {
                proof {
                    assert(vec_views(combos@)[j as int] == combos@[j as int]@);
                }
                let mut next = game.clone();
                next.execute_moves(self.my_move, &combos[j]);
                let ghost c0 = self.children@;
                self.children.push(MaximizingNode::new(next));
                proof {
                    assert forall|i: int| 0 <= i < self.children@.len() implies max_tree_ok(#[trigger] self.children@[i]) by {
                        if i < c0.len() {
                            assert(self.children@[i] == c0[i]);
                        }
                    }
                    assert(self.children@[j as int].game@ == next@);
                    assert forall|i: int| 0 <= i < j + 1 implies {
                        &&& (#[trigger] self.children@[i]).game@ == crate::logic::game::spec_execute_moves(
                            game@,
                            old(self).my_move,
                            spec_enemy_combos(game@, game@.others.len() as int)[i],
                        )
                        &&& self.children@[i].score is None
                        &&& self.children@[i].children@.len() == 0
                        &&& !self.children@[i].will_die
                    } by {
                        if i < j {
                            assert(self.children@[i] == c0[i]);
                        }
                    }
                }
                j += 1;
            }
            proof {
                let cs = spec_enemy_combos(game@, game@.others.len() as int);
                assert(cs.len() == combos@.len());
                assert forall|i: int| 0 <= i < self.children@.len() implies max_tree_ok(#[trigger] self.children@[i])
                    && reply_game(game@, self.my_move, self.children@[i].game@) by {
                    assert(up_chain(
                        crate::logic::game::spec_execute_moves(game@, self.my_move, cs[i]),
                        self.children@[i].game@,
                        0,
                    ));
                }
            }
        } else {
            let ghost c0 = self.children@;
            sort_max_nodes(&mut self.children);
            proof {
                assert forall|i: int| 0 <= i < self.children@.len() implies max_tree_ok(#[trigger] self.children@[i])
                    && reply_game(game@, self.my_move, self.children@[i].game@) by {
                    super::util::lemma_multiset_member(self.children@, c0, i);
                    let j = choose|j: int| 0 <= j < c0.len() && c0[j] == self.children@[i];
                    assert(max_tree_ok(c0[j]) && reply_game(game@, old(self).my_move, c0[j].game@));
                }
            }
        }
    }

    /// Searches the opponents' replies to our move, `max_depth` moves of ours deep, unless
    /// the deadline passes first (then nothing comes back): the lowest score they can give
    /// us, and the number of nodes searched.
    #[verifier::spinoff_prover]
    #[verifier::rlimit(60)]
    pub fn solve<S: Scorer>(
        &mut self,
        game: &Game,
        deadline: &Instant,
        max_depth: usize,
        scorer: &S,
        alpha_beta: &AlphaBeta,
    ) -> (res: (Option<i64>, usize))
        requires
            max_depth >= 1,
            playable(game@),
            min_tree_ok(*old(self), game@),
        ensures
            final(self).my_move == old(self).my_move,
            min_tree_ok(*final(self), game@),
            res.0 is Some ==> res.0 == final(self).score,
            res.0 matches Some(v) ==> min_chosen(final(self).children@, v, *alpha_beta),
            res.0 is Some ==> min_solved(*final(self), max_depth as nat, *scorer, *alpha_beta),
            res.0 is None ==> final(self).score == old(self).score || final(self).score is None,
        decreases max_depth, 0int,
    {
        self.update_children(game);
        let mut min_score: i64 = i64::MAX;
        let mut ab = alpha_beta.new_child();
        let mut total: usize = 0;
        let mut will_die = false;
        let mut any = false;
        let ghost mut vis: int = 0;
        let ghost s0 = self.score;
        let mut i: usize = 0;
        while i < self.children.len()
            invariant
                i <= self.children@.len(),
                max_depth >= 1,
                self.my_move == old(self).my_move,
                self.score == s0,
                s0 == old(self).score,
                forall|j: int| 0 <= j < self.children@.len() ==> max_tree_ok(#[trigger] self.children@[j]) && reply_game(
                    game@,
                    self.my_move,
                    self.children@[j].game@,
                ),
                0 <= vis <= i,
                any <==> vis > 0,
                !any ==> min_score == i64::MAX,
                ab.alpha == alpha_beta.alpha,
                ab.has_parent,
                ab.beta == (if any { score_min(alpha_beta.beta, min_score) } else { alpha_beta.beta }),
                forall|k: int| 0 <= k < vis ==> (#[trigger] self.children@[k]).score is Some && (self.children@[k].score->0).1
                    >= min_score,
                any ==> exists|k: int| 0 <= k < vis && ((#[trigger] self.children@[k]).score->0).1 == min_score
                    && self.children@[k].score is Some,
                vis < i ==> ab.alpha >= ab.beta,
                ab.beta == run_min(self.children@, alpha_beta.beta, vis),
                forall|k: int|
                    0 <= k < vis ==> max_solved(
                        #[trigger] self.children@[k],
                        (max_depth - 1) as nat,
                        *scorer,
                        min_child_bounds(self.children@, *alpha_beta, k),
                    ),
                forall|k: int| 0 <= k < vis ==> alpha_beta.alpha < #[trigger] run_min(self.children@, alpha_beta.beta, k),
            decreases self.children@.len() - i,
        {
            let ghost c_start = self.children@;
            let ghost ab_start = ab;
            if !ab.should_be_pruned() {
                proof {
                    assert(vis == i);
                }
                let mut child = MaximizingNode::new(game.clone());
                std::mem::swap(&mut child, &mut self.children[i]);
                let ghost ab_call = ab;
                let (next_score, node_count) = child.solve(deadline, max_depth - 1, scorer, &ab);
                let ghost c_before = self.children@;
                let ghost min_before = min_score;
                let ghost any_before = any;
                match next_score {
                    Some(s) => {
                        total = total.wrapping_add(node_count);
                        let previous = min_score;
                        if s.1 < min_score {
                            min_score = s.1;
                        }
                        if previous > s.1 {
                            will_die = child.will_die;
                            ab.new_beta_score(s.1);
                        }
                        any = true;
                    },
                    None => {
                        // Cut off by the clock: so is this node.
                        std::mem::swap(&mut child, &mut self.children[i]);
                        proof {
                            assert forall|j: int| 0 <= j < self.children@.len() implies max_tree_ok(#[trigger] self.children@[j])
                                && reply_game(game@, self.my_move, self.children@[j].game@) by {
                                if j != i {
                                    assert(self.children@[j] == c_before[j]);
                                } else {
                                    assert(self.children@[j].game == c_start[j].game);
                                }
                            }
                        }
                        return (None, total);
                    },
                }
                std::mem::swap(&mut child, &mut self.children[i]);
                proof {
                    assert forall|j: int| 0 <= j < self.children@.len() implies max_tree_ok(#[trigger] self.children@[j])
                        && reply_game(game@, self.my_move, self.children@[j].game@) by {
                        if j != i {
                            assert(self.children@[j] == c_before[j]);
                        } else {
                            let old_g = c_start[j].game@;
                            assert(reply_game(game@, self.my_move, old_g));
                            if self.children@[j].game != c_start[j].game {
                                let (r, k) = choose|r: int, k: nat|
                                    0 <= r < spec_enemy_combos(game@, game@.others.len() as int).len() && #[trigger] up_chain(
                                        crate::logic::game::spec_execute_moves(
                                            game@,
                                            self.my_move,
                                            spec_enemy_combos(game@, game@.others.len() as int)[r],
                                        ),
                                        old_g,
                                        k,
                                    );
                                lemma_up_chain_extend(
                                    crate::logic::game::spec_execute_moves(
                                        game@,
                                        self.my_move,
                                        spec_enemy_combos(game@, game@.others.len() as int)[r],
                                    ),
                                    old_g,
                                    k,
                                );
                            }
                        }
                    }
                    assert forall|j: int| 0 <= j < vis implies self.children@[j] == c_start[j] by {}
                    lemma_run_min_prefix(self.children@, c_start, alpha_beta.beta, vis);
                    assert(ab_call == min_child_bounds(self.children@, *alpha_beta, vis));
                    assert(ab_call.alpha < ab_call.beta);
                    assert(max_solved(self.children@[i as int], (max_depth - 1) as nat, *scorer, ab_call));
                    assert(ab.beta == run_min(self.children@, alpha_beta.beta, vis + 1));
                    assert forall|k: int| 0 <= k < vis + 1 implies (#[trigger] self.children@[k]).score is Some && (
                    self.children@[k].score->0).1 >= min_score && max_solved(
                        self.children@[k],
                        (max_depth - 1) as nat,
                        *scorer,
                        min_child_bounds(self.children@, *alpha_beta, k),
                    ) && alpha_beta.alpha < run_min(self.children@, alpha_beta.beta, k) by {
                        if k < vis {
                            assert(self.children@[k] == c_before[k]);
                            lemma_run_min_prefix(self.children@, c_start, alpha_beta.beta, k);
                        }
                    }
                    if any_before {
                        let k0 = choose|k: int| 0 <= k < vis && ((#[trigger] c_start[k]).score->0).1 == min_before
                            && c_start[k].score is Some;
                        assert(self.children@[k0] == c_start[k0]);
                        if min_score < min_before {
                            assert(((self.children@[i as int]).score->0).1 == min_score);
                        } else {
                            assert(((self.children@[k0]).score->0).1 == min_score);
                        }
                    } else {
                        assert(((self.children@[i as int]).score->0).1 == min_score);
                    }
                    assert(((self.children@[i as int]).score->0).1 == (next_score->0).1);
                    if min_score < min_before {
                        assert(ab.beta == score_min(ab_start.beta, min_score));
                    }
                    vis = vis + 1;
                    assert(forall|k: int|
                        0 <= k < vis ==> max_solved(
                            #[trigger] self.children@[k],
                            (max_depth - 1) as nat,
                            *scorer,
                            min_child_bounds(self.children@, *alpha_beta, k),
                        ));
                    assert(forall|k: int| 0 <= k < vis ==> alpha_beta.alpha < #[trigger] run_min(self.children@, alpha_beta.beta, k));
                }
            }
            i += 1;
        }
        if past_deadline(deadline) {
            return (None, total);
        }
        let result = if any {
            Some(min_score)
        } else {
            None
        };
        self.will_die = will_die;
        self.score = result;
        proof {
            if any {
                assert(self.children@.subrange(0, vis) == self.children@.subrange(0, vis));
                assert(min_chosen(self.children@, min_score, *alpha_beta));
                reveal(min_solved);
                assert(min_solved(*self, max_depth as nat, *scorer, *alpha_beta));
            }
        }
        (result, total)
    }
}

} // verus!
