//! The bounds of an alpha-beta search.
use vstd::prelude::*;

verus! {

/// The scores a node of the search already has guaranteed: `alpha`, the best our snake can
/// force, and `beta`, the worst the opponents can force. A node's bounds start as those of
/// its parent and only narrow; on one thread the bounds along the path to the root are
/// therefore those of the deepest node, so that a node keeps only its own.
#[derive(Clone, Copy, Debug)]
pub struct AlphaBeta {
    pub alpha: i64,
    pub beta: i64,
    pub has_parent: bool,
}

impl AlphaBeta {
    /// The bounds of a root.
    pub fn new(a: i64, b: i64) -> (res: AlphaBeta)
        ensures
            res == (AlphaBeta { alpha: a, beta: b, has_parent: false }),
    {
        AlphaBeta { alpha: a, beta: b, has_parent: false }
    }

    /// The bounds of a child, starting as these.
    pub fn new_child(&self) -> (res: AlphaBeta)
        ensures
            res == (AlphaBeta { alpha: self.alpha, beta: self.beta, has_parent: true }),
    {
        AlphaBeta { alpha: self.alpha, beta: self.beta, has_parent: true }
    }

    /// Raises alpha to `a` if that is higher; the old alpha comes back.
    pub fn new_alpha_score(&mut self, a: i64) -> (res: i64)
        ensures
            res == old(self).alpha,
            final(self).alpha == if a > old(self).alpha { a } else { old(self).alpha },
            final(self).beta == old(self).beta,
            final(self).has_parent == old(self).has_parent,
    {
        let prev = self.alpha;
        if a > prev {
            self.alpha = a;
        }
        prev
    }

    /// Lowers beta to `b` if that is lower; the old beta comes back.
    pub fn new_beta_score(&mut self, b: i64) -> (res: i64)
        ensures
            res == old(self).beta,
            final(self).beta == if b < old(self).beta { b } else { old(self).beta },
            final(self).alpha == old(self).alpha,
            final(self).has_parent == old(self).has_parent,
    {
        let prev = self.beta;
        if b < prev {
            self.beta = b;
        }
        prev
    }

    /// Whether the node's remaining children cannot change the outcome: below the root,
    /// once alpha reaches beta.
    pub fn should_be_pruned(&self) -> (res: bool)
        ensures
            res == (self.has_parent && self.alpha >= self.beta),
    {
        self.has_parent && self.alpha >= self.beta
    }
}

} // verus!
