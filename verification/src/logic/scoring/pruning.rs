//! Scores that never prune a search: one below and one above every other score.
use vstd::prelude::*;

use crate::logic::Game;

verus! {

#[derive(PartialEq, Eq, PartialOrd, Ord, Debug)]
pub struct NoMinPruningScore {}

#[derive(PartialEq, Eq, PartialOrd, Ord, Debug)]
pub struct NoMaxPruningScore {}

pub fn no_max_pruning(_game: &Game) -> (res: NoMaxPruningScore)
    ensures
        res == (NoMaxPruningScore {}),
{
    NoMaxPruningScore {}
}

pub fn no_min_pruning(_game: &Game) -> (res: NoMinPruningScore)
    ensures
        res == (NoMinPruningScore {}),
{
    NoMinPruningScore {}
}

} // verus!
