//! The ranking of the scores: field by field, the first difference decides.
use vstd::prelude::*;

use std::cmp::Ordering;
use vstd::std_specs::cmp::PartialOrdSpecImpl;

use super::{SurvivalKillsLengthScore, VoronoiScore};

verus! {

/// How `a` compares with `b`.
pub open spec fn order_of_i64(a: i64, b: i64) -> Ordering {
    if a < b {
        Ordering::Less
    } else if a == b {
        Ordering::Equal
    } else {
        Ordering::Greater
    }
}

/// How `a` compares with `b`.
pub open spec fn order_of_usize(a: usize, b: usize) -> Ordering {
    if a < b {
        Ordering::Less
    } else if a == b {
        Ordering::Equal
    } else {
        Ordering::Greater
    }
}

/// How `a` compares with `b`.
pub open spec fn order_of_isize(a: isize, b: isize) -> Ordering {
    if a < b {
        Ordering::Less
    } else if a == b {
        Ordering::Equal
    } else {
        Ordering::Greater
    }
}

/// The ranking of classic scores: by turns survived, then kills, then length.
pub open spec fn classic_order(a: SurvivalKillsLengthScore, b: SurvivalKillsLengthScore) -> Ordering {
    if a.turns_survived != b.turns_survived {
        order_of_i64(a.turns_survived, b.turns_survived)
    } else if a.kills != b.kills {
        order_of_usize(a.kills, b.kills)
    } else {
        order_of_usize(a.length, b.length)
    }
}

/// The ranking of Voronoi scores: by turns survived, then tiles controlled, then kills,
/// then length.
pub open spec fn voronoi_order(a: VoronoiScore, b: VoronoiScore) -> Ordering {
    if a.turns_survived != b.turns_survived {
        order_of_i64(a.turns_survived, b.turns_survived)
    } else if a.tiles_controlled != b.tiles_controlled {
        order_of_usize(a.tiles_controlled, b.tiles_controlled)
    } else if a.kills != b.kills {
        order_of_usize(a.kills, b.kills)
    } else {
        order_of_isize(a.length, b.length)
    }
}

fn order_i64(a: i64, b: i64) -> (res: Ordering)
    ensures
        res == order_of_i64(a, b),
{
    if a < b {
        Ordering::Less
    } else if a == b {
        Ordering::Equal
    } else {
        Ordering::Greater
    }
}

fn order_usize(a: usize, b: usize) -> (res: Ordering)
    ensures
        res == order_of_usize(a, b),
{
    if a < b {
        Ordering::Less
    } else if a == b {
        Ordering::Equal
    } else {
        Ordering::Greater
    }
}

fn order_isize(a: isize, b: isize) -> (res: Ordering)
    ensures
        res == order_of_isize(a, b),
{
    if a < b {
        Ordering::Less
    } else if a == b {
        Ordering::Equal
    } else {
        Ordering::Greater
    }
}

impl PartialOrd for SurvivalKillsLengthScore {
    fn partial_cmp(&self, other: &Self) -> (res: Option<Ordering>) {
        if self.turns_survived != other.turns_survived {
            Some(order_i64(self.turns_survived, other.turns_survived))
        } else if self.kills != other.kills {
            Some(order_usize(self.kills, other.kills))
        } else {
            Some(order_usize(self.length, other.length))
        }
    }
}

impl PartialOrdSpecImpl for SurvivalKillsLengthScore {
    open spec fn obeys_partial_cmp_spec() -> bool {
        true
    }

    open spec fn partial_cmp_spec(&self, other: &Self) -> Option<Ordering> {
        Some(classic_order(*self, *other))
    }
}

impl PartialOrd for VoronoiScore {
    fn partial_cmp(&self, other: &Self) -> (res: Option<Ordering>) {
        if self.turns_survived != other.turns_survived {
            Some(order_i64(self.turns_survived, other.turns_survived))
        } else if self.tiles_controlled != other.tiles_controlled {
            Some(order_usize(self.tiles_controlled, other.tiles_controlled))
        } else if self.kills != other.kills {
            Some(order_usize(self.kills, other.kills))
        } else {
            Some(order_isize(self.length, other.length))
        }
    }
}

impl PartialOrdSpecImpl for VoronoiScore {
    open spec fn obeys_partial_cmp_spec() -> bool {
        true
    }

    open spec fn partial_cmp_spec(&self, other: &Self) -> Option<Ordering> {
        Some(voronoi_order(*self, *other))
    }
}

} // verus!
