//! How many leaves a search tree can have, to judge how to share out the work.
use vstd::prelude::*;

use vstd::arithmetic::power::{lemma_pow0, lemma_pow_increases, pow};

verus! {

/// `base` to the power `exp`, or `None` where that does not fit in a `usize`.
fn checked_pow(base: usize, exp: u32) -> (res: Option<usize>)
    requires
        base >= 1,
    ensures
        match res {
            Some(v) => v == pow(base as int, exp as nat),
            None => pow(base as int, exp as nat) > usize::MAX,
        },
{
    let mut acc: usize = 1;
    let mut i: u32 = 0;
    proof {
        lemma_pow0(base as int);
    }
    while i < exp
        invariant
            i <= exp,
            base >= 1,
            acc == pow(base as int, i as nat),
        decreases exp - i,
    {
        proof {
            assert(pow(base as int, (i + 1) as nat) == base * pow(base as int, i as nat)) by {
                reveal(pow);
            }
        }
        match acc.checked_mul(base) {
            Some(v) => {
                acc = v;
            },
            None => {
                proof {
                    lemma_pow_increases(base as nat, (i + 1) as nat, exp as nat);
                }
                return None;
            },
        }
        i += 1;
    }
    Some(acc)
}

/// The number of leaves below a node where our snake moves, `depth` of our moves deep,
/// each of the three moves of every snake counted: `3^((others + 1) * depth)`, computed
/// as `(3^(others + 1))^depth` with the counts taken as `u32`; where it does not fit in a
/// `usize`, `usize::MAX`.
pub open spec fn spec_max_leaf_nodes_max_node(other_snake_count: usize, depth: usize) -> int {
    let per_turn = pow(3, ((other_snake_count as u32) + 1) as nat);
    if per_turn > usize::MAX {
        usize::MAX as int
    } else if pow(per_turn, (depth as u32) as nat) > usize::MAX {
        usize::MAX as int
    } else {
        pow(per_turn, (depth as u32) as nat)
    }
}

/// The number of leaves below a node where our snake moves; see
/// `spec_max_leaf_nodes_max_node`.
pub fn max_leaf_nodes_max_node(other_snake_count: usize, depth: usize) -> (res: usize)
    requires
        (other_snake_count as u32) < u32::MAX,
    ensures
        res == spec_max_leaf_nodes_max_node(other_snake_count, depth),
{
    let v = checked_pow(3, other_snake_count as u32 + 1);
    match v {
        None => usize::MAX,
        Some(per_turn) => {
            proof {
                lemma_pow_increases(3, 0, ((other_snake_count as u32) + 1) as nat);
                lemma_pow0(3);
            }
            match checked_pow(per_turn, depth as u32) {
                Some(n) => n,
                None => usize::MAX,
            }
        },
    }
}

/// The number of leaves below a node where the opponents move: a third of those below a
/// node where our snake moves.
pub fn max_leaf_nodes_min_node(other_snake_count: usize, depth: usize) -> (res: usize)
    requires
        (other_snake_count as u32) < u32::MAX,
    ensures
        res == spec_max_leaf_nodes_max_node(other_snake_count, depth) / 3,
{
    max_leaf_nodes_max_node(other_snake_count, depth) / 3
}

} // verus!
