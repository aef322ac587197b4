//! A snake that searches the game tree by Monte Carlo tree search.
use vstd::prelude::*;

use crate::protocol::Customizations;
use crate::snakes::spaceheater2::customizations_or;

verus! {

pub const DEFAULT_COLOR: &'static str = "#FF5C75";

pub const DEFAULT_HEAD: &'static str = "safe";

pub const DEFAULT_TAIL: &'static str = "round-bum";

/// The tree search snake: how it scores games and how it looks.
pub struct Salami<S> {
    pub scorer: S,
    pub customizations: Customizations,
}

impl<S> Salami<S> {
    /// The snake with the given scorer; without customizations it is pink with a safe head
    /// and a round tail.
    pub fn new(scorer: S, customizations: Option<Customizations>) -> (res: Self)
        ensures
            res.scorer == scorer,
            customizations is Some ==> res.customizations == customizations->0,
            customizations is None ==> res.customizations.color@ == DEFAULT_COLOR@ && res.customizations.head@
                == DEFAULT_HEAD@ && res.customizations.tail@ == DEFAULT_TAIL@,
    {
        Salami { scorer, customizations: customizations_or(customizations, DEFAULT_COLOR, DEFAULT_HEAD, DEFAULT_TAIL) }
    }
}

} // verus!
