//! An alpha-beta minimax snake.
use vstd::prelude::*;

use std::time::Instant;

use crate::logic::{Direction, Game};
use crate::protocol::Customizations;

use self::scores::Scoretree;
use self::solve::{ab_value, leads_to, scores_traced, you_die_moving, SearchTrace};

pub mod scores;
pub mod solve;
pub mod util;

verus! {

pub const DEFAULT_COLOR: &'static str = "#b54d47";

pub const DEFAULT_HEAD: &'static str = "scarf";

pub const DEFAULT_TAIL: &'static str = "rocket";

/// The customizations given, or else the snake's own colour, head and tail.
pub fn customizations_or(
    customizations: Option<Customizations>,
    color: &str,
    head: &str,
    tail: &str,
) -> (res: Customizations)
    ensures
        customizations is Some ==> res == customizations->0,
        customizations is None ==> res.color@ == color@ && res.head@ == head@ && res.tail@ == tail@,
{
    match customizations {
        Some(c) => c,
        None => Customizations { color: color.to_owned(), head: head.to_owned(), tail: tail.to_owned() },
    }
}

/// The minimax snake: an expensive score for the leaves of the search, cheap lower and
/// upper bounds for pruning, and how it looks.
pub struct Spaceheater2<Fscore, Fmin, Fmax> {
    pub expensive_score_fn: Fscore,
    pub cheap_min_score_fn: Fmin,
    pub cheap_max_score_fn: Fmax,
    pub customizations: Customizations,
}

impl<Fscore, Fmin, Fmax> Spaceheater2<Fscore, Fmin, Fmax> {
    /// The snake with the given scores; without customizations it is red with a scarf and
    /// a rocket tail.
    pub fn new(
        expensive_score_fn: Fscore,
        cheap_min_score_fn: Fmin,
        cheap_max_score_fn: Fmax,
        customizations: Option<Customizations>,
    ) -> (res: Self)
        ensures
            res.expensive_score_fn == expensive_score_fn,
            res.cheap_min_score_fn == cheap_min_score_fn,
            res.cheap_max_score_fn == cheap_max_score_fn,
            customizations is Some ==> res.customizations == customizations->0,
            customizations is None ==> res.customizations.color@ == DEFAULT_COLOR@ && res.customizations.head@
                == DEFAULT_HEAD@ && res.customizations.tail@ == DEFAULT_TAIL@,
    {
        Spaceheater2 {
            expensive_score_fn,
            cheap_min_score_fn,
            cheap_max_score_fn,
            customizations: customizations_or(customizations, DEFAULT_COLOR, DEFAULT_HEAD, DEFAULT_TAIL),
        }
    }
}

impl<Fscore: Fn(&Game) -> i64, Fmin, Fmax> Spaceheater2<Fscore, Fmin, Fmax> {
    /// Our move: the first move of the path that `solve::solve` finds from this game, with
    /// its score; down, with the score of the game itself, where no move got a score. The
    /// move is down or one that is not certain death, and the score is that of a game the
    /// path leads to: the value of the search (`solve::ab_value`) for what the clock and
    /// the scorer answered.
    pub fn solve(&self, game: &Game, deadline: Instant, max_depth: usize) -> (res: (Direction, i64))
        requires
            forall|g: &Game| #[trigger] self.expensive_score_fn.requires((g,)),
        ensures
            res.0 == Direction::Down || !you_die_moving(game@, res.0),
            game@.you.health <= 0 || max_depth == 0 ==> res.0 == Direction::Down && self.expensive_score_fn.ensures(
                (game,),
                res.1,
            ),
            exists|p: Seq<Direction>, e: Game|
                leads_to(game@, p, e@) && self.expensive_score_fn.ensures((&e,), res.1) && (p.len() > 0 ==> res.0 == p[0])
                    && (p.len() == 0 ==> res.0 == Direction::Down && self.expensive_score_fn.ensures((game,), res.1)),
            exists|t: SearchTrace|
                #![trigger ab_value(game@, 0, max_depth as int, None, None, t)]
                scores_traced(self.expensive_score_fn, game@, t) && res.1 == ab_value(game@, 0, max_depth as int, None, None, t).1
                    && (ab_value(game@, 0, max_depth as int, None, None, t).0.len() > 0 ==> res.0 == ab_value(
                    game@,
                    0,
                    max_depth as int,
                    None,
                    None,
                    t,
                ).0[0]) && (ab_value(game@, 0, max_depth as int, None, None, t).0.len() == 0 ==> res.0 == Direction::Down),
    {
        let scores: Scoretree<i64> = Scoretree::new();
        let (path, score) = solve::solve(
            game,
            Vec::new(),
            &self.expensive_score_fn,
            &scores,
            &deadline,
            max_depth,
            None,
            None,
        );
        proof {
            let e = choose|e: Game| leads_to(game@, path@, e@) && self.expensive_score_fn.ensures((&e,), score);
            assert(leads_to(game@, path@, e@));
        }
        if path.len() > 0 {
            (path[0], score)
        } else {
            (Direction::Down, score)
        }
    }
}

} // verus!
