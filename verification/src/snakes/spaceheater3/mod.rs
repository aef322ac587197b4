//! A minimax snake with iterative deepening.
use vstd::prelude::*;

use std::time::Instant;

use crate::logic::scoring::Scorer;
use crate::logic::{Direction, Game};
use crate::logic::game::{duration_from_millis, fits, request_fits, spec_from_millis, spec_game_from};
use crate::protocol::{self, Customizations};
use crate::snakes::deadline::deadline_within;
use crate::Battlesnake;
use crate::snakes::spaceheater2::customizations_or;
use crate::snakes::spaceheater2::solve::{playable, you_die_moving};

use self::alphabeta::AlphaBeta;
use self::max::{lemma_up_chain_extend, max_solved, max_tree_ok, up_chain, MaximizingNode};

pub mod alphabeta;
pub mod leaves;
pub mod max;
pub mod min;
pub mod util;

verus! {

pub const DEFAULT_COLOR: &'static str = "#b54d47";

pub const DEFAULT_HEAD: &'static str = "scarf";

pub const DEFAULT_TAIL: &'static str = "rocket";

/// The minimax snake with iterative deepening: how it scores games and how it looks.
pub struct Spaceheater3<S> {
    pub scorer: S,
    pub customizations: Customizations,
}

impl<S> Spaceheater3<S> {
    /// The snake with the given scorer; without customizations it is red with a scarf and
    /// a rocket tail.
    pub fn new(scorer: S, customizations: Option<Customizations>) -> (res: Self)
        ensures
            res.scorer == scorer,
            customizations is Some ==> res.customizations == customizations->0,
            customizations is None ==> res.customizations.color@ == DEFAULT_COLOR@ && res.customizations.head@
                == DEFAULT_HEAD@ && res.customizations.tail@ == DEFAULT_TAIL@,
    {
        Spaceheater3 { scorer, customizations: customizations_or(customizations, DEFAULT_COLOR, DEFAULT_HEAD, DEFAULT_TAIL) }
    }
}

/// The refusal of a move whose deadline lies outside the range of the clock.
pub const DEADLINE_OUT_OF_RANGE: &'static str = "deadline out of the clock's range";

impl<S: Scorer> Spaceheater3<S> {
    /// Answers a move with the search up to `deadline`: the best move found with its
    /// score, or up with "no result"; refused exactly when no deadline could be formed.
    pub fn answer_move(&self, game: Game, deadline: Option<Instant>, game_id: String) -> (res: Result<
        protocol::MoveResponse,
        String,
    >)
        ensures
            res is Ok <==> deadline is Some,
            res matches Err(e) ==> e@ == DEADLINE_OUT_OF_RANGE@,
            res matches Ok(m) ==> ((exists|d: Direction| !you_die_moving(game@, d)) ==> (m.direction == Direction::Up
                || !you_die_moving(game@, m.direction))),
    {
        match deadline {
            None => Err(DEADLINE_OUT_OF_RANGE.to_owned()),
            Some(d) => match self.solve(game, &d, game_id) {
                Some((direction, score)) => Ok(protocol::MoveResponse { direction, shout: score.to_string() }),
                None => Ok(protocol::MoveResponse { direction: Direction::Up, shout: "no result".to_owned() }),
            },
        }
    }

    /// Searches the game ever deeper, starting at the depth that `base_depth` gives for its
    /// opponents, until the deadline passes or a level brings no new score: the best move
    /// found and its score, `None` when not even the first level was completed. A move
    /// other than up that comes back is never certain death.
    pub fn solve(&self, game: Game, deadline: &Instant, game_id: String) -> (res: Option<(Direction, i64)>)
        ensures
            (exists|d: Direction| !you_die_moving(game@, d)) ==> (res matches Some(s) ==> (s.0 == Direction::Up
                || !you_die_moving(game@, s.0))),
            res matches Some(s) ==> (game@.you.health <= 0 || !playable(game@) ==> s == (
                Direction::Up,
                self.scorer.spec_score(game),
            )),
            res is Some ==> level_solved(game, res, start_depth(game.others@.len()), self.scorer),
    {
        let enemy_count = game.others.len();
        let mut root = MaximizingNode::new(game);
        let base = base_depth(enemy_count);
        deepen(&mut root, deadline, base, &self.scorer)
    }
}

/// The bounds a root is searched with: nothing guaranteed yet.
pub open spec fn full_window() -> AlphaBeta {
    AlphaBeta { alpha: i64::MIN, beta: i64::MAX, has_parent: false }
}

/// `res` is the root score of a search tree of `game` that a completed level of the search,
/// at least `base_depth` deep, with the full bounds, solved all the way down (see
/// `max_solved` and `max_tree_ok`); the tree's game is `game` itself unless every move of
/// ours in it is certain death (then it is `game` after our snake moved up, turn after
/// turn, see `up_chain`).
pub open spec fn level_solved<S: Scorer>(game: Game, res: Option<(Direction, i64)>, base_depth: nat, scorer: S) -> bool {
    exists|t: MaximizingNode, d: nat|
        d >= base_depth && max_tree_ok(t) && max_solved(t, d, scorer, full_window()) && t.score == res && (t.game == game || (
        (forall|m: Direction| you_die_moving(game@, m)) && exists|k: nat| up_chain(game@, t.game@, k)))
}

/// A root without a score that is scored as it is, at every depth: our snake is dead, or
/// the game's next turn cannot be played.
pub open spec fn leaf_game(root: MaximizingNode) -> bool {
    &&& root.score is None
    &&& root.game.you.health <= 0 || !playable(root.game@)
}

/// Iterative deepening: solves the tree at depth `base_depth`, then one deeper each time,
/// until a level is cut off by the deadline or its score equals that of the level before.
/// What comes back is the result of the last level completed, or the root's score from
/// before when none was: the root's score once the search stops (see
/// `MaximizingNode::solve` for how a level scores the root). The root's game changes only
/// where every move of ours is certain death (our snake is then moved up).
pub fn deepen<S: Scorer>(root: &mut MaximizingNode, deadline: &Instant, base_depth: usize, scorer: &S) -> (res: Option<(
    Direction,
    i64,
)>)
    requires
        max_tree_ok(*old(root)),
    ensures
        max_tree_ok(*final(root)),
        res matches Some(s) ==> (s.0 == Direction::Up || !you_die_moving(final(root).game@, s.0)),
        final(root).game == old(root).game || forall|d: Direction| you_die_moving(old(root).game@, d),
        final(root).game == old(root).game || exists|k: nat| up_chain(old(root).game@, final(root).game@, k),
        old(root).score is Some ==> res is Some,
        res == final(root).score,
        res matches Some(s) ==> (leaf_game(*old(root)) ==> s == (Direction::Up, scorer.spec_score(old(root).game))),
        res is Some && old(root).score is None ==> level_solved(old(root).game, res, base_depth as nat, *scorer),
{
    let mut best_score = root.score;
    let mut last_score: Option<i64> = None;
    let mut current_depth = base_depth;
    let ghost mut solved_tree: MaximizingNode = *root;
    let ghost mut solved_depth: nat = 0;
    let ghost mut any_level = false;
    while current_depth < usize::MAX
        invariant
            max_tree_ok(*root),
            (best_score == old(root).score && root.game == old(root).game) || (best_score matches Some(s) && (s.0
                == Direction::Up || !you_die_moving(root.game@, s.0))),
            root.game == old(root).game || forall|d: Direction| you_die_moving(old(root).game@, d),
            old(root).score is Some ==> best_score is Some,
            best_score == root.score,
            leaf_game(*old(root)) ==> root.game == old(root).game && (best_score matches Some(s) ==> s == (
                Direction::Up,
                scorer.spec_score(old(root).game),
            )),
            current_depth >= base_depth,
            !any_level ==> best_score == old(root).score,
            any_level ==> solved_depth >= base_depth && max_tree_ok(solved_tree) && max_solved(solved_tree, solved_depth, *scorer, full_window()) && solved_tree.score
                == best_score && (solved_tree.game == old(root).game || forall|m: Direction| you_die_moving(old(root).game@, m))
                && (solved_tree.game == old(root).game || exists|k: nat| up_chain(old(root).game@, solved_tree.game@, k)),
            root.game == old(root).game || exists|k: nat| up_chain(old(root).game@, root.game@, k),
        decreases usize::MAX - current_depth,
    {
        let ghost prev = root.game;
        let (res, _node_count) = root.solve(deadline, current_depth, scorer, &AlphaBeta::new(i64::MIN, i64::MAX));
        proof {
            if root.game != prev {
                if prev == old(root).game {
                    assert(up_chain(old(root).game@, old(root).game@, 0));
                    lemma_up_chain_extend(old(root).game@, old(root).game@, 0);
                } else {
                    let k = choose|k: nat| up_chain(old(root).game@, prev@, k);
                    lemma_up_chain_extend(old(root).game@, prev@, k);
                }
            }
        }
        match res {
            Some(r) => {
                best_score = Some(r);
                proof {
                    solved_tree = *root;
                    solved_depth = current_depth as nat;
                    any_level = true;
                }
            },
            None => {
                break;
            },
        }
        let same = match (last_score, best_score) {
            (Some(a), Some(b)) => a == b.1,
            (None, None) => true,
            _ => false,
        };
        if same {
            break;
        }
        last_score = match best_score {
            Some(b) => Some(b.1),
            None => None,
        };
        current_depth += 1;
    }
    proof {
        if best_score is Some && old(root).score is None {
            assert(max_solved(solved_tree, solved_depth, *scorer, full_window()));
        }
    }
    best_score
}

/// The search depth to start from, given the number of opponents: the more opponents, the
/// more enemy moves each level of the search has to consider.
pub open spec fn start_depth(enemy_count: nat) -> nat {
    if enemy_count == 0 {
        5
    } else if enemy_count == 1 {
        3
    } else if enemy_count <= 4 {
        2
    } else {
        1
    }
}

/// The search depth to start from: see `start_depth`.
pub fn base_depth(enemy_count: usize) -> (res: usize)
    ensures
        res == start_depth(enemy_count as nat),
{
    match enemy_count {
        0 => 5,
        1 => 3,
        2 => 2,
        3 => 2,
        4 => 2,
        _ => 1,
    }
}

/// How much earlier than the server's timeout the snake answers.
pub const LATENCY_MARGIN_MS: u64 = 100;

impl<S: Scorer> Battlesnake for Spaceheater3<S> {
    fn snake_info(&self) -> (res: protocol::SnakeInfo)
        ensures
            res.apiversion@ == "1"@ && res.author@ == ""@ && res.version@ == "2"@,
            res.color@ == self.customizations.color@ && res.head@ == self.customizations.head@ && res.tail@
                == self.customizations.tail@,
    {
        protocol::SnakeInfo {
            apiversion: "1".to_owned(),
            author: "".to_owned(),
            color: self.customizations.color.clone(),
            head: self.customizations.head.clone(),
            tail: self.customizations.tail.clone(),
            version: "2".to_owned(),
        }
    }

    fn start(&self, _req: &protocol::Request) -> (res: Result<(), String>)
        ensures
            res is Ok,
    {
        Ok(())
    }

    fn end(&self, _req: &protocol::Request) -> (res: Result<(), String>)
        ensures
            res is Ok,
    {
        Ok(())
    }

    /// Searches until shortly before the move is due and answers the best move found with
    /// its score; up with "no result" when not even the first level was completed (at once
    /// when the timeout is shorter than the margin). A request the engine cannot read is
    /// refused, and so is a deadline outside the range of the clock.
    fn make_move(&self, req: &protocol::Request) -> (res: Result<protocol::MoveResponse, String>)
        ensures
            !request_fits(*req) ==> res is Err,
            res matches Err(e) ==> !request_fits(*req) || e@ == DEADLINE_OUT_OF_RANGE@,
            res matches Ok(m) ==> ((exists|d: Direction| !you_die_moving(spec_game_from(*req), d)) ==> (m.direction
                == Direction::Up || !you_die_moving(spec_game_from(*req), m.direction))),
    {
        if !fits(req) {
            return Err("request too large".to_owned());
        }
        let game_id = req.game.id.clone();
        let game = Game::from(req);
        let margin = duration_from_millis(LATENCY_MARGIN_MS);
        let deadline = deadline_within(&game.timeout, &margin);
        self.answer_move(game, deadline, game_id)
    }
}

} // verus!
