//! Scoring functions: how good a game state is for our snake.
use vstd::prelude::*;

use super::game::GameModel;
use super::voronoi::{self, voronoi_ok};
use super::Game;

pub mod encoding;
pub mod pruning;
pub mod rank;
pub mod tournament;
pub mod winter;

pub use tournament::tournament as tournament_score;

verus! {

/// A way of scoring a game for our snake: the higher, the better.
pub trait Scorer {
    /// The score of a game: what `score` returns for it.
    spec fn spec_score(&self, g: Game) -> i64;

    fn score(&self, game: &Game) -> (res: i64)
        ensures
            res == self.spec_score(*game),
    ;
}

/// A score that ranks games by turns survived, then kills, then length.
#[derive(Copy, Clone, PartialEq, Eq, Ord, Default, Debug)]
pub struct SurvivalKillsLengthScore {
    pub turns_survived: i64,
    pub kills: usize,
    pub length: usize,
}

/// A score that ranks games by turns survived, then tiles controlled, then kills, then
/// length.
#[derive(Copy, Clone, PartialEq, Eq, Ord, Default, Debug)]
pub struct VoronoiScore {
    pub turns_survived: i64,
    pub tiles_controlled: usize,
    pub kills: usize,
    pub length: isize,
}

/// The number of turns our snake has survived: the turn number, one less once it is dead.
pub open spec fn spec_turns_survived(g: GameModel) -> int {
    if g.you.health > 0 {
        g.turn as i64 as int
    } else {
        g.turn as i64 - 1
    }
}

/// The number of snakes killed in the last turn, not counting our own death.
pub open spec fn spec_kills(g: GameModel) -> int {
    if g.you.health > 0 {
        g.dead_snakes
    } else {
        g.dead_snakes - 1
    }
}

pub open spec fn kills_defined(g: GameModel) -> bool {
    g.you.health <= 0 ==> g.dead_snakes >= 1
}

pub open spec fn turns_defined(g: GameModel) -> bool {
    g.you.health <= 0 ==> g.turn as i64 != i64::MIN
}

pub fn turns_survived(game: &Game) -> (res: i64)
    requires
        turns_defined(game@),
    ensures
        res == spec_turns_survived(game@),
{
    if game.you.health > 0 {
        game.turn as i64
    } else {
        game.turn as i64 - 1
    }
}

pub fn kills(game: &Game) -> (res: usize)
    requires
        kills_defined(game@),
    ensures
        res == spec_kills(game@),
{
    if game.you.health > 0 {
        game.dead_snakes
    } else {
        game.dead_snakes - 1
    }
}

/// The first scoring function: survival, then kills, then length.
pub fn classic(game: &Game) -> (res: SurvivalKillsLengthScore)
    requires
        turns_defined(game@),
        kills_defined(game@),
    ensures
        res.turns_survived == spec_turns_survived(game@),
        res.kills == spec_kills(game@),
        res.length == game@.you.length,
{
    SurvivalKillsLengthScore { turns_survived: turns_survived(game), kills: kills(game), length: game.you.length }
}

/// A variation of the classic score that uses Voronoi partitioning to grade games by the
/// number of tiles our snake controls.
pub fn voronoi(game: &Game) -> (res: VoronoiScore)
    requires
        turns_defined(game@),
        kills_defined(game@),
        voronoi_ok(game@),
    ensures
        res.turns_survived == spec_turns_survived(game@),
        res.tiles_controlled == voronoi::voronoi_count(game@, 65535, 0),
        res.tiles_controlled <= game@.board.width * game@.board.height,
        voronoi::head_alone(game@) ==> res.tiles_controlled >= 1,
        res.kills == spec_kills(game@),
        res.length == game@.you.length as isize,
{
    VoronoiScore {
        turns_survived: turns_survived(game),
        tiles_controlled: voronoi::me(game),
        kills: kills(game),
        length: game.you.length as isize,
    }
}

/// The length of the longest opponent, 0 without opponents.
pub open spec fn spec_max_length(others: Seq<super::snake::SnakeModel>, k: int) -> int
    decreases k,
{
    if k <= 0 {
        0
    } else {
        let m = spec_max_length(others, k - 1);
        if k == 1 || others[k - 1].length > m {
            others[k - 1].length
        } else {
            m
        }
    }
}

pub open spec fn spec_relative_length(g: GameModel) -> int {
    (g.you.length as isize) - (spec_max_length(g.others, g.others.len() as int) as isize)
}

proof fn lemma_max_length(others: Seq<super::snake::SnakeModel>, k: int)
    requires
        0 <= k <= others.len(),
    ensures
        forall|i: int| 0 <= i < k ==> others[i].length <= spec_max_length(others, k),
        k > 0 ==> exists|i: int| 0 <= i < k && others[i].length == spec_max_length(others, k),
        k == 0 ==> spec_max_length(others, k) == 0,
    decreases k,
{
    if k > 0 {
        lemma_max_length(others, k - 1);
        if k > 1 {
            let i0 = choose|i: int| 0 <= i < k - 1 && others[i].length == spec_max_length(others, k - 1);
            assert(0 <= i0 < k);
        }
    }
}

/// The relative length is our length less that of the longest opponent: it is at most
/// our length less any opponent's, and equal to it for some opponent; with no opponents
/// it is our length.
pub proof fn law_relative_length_is_to_the_longest(g: GameModel)
    requires
        0 <= g.you.length <= isize::MAX,
        forall|i: int| 0 <= i < g.others.len() ==> 0 <= #[trigger] g.others[i].length <= isize::MAX,
    ensures
        forall|i: int|
            0 <= i < g.others.len() ==> spec_relative_length(g) <= g.you.length - #[trigger] g.others[i].length,
        g.others.len() > 0 ==> exists|i: int|
            0 <= i < g.others.len() && spec_relative_length(g) == g.you.length - #[trigger] g.others[i].length,
        g.others.len() == 0 ==> spec_relative_length(g) == g.you.length,
{
    let n = g.others.len() as int;
    lemma_max_length(g.others, n);
    let m = spec_max_length(g.others, n);
    if n > 0 {
        let i0 = choose|i: int| 0 <= i < n && g.others[i].length == m;
        assert(0 <= m <= isize::MAX);
    }
    assert(0 <= m <= isize::MAX);
    assert((g.you.length as isize) as int == g.you.length);
    assert((m as isize) as int == m);
}

/// Like `voronoi`, but the length is taken relative to the longest opponent, which makes
/// the snake eat to keep up with its enemies.
pub fn voronoi_relative_length(game: &Game) -> (res: VoronoiScore)
    requires
        turns_defined(game@),
        kills_defined(game@),
        voronoi_ok(game@),
        isize::MIN <= spec_relative_length(game@) <= isize::MAX,
    ensures
        res.turns_survived == spec_turns_survived(game@),
        res.tiles_controlled == voronoi::voronoi_count(game@, 65535, 0),
        res.tiles_controlled <= game@.board.width * game@.board.height,
        voronoi::head_alone(game@) ==> res.tiles_controlled >= 1,
        res.kills == spec_kills(game@),
        res.length == spec_relative_length(game@),
{
    let mut max_length: usize = 0;
    let mut i: usize = 0;
    while i < game.others.len()
        invariant
            i <= game.others@.len(),
            max_length == spec_max_length(game@.others, i as int),
        decreases game.others@.len() - i,
    {
        let len = game.others[i].length;
        proof {
            assert(game@.others[i as int].length == len);
        }
        if i == 0 || len > max_length {
            max_length = len;
        }
        i += 1;
    }
    VoronoiScore {
        turns_survived: turns_survived(game),
        tiles_controlled: voronoi::me(game),
        kills: kills(game),
        length: game.you.length as isize - max_length as isize,
    }
}

/// The number of tiles our snake controls: our head's tile among them when no opponent's
/// head shares it.
pub fn voronoi_me(game: &Game) -> (res: usize)
    requires
        voronoi_ok(game@),
    ensures
        res == voronoi::voronoi_count(game@, 65535, 0),
        res <= game@.board.width * game@.board.height,
        voronoi::head_alone(game@) ==> res >= 1,
{
    voronoi::me(game)
}

/// The number of tiles our snake controls, taken from the partition of all snakes: our
/// head's tile among them when no opponent's head shares it.
pub fn voronoi_all(game: &Game) -> (res: usize)
    requires
        voronoi_ok(game@),
    ensures
        res == voronoi::voronoi_count(game@, 65535, 0),
        res <= game@.board.width * game@.board.height,
        voronoi::head_alone(game@) ==> res >= 1,
{
    let counts = voronoi::all(game);
    proof {
        voronoi::lemma_first_score_bound(counts@);
    }
    counts[0]
}

} // verus!
