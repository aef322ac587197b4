//! The score used in tournaments.
use vstd::prelude::*;

use super::{kills, kills_defined, spec_kills, spec_turns_survived, turns_defined, turns_survived, Scorer};
use crate::logic::game::GameMode;
use crate::logic::game::GameModel;
use crate::logic::voronoi::{self, voronoi_ok};
use crate::logic::Game;

verus! {

/// The tournament score for a given number of controlled tiles: a billion points off when
/// our snake is dead (else a thousand points per tile), one point per turn survived and ten
/// million points per kill.
pub open spec fn spec_tournament(g: GameModel, tiles: int) -> int {
    (if g.you.health <= 0 { -1_000_000_000int } else { tiles * 1000 }) + spec_turns_survived(g) + (spec_kills(
        g,
    ) as i64) * 10_000_000
}

/// One more opponent killed in the last turn, all else equal, raises the tournament score
/// by exactly 10,000,000.
pub proof fn law_tournament_kill_is_ten_million(g: GameModel, tiles: int)
    requires
        tournament_fits(g),
        tournament_fits(GameModel { dead_snakes: g.dead_snakes + 1, ..g }),
        0 <= g.dead_snakes < i64::MAX,
    ensures
        spec_tournament(GameModel { dead_snakes: g.dead_snakes + 1, ..g }, tiles) == spec_tournament(g, tiles) + 10_000_000,
{
    let g2 = GameModel { dead_snakes: g.dead_snakes + 1, ..g };
    assert(spec_kills(g2) == spec_kills(g) + 1);
    assert(0 <= spec_kills(g) < spec_kills(g2) <= i64::MAX);
}

/// Each tile our live snake controls is worth 1000 points of the tournament score; a dead
/// snake's score does not depend on tiles.
pub proof fn law_tournament_tile_is_a_thousand(g: GameModel, tiles: int)
    ensures
        g.you.health > 0 ==> spec_tournament(g, tiles + 1) == spec_tournament(g, tiles) + 1000,
        g.you.health <= 0 ==> spec_tournament(g, tiles + 1) == spec_tournament(g, tiles),
{
}

/// Surviving one more turn, all else equal, raises the tournament score by one.
pub proof fn law_tournament_turn_is_one(g: GameModel, tiles: int)
    requires
        0 <= g.turn < i64::MAX,
    ensures
        spec_tournament(GameModel { turn: g.turn + 1, ..g }, tiles) == spec_tournament(g, tiles) + 1,
{
}

pub open spec fn tournament_fits(g: GameModel) -> bool {
    &&& turns_defined(g)
    &&& kills_defined(g)
    &&& g.you.health > 0 ==> voronoi_ok(g)
    &&& 0 <= (spec_kills(g) as i64)
    &&& (spec_kills(g) as i64) * 10_000_000 <= i64::MAX
    &&& i64::MIN + 1_000_000_000 <= spec_turns_survived(g)
    &&& spec_turns_survived(g) + 16_129_000 + (spec_kills(g) as i64) * 10_000_000 <= i64::MAX
}

pub fn tournament(game: &Game) -> (res: i64)
    requires
        tournament_fits(game@),
    ensures
        res == spec_tournament(game@, voronoi::voronoi_count(game@, 65535, 0)),
        exists|tiles: int|
            0 <= tiles <= game@.board.width * game@.board.height && res == spec_tournament(game@, tiles),
{
    let mut score: i64 = 0;
    let ghost mut tiles: int = 0;
    proof {
        game.board.lemma_model();
    }
    if game.you.dead() {
        score -= 1_000_000_000;
    } else {
        let me = voronoi::me(game);
        proof {
            tiles = me as int;
            assert(me * 1000 <= 127 * 127 * 1000) by (nonlinear_arith)
                requires
                    me <= game@.board.width * game@.board.height,
                    0 <= game@.board.width,
                    0 <= game@.board.height,
                    game@.board.width < 127,
                    game@.board.height < 127,
            ;
        }
        score += me as i64 * 1_000;
    }
    score += turns_survived(game);
    score += kills(game) as i64 * 10_000_000;
    proof {
        assert(score == spec_tournament(game@, tiles));
        assert(score == spec_tournament(game@, voronoi::voronoi_count(game@, 65535, 0)));
    }
    score
}

fn head_on(p: crate::logic::Point, w: isize, h: isize) -> (res: bool)
    ensures
        res == (0 <= p.x < w && 0 <= p.y < h),
{
    0 <= p.x && (p.x as isize) < w && 0 <= p.y && (p.y as isize) < h
}

/// Whether the tournament score can be computed on the game, as `tournament_fits` says.
pub fn tournament_fits_game(game: &Game) -> (res: bool)
    ensures
        res == tournament_fits(game@),
{
    proof {
        game.board.lemma_model();
    }
    if game.you.health <= 0 && (game.turn as i64 == i64::MIN || game.dead_snakes < 1) {
        return false;
    }
    if game.you.health > 0 {
        let (w, h) = (game.board.width(), game.board.height());
        if game.others.len() >= voronoi::MAX_SNAKES || w >= 127 || h >= 127 {
            return false;
        }
        if !head_on(game.you.head, w, h) {
            return false;
        }
        let mut i: usize = 0;
        while i < game.others.len()
            invariant
                i <= game@.others.len(),
                game@.you.health > 0,
                w == game@.board.width,
                h == game@.board.height,
                forall|j: int| 0 <= j < i ==> game@.board.in_bounds(#[trigger] game@.others[j].head),
            decreases game@.others.len() - i,
        {
            proof {
                assert(game@.others[i as int] == game.others@[i as int]@);
            }
            if !head_on(game.others[i].head, w, h) {
                proof {
                    assert(game@.others[i as int] == game.others@[i as int]@);
                    assert(!game@.board.in_bounds(game@.others[i as int].head));
                }
                return false;
            }
            i += 1;
        }
    }
    let k = kills(game) as i64;
    let t = turns_survived(game);
    if k < 0 || t < i64::MIN + 1_000_000_000 {
        return false;
    }
    match k.checked_mul(10_000_000) {
        None => false,
        Some(kp) => match t.checked_add(16_129_000) {
            None => false,
            Some(t1) => t1.checked_add(kp).is_some(),
        },
    }
}

/// The tournament score as a scorer: where the game is too large for it (see
/// `tournament_fits`), the lowest score.
pub struct TournamentScore;

impl Scorer for TournamentScore {
    open spec fn spec_score(&self, g: Game) -> i64 {
        if tournament_fits(g@) {
            spec_tournament(g@, voronoi::voronoi_count(g@, 65535, 0)) as i64
        } else {
            i64::MIN
        }
    }

    fn score(&self, game: &Game) -> (res: i64)
        ensures
            tournament_fits(game@) ==> exists|tiles: int|
                0 <= tiles <= game@.board.width * game@.board.height && res == spec_tournament(game@, tiles),
            !tournament_fits(game@) ==> res == i64::MIN,
    {
        if tournament_fits_game(game) {
            tournament(game)
        } else {
            i64::MIN
        }
    }
}

} // verus!
