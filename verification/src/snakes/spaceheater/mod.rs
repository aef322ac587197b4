//! A snake that plays out every combination of moves one turn ahead and keeps the worst
//! outcome of each of its own moves on a scorecard.
use vstd::prelude::*;

use std::time::Duration;

use crate::logic::game::{moves_computable, spec_execute_moves, spec_from_millis, GameModel};
use crate::logic::snake::SnakeModel;
use crate::logic::{Direction, Game, Point, Tile};
use crate::protocol::{all_directions, spec_all_directions};
use crate::snakes::spaceheater3::util::{clone_moves, spec_target, vec_views};
use crate::logic::point::{has_neighbours, warp_size_ok};
use crate::logic::game::GameMode;

use self::scorecard::{spec_post, Scorecard};

pub mod scorecard;

verus! {

/// Whether moving onto `p` with health `hp` is certain death: a wall, or hazards whose
/// damage per turn exceeds the health.
pub open spec fn spec_certain_death(g: GameModel, p: Point, hp: int) -> bool {
    match g.board.tile(p) {
        Tile::Hazard(_) | Tile::HazardWithSnake(_) | Tile::HazardWithHead(_) => g.rules.hazard_damage_per_turn > hp,
        Tile::Wall => true,
        _ => false,
    }
}

/// Whether moving onto `p` with health `hp` is certain death.
pub fn certain_death(game: &Game, p: &Point, hp: i8) -> (res: bool)
    ensures
        res == spec_certain_death(game@, *p, hp as int),
{
    match game.board.get(p) {
        Tile::Hazard(_) | Tile::HazardWithSnake(_) | Tile::HazardWithHead(_) => game.rules.hazard_damage_per_turn > hp,
        Tile::Wall => true,
        _ => false,
    }
}

/// The score of a game: the turns our snake survived times 100, plus the snakes that died
/// (when it died in the last turn, that turn and its own death do not count).
pub open spec fn spec_score_game(g: GameModel) -> int {
    if g.you.health > 0 {
        g.turn * 100 + g.dead_snakes
    } else {
        (g.turn - 1) * 100 + g.dead_snakes - 1
    }
}

/// The score of a game can be computed: a snake that died did so in some turn, among the
/// snakes that died, and the score fits in a `usize`.
pub open spec fn score_computable(g: GameModel) -> bool {
    &&& g.you.health <= 0 ==> g.turn >= 1 && g.dead_snakes >= 1
    &&& 0 <= spec_score_game(g) <= usize::MAX
}

/// The score of a game: the turns our snake survived times 100, plus the snakes that died.
pub fn score_game(game: &Game) -> (res: usize)
    requires
        score_computable(game@),
    ensures
        res == spec_score_game(game@),
{
    let (turns_alive, kills) = if game.you.health > 0 {
        (game.turn, game.dead_snakes)
    } else {
        (game.turn - 1, game.dead_snakes - 1)
    };
    proof {
        assert(turns_alive * 100 <= turns_alive * 100 + kills);
    }
    turns_alive * 100 + kills
}

/// The directions, in the usual order, in which the snake does not certainly die; just
/// `Up` when it dies in every direction.
pub open spec fn spec_viable_moves(g: GameModel, s: SnakeModel) -> Seq<Direction> {
    let moves = spec_all_directions().filter(|d: Direction| !spec_certain_death(g, spec_target(g, s, d), s.health));
    if moves.len() == 0 {
        seq![Direction::Up]
    } else {
        moves
    }
}

/// The moves of a snake can be tried: its neighbours exist, and the board can be wrapped
/// in a wrapped game.
pub open spec fn moves_triable(g: GameModel, s: SnakeModel) -> bool {
    &&& has_neighbours(s.head)
    &&& g.rules.game_mode == GameMode::Wrapped ==> warp_size_ok(g.board.width as isize, g.board.height as isize)
}

/// Every combination of viable moves of the first `k` opponents; the moves of the last
/// opponent vary slowest.
pub open spec fn spec_move_combos(g: GameModel, k: int) -> Seq<Seq<Direction>>
    decreases k,
{
    if k <= 0 {
        seq![seq![]]
    } else {
        let prev = spec_move_combos(g, k - 1);
        let moves = spec_viable_moves(g, g.others[k - 1]);
        Seq::new(moves.len() * prev.len(), |i: int| prev[i % (prev.len() as int)].push(moves[i / (prev.len() as int)]))
    }
}

fn viable_moves(game: &Game, snake: &crate::logic::Snake) -> (res: Vec<Direction>)
    requires
        moves_triable(game@, snake@),
    ensures
        res@ == spec_viable_moves(game@, snake@),
{
    let dirs = all_directions();
    let mut res: Vec<Direction> = Vec::new();
    let mut i: usize = 0;
    while i < 4
        invariant
            i <= 4,
            dirs@ == spec_all_directions(),
            moves_triable(game@, snake@),
            res@ == spec_all_directions().take(i as int).filter(
                |d: Direction| !spec_certain_death(game@, spec_target(game@, snake@, d), snake@.health),
            ),
        decreases 4 - i,
    {
        let d = dirs[i];
        let mut p = snake.head.neighbour(d);
        game.warp(&mut p);
        proof {
            reveal_with_fuel(Seq::filter, 1);
            assert(spec_all_directions().take(i + 1).drop_last() =~= spec_all_directions().take(i as int));
        }
        if !certain_death(game, &p, snake.health) {
            res.push(d);
        }
        i += 1;
    }
    proof {
        assert(spec_all_directions().take(4) =~= spec_all_directions());
    }
    if res.len() == 0 {
        let mut up: Vec<Direction> = Vec::new();
        up.push(Direction::Up);
        proof {
            assert(up@ =~= seq![Direction::Up]);
        }
        up
    } else {
        res
    }
}

proof fn lemma_combos_nonempty(g: GameModel, k: int)
    ensures
        spec_move_combos(g, k).len() >= 1,
    decreases k,
{
    if k > 0 {
        lemma_combos_nonempty(g, k - 1);
        let prev = spec_move_combos(g, k - 1);
        let moves = spec_viable_moves(g, g.others[k - 1]);
        assert(moves.len() * prev.len() >= 1) by (nonlinear_arith)
            requires
                moves.len() >= 1,
                prev.len() >= 1,
        ;
    }
}

proof fn lemma_index_split(a: int, b: int, n: int)
    requires
        n > 0,
        0 <= b < n,
        a >= 0,
    ensures
        (a * n + b) / n == a,
        (a * n + b) % n == b,
{
    vstd::arithmetic::div_mod::lemma_fundamental_div_mod_converse(a * n + b, n, a, b);
}

/// The number of combinations stays representable.
pub open spec fn move_combos_fit(g: GameModel) -> bool {
    forall|k: int| 0 <= k <= g.others.len() ==> #[trigger] spec_move_combos(g, k).len() <= usize::MAX
}

/// Every combination of viable moves of the opponents.
pub fn move_combos(game: &Game) -> (res: Vec<Vec<Direction>>)
    requires
        forall|i: int| 0 <= i < game@.others.len() ==> moves_triable(game@, #[trigger] game@.others[i]),
        move_combos_fit(game@),
    ensures
        vec_views(res@) == spec_move_combos(game@, game@.others.len() as int),
{
    let mut combos: Vec<Vec<Direction>> = Vec::new();
    combos.push(Vec::new());
    proof {
        assert(vec_views(combos@) =~= spec_move_combos(game@, 0));
    }
    let mut e: usize = 0;
    while e < game.others.len()
        invariant
            e <= game@.others.len(),
            forall|i: int| 0 <= i < game@.others.len() ==> moves_triable(game@, #[trigger] game@.others[i]),
            move_combos_fit(game@),
            vec_views(combos@) == spec_move_combos(game@, e as int),
        decreases game@.others.len() - e,
    {
        let enemy = &game.others[e];
        proof {
            assert(game@.others[e as int] == enemy@);
        }
        let moves_v = viable_moves(game, enemy);
        let ghost prev = spec_move_combos(game@, e as int);
        let ghost moves = moves_v@;
        proof {
            lemma_combos_nonempty(game@, e as int);
            assert(spec_move_combos(game@, e + 1).len() <= usize::MAX);
            assert(spec_move_combos(game@, e + 1).len() == moves.len() * prev.len());
        }
        let mut next: Vec<Vec<Direction>> = Vec::new();
        let mut a: usize = 0;
        while a < moves_v.len()
            invariant
                a <= moves.len(),
                moves_v@ == moves,
                vec_views(combos@) == prev,
                prev.len() >= 1,
                moves.len() * prev.len() <= usize::MAX,
                next@.len() == a * prev.len(),
                forall|i: int|
                    0 <= i < next@.len() ==> #[trigger] next@[i]@ == prev[i % (prev.len() as int)].push(moves[i / (prev.len() as int)]),
            decreases moves.len() - a,
        {
            let mut b: usize = 0;
            proof {
                assert((a + 1) * prev.len() <= moves.len() * prev.len()) by (nonlinear_arith)
                    requires
                        a + 1 <= moves.len(),
                        prev.len() >= 1,
                ;
                assert((a + 1) * prev.len() == a * prev.len() + prev.len()) by (nonlinear_arith);
            }
            while b < combos.len()
                invariant
                    a < moves.len(),
                    b <= prev.len(),
                    moves_v@ == moves,
                    vec_views(combos@) == prev,
                    prev.len() >= 1,
                    next@.len() == a * prev.len() + b,
                    a * prev.len() + prev.len() <= usize::MAX,
                    forall|i: int|
                        0 <= i < next@.len() ==> #[trigger] next@[i]@ == prev[i % (prev.len() as int)].push(moves[i / (prev.len() as int)]),
                decreases prev.len() - b,
            {
                let mut combo = clone_moves(&combos[b]);
                combo.push(moves_v[a]);
                proof {
                    assert(vec_views(combos@)[b as int] == combos@[b as int]@);
                    lemma_index_split(a as int, b as int, prev.len() as int);
                }
                next.push(combo);
                b += 1;
            }
            a += 1;
        }
        proof {
            assert(vec_views(next@) =~= spec_move_combos(game@, e + 1));
        }
        combos = next;
        e += 1;
    }
    combos
}


/// The games after our move `d` and each of the first `j` combinations of opponent moves
/// in which our snake still lives, each with our move.
pub open spec fn successors_for(g: GameModel, d: Direction, combos: Seq<Seq<Direction>>, j: int) -> Seq<(Direction, GameModel)>
    decreases j,
{
    if j <= 0 {
        Seq::empty()
    } else {
        let prev = successors_for(g, d, combos, j - 1);
        let next = spec_execute_moves(g, d, combos[j - 1]);
        if next.you.health > 0 {
            prev.push((d, next))
        } else {
            prev
        }
    }
}

/// The lowest score of the games after our move `d` and each of the first `j` combinations
/// of opponent moves (`usize::MAX` before any).
pub open spec fn worst_score(g: GameModel, d: Direction, combos: Seq<Seq<Direction>>, j: int) -> int
    decreases j,
{
    if j <= 0 {
        usize::MAX as int
    } else {
        let w = worst_score(g, d, combos, j - 1);
        let s = spec_score_game(spec_execute_moves(g, d, combos[j - 1]));
        if s < w {
            s
        } else {
            w
        }
    }
}

/// Whether our move `d` is not certain death.
pub open spec fn you_may_move(g: GameModel, d: Direction) -> bool {
    !spec_certain_death(g, spec_target(g, g.you, d), g.you.health)
}

pub open spec fn all_combos(g: GameModel) -> Seq<Seq<Direction>> {
    spec_move_combos(g, g.others.len() as int)
}

/// The games after each of the first `k` of our moves that is not certain death, in the
/// order up, down, left, right, and each combination of opponent moves, in which our snake
/// still lives.
pub open spec fn evaluated_successors(g: GameModel, k: int) -> Seq<(Direction, GameModel)>
    decreases k,
{
    if k <= 0 {
        Seq::empty()
    } else {
        let prev = evaluated_successors(g, k - 1);
        let d = spec_all_directions()[k - 1];
        if you_may_move(g, d) {
            prev + successors_for(g, d, all_combos(g), all_combos(g).len() as int)
        } else {
            prev
        }
    }
}

/// The scores after posting, for each of the first `k` of our moves that is not certain
/// death, the lowest score the opponents can give us after it, under the path `prev`
/// extended by the move.
pub open spec fn evaluated_scores(
    s: Map<Seq<Direction>, (i64, Option<Seq<char>>)>,
    g: GameModel,
    prev: Seq<Direction>,
    k: int,
) -> Map<Seq<Direction>, (i64, Option<Seq<char>>)>
    decreases k,
{
    if k <= 0 {
        s
    } else {
        let s1 = evaluated_scores(s, g, prev, k - 1);
        let d = spec_all_directions()[k - 1];
        if you_may_move(g, d) {
            spec_post(s1, prev.push(d), worst_score(g, d, all_combos(g), all_combos(g).len() as int) as i64, None)
        } else {
            s1
        }
    }
}

/// A game can be evaluated: every snake's moves can be tried, the combinations of
/// opponent moves are representable, and each combination with each of our moves can be
/// played and scored, with a score that fits an `i64`.
pub open spec fn evaluable(g: GameModel) -> bool {
    &&& moves_triable(g, g.you)
    &&& forall|i: int| 0 <= i < g.others.len() ==> moves_triable(g, #[trigger] g.others[i])
    &&& move_combos_fit(g)
    &&& forall|d: Direction, j: int|
        0 <= j < all_combos(g).len() ==> {
            &&& #[trigger] moves_computable(g, d, all_combos(g)[j])
            &&& score_computable(spec_execute_moves(g, d, all_combos(g)[j]))
            &&& spec_score_game(spec_execute_moves(g, d, all_combos(g)[j])) <= i64::MAX
        }
}

pub open spec fn successor_views(v: Seq<(Direction, Game)>) -> Seq<(Direction, GameModel)> {
    v.map_values(|x: (Direction, Game)| (x.0, x.1@))
}

/// The score posted for our move `d` after the first `j` combinations of opponent moves is
/// the worst of them for us: no higher than the score of the game after `d` and any of
/// those combinations, and equal to one of them (with none, the highest score there is).
pub proof fn law_worst_reply_is_posted(g: GameModel, d: Direction, combos: Seq<Seq<Direction>>, j: int)
    requires
        0 <= j <= combos.len(),
        forall|i: int| 0 <= i < j ==> spec_score_game(spec_execute_moves(g, d, #[trigger] combos[i])) <= usize::MAX,
    ensures
        forall|i: int|
            0 <= i < j ==> worst_score(g, d, combos, j) <= spec_score_game(spec_execute_moves(g, d, #[trigger] combos[i])),
        j > 0 ==> exists|i: int|
            0 <= i < j && worst_score(g, d, combos, j) == spec_score_game(spec_execute_moves(g, d, #[trigger] combos[i])),
        j == 0 ==> worst_score(g, d, combos, j) == usize::MAX,
    decreases j,
{
    if j > 0 {
        law_worst_reply_is_posted(g, d, combos, j - 1);
        let s = spec_score_game(spec_execute_moves(g, d, combos[j - 1]));
        if s < worst_score(g, d, combos, j - 1) {
            assert(worst_score(g, d, combos, j) == spec_score_game(spec_execute_moves(g, d, combos[j - 1])));
        } else if j > 1 {
            let i0 = choose|i: int|
                0 <= i < j - 1 && worst_score(g, d, combos, j - 1) == spec_score_game(spec_execute_moves(g, d, #[trigger] combos[i]));
            assert(0 <= i0 < j);
        } else {
            assert(worst_score(g, d, combos, j) == spec_score_game(spec_execute_moves(g, d, combos[j - 1])));
        }
    }
}

proof fn lemma_worst_score_bound(g: GameModel, d: Direction, combos: Seq<Seq<Direction>>, j: int)
    requires
        1 <= j <= combos.len(),
        forall|i: int| 0 <= i < combos.len() ==> spec_score_game(spec_execute_moves(g, d, #[trigger] combos[i])) <= i64::MAX,
    ensures
        worst_score(g, d, combos, j) <= i64::MAX,
    decreases j,
{
    if j > 1 {
        lemma_worst_score_bound(g, d, combos, j - 1);
    }
}

/// Plays out one turn: every move of ours that is not certain death against every
/// combination of opponent moves that are not. For each of our moves the lowest score the
/// opponents can give us is posted for the path `prev_moves` extended by the move, and the
/// games in which our snake lives come back with our move; a game in which our snake is
/// dead has nothing to play. Our moves are tried in the order up, down, left, right.
pub fn evaluate_game(prev_moves: Vec<Direction>, game: &Game, scores: &mut Scorecard) -> (res: Vec<(Direction, Game)>)
    requires
        old(scores).wf(),
        game@.you.health > 0 ==> evaluable(game@),
    ensures
        final(scores).wf(),
        game@.you.health <= 0 ==> res@.len() == 0 && final(scores)@ == old(scores)@,
        game@.you.health > 0 ==> {
            &&& successor_views(res@) == evaluated_successors(game@, 4)
            &&& final(scores)@.scores == evaluated_scores(old(scores)@.scores, game@, prev_moves@, 4)
        },
{
    if game.you.health <= 0 {
        return Vec::new();
    }
    let ghost g = game@;
    let ghost s0 = scores@.scores;
    let other_moves = move_combos(game);
    let ghost combos = all_combos(g);
    let dirs = all_directions();
    let mut successors: Vec<(Direction, Game)> = Vec::new();
    let mut k: usize = 0;
    while k < 4
        invariant
            k <= 4,
            g == game@,
            g.you.health > 0,
            evaluable(g),
            combos == all_combos(g),
            vec_views(other_moves@) == combos,
            dirs@ == spec_all_directions(),
            scores.wf(),
            successor_views(successors@) == evaluated_successors(g, k as int),
            scores@.scores == evaluated_scores(s0, g, prev_moves@, k as int),
        decreases 4 - k,
    {
        let my_dir = dirs[k];
        let mut my_pos = game.you.head.neighbour(my_dir);
        game.warp(&mut my_pos);
        if !certain_death(game, &my_pos, game.you.health) {
            let mut min_score: usize = usize::MAX;
            let mut full_path = clone_moves(&prev_moves);
            full_path.push(my_dir);
            let ghost before = successors@;
            let mut j: usize = 0;
            while j < other_moves.len()
                invariant
                    j <= other_moves@.len(),
                    g == game@,
                    evaluable(g),
                    combos == all_combos(g),
                    vec_views(other_moves@) == combos,
                    min_score == worst_score(g, my_dir, combos, j as int),
                    successor_views(successors@) == successor_views(before) + successors_for(g, my_dir, combos, j as int),
                decreases other_moves@.len() - j,
            {
                proof {
                    assert(vec_views(other_moves@)[j as int] == other_moves@[j as int]@);
                    assert(moves_computable(g, my_dir, combos[j as int]));
                }
                let mut ngame = game.clone();
                ngame.execute_moves(my_dir, &other_moves[j]);
                let score = score_game(&ngame);
                if score < min_score {
                    min_score = score;
                }
                if ngame.you.health > 0 {
                    let ghost s1 = successors@;
                    successors.push((my_dir, ngame));
                    proof {
                        assert(successor_views(successors@) =~= successor_views(s1).push((my_dir, spec_execute_moves(g, my_dir, combos[j as int]))));
                    }
                }
                j += 1;
            }
            proof {
                lemma_combos_nonempty(g, g.others.len() as int);
                assert forall|i: int| 0 <= i < combos.len() implies spec_score_game(spec_execute_moves(g, my_dir, #[trigger] combos[i])) <= i64::MAX by {
                    assert(moves_computable(g, my_dir, all_combos(g)[i]));
                }
                lemma_worst_score_bound(g, my_dir, combos, combos.len() as int);
            }
            scores.post_score(full_path, min_score as i64, None);
        }
        k += 1;
    }
    successors
}

/// The latency estimate after a turn that took `last` ms of a `max` ms budget, when the
/// previous estimate was `prev`: a turn slower than the estimate raises it to 120% of the
/// latency that turn had, plus 1 ms, but at most half the budget when that would exceed
/// the budget.
pub open spec fn spec_latency(prev: u64, last: u64, max: u64) -> int {
    if last > prev {
        let actual = last - (max - prev);
        let l = actual * 12 / 10 + 1;
        if l > max {
            max * 10 / 20
        } else {
            l
        }
    } else {
        prev as int
    }
}

/// The latency estimate can be updated without overflow.
pub open spec fn latency_computable(prev: u64, last: u64, max: u64) -> bool {
    last > prev ==> {
        &&& max >= prev
        &&& last >= max - prev
        &&& (last - (max - prev)) * 12 + 1 <= u64::MAX
        &&& max * 10 <= u64::MAX
    }
}

/// The spaceheater snake: it keeps an estimate of the network latency of its turns.
pub struct SpaceHeater {
    pub last_turn_latency_estimate: u64,
}

impl SpaceHeater {
    /// A snake that estimates 55 ms of latency.
    pub fn new() -> (res: SpaceHeater)
        ensures
            res.last_turn_latency_estimate == 55,
    {
        SpaceHeater { last_turn_latency_estimate: 55 }
    }

    /// Updates the latency estimate after a turn that took `last_turn_time_ms` of a
    /// `max_turn_time_ms` budget, and returns it as a duration.
    pub fn calculate_latency(&mut self, last_turn_time_ms: u64, max_turn_time_ms: u64) -> (res: Duration)
        requires
            latency_computable(old(self).last_turn_latency_estimate, last_turn_time_ms, max_turn_time_ms),
        ensures
            final(self).last_turn_latency_estimate == spec_latency(
                old(self).last_turn_latency_estimate,
                last_turn_time_ms,
                max_turn_time_ms,
            ),
            res == spec_from_millis(final(self).last_turn_latency_estimate),
    {
        let prev_latency_ms = self.last_turn_latency_estimate;
        let mut latency_ms = prev_latency_ms;
        if last_turn_time_ms > prev_latency_ms {
            let last_turn_compute_time_ms = max_turn_time_ms - prev_latency_ms;
            let last_turn_actual_latency = last_turn_time_ms - last_turn_compute_time_ms;
            latency_ms = last_turn_actual_latency * 12 / 10 + 1;
            if latency_ms > max_turn_time_ms {
                latency_ms = max_turn_time_ms * 10 / 20;
            }
        }
        self.last_turn_latency_estimate = latency_ms;
        crate::logic::game::duration_from_millis(latency_ms)
    }
}

} // verus!
