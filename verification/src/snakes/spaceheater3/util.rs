//! Which moves are worth considering.
use vstd::prelude::*;

use crate::logic::game::{GameMode, GameModel};
use crate::logic::point::{has_neighbours, spec_neighbour, spec_warp, warp_size_ok};
use crate::logic::snake::SnakeModel;
use crate::logic::{Direction, Game, Point, Snake, Tile};
use crate::protocol::{all_directions, spec_all_directions};

verus! {

/// Whether the snake's body, at one of the odd positions before its tail, lies at `p`.
/// Only odd positions can be hit by the head; the tail moves away, and other snakes may
/// die, so they are not checked.
pub open spec fn spec_self_collision(s: SnakeModel, p: Point) -> bool {
    exists|i: int| 1 <= i < s.length - 1 && i % 2 == 1 && #[trigger] s.body[i] == p
}

/// Whether moving the snake to `p` certainly kills it: a wall, hazards that do more damage
/// than its health, or its own body.
pub open spec fn spec_certain_death(g: GameModel, s: SnakeModel, p: Point, hp: int) -> bool {
    match g.board.tile(p) {
        Tile::Hazard(x) | Tile::HazardWithSnake(x) | Tile::HazardWithHead(x) => g.rules.hazard_damage_per_turn * x
            > hp,
        Tile::Snake => spec_self_collision(s, p),
        Tile::Wall => true,
        _ => false,
    }
}

/// The test of `spec_certain_death` can be computed: the hazard damage fits in an `i8`, and
/// on a snake tile the snake's length is at least one and its body covers it.
pub open spec fn certain_death_computable(g: GameModel, s: SnakeModel, p: Point) -> bool {
    match g.board.tile(p) {
        Tile::Hazard(x) | Tile::HazardWithSnake(x) | Tile::HazardWithHead(x) => i8::MIN <= g.rules.hazard_damage_per_turn
            * x <= i8::MAX,
        Tile::Snake => s.length >= 1 && s.length - 1 <= s.body.len(),
        _ => true,
    }
}

/// Whether moving the snake to `p` certainly kills it, judged by its current health.
pub fn certain_death(game: &Game, snake: &Snake, p: &Point) -> (res: bool)
    requires
        certain_death_computable(game@, snake@, *p),
    ensures
        res == spec_certain_death(game@, snake@, *p, snake@.health),
{
    crate::snakes::spaceheater2::util::certain_death(game, snake, p, snake.health)
}

/// Where a snake's head lands when it moves in a direction, wrapping in a wrapped game.
pub open spec fn spec_target(g: GameModel, s: SnakeModel, d: Direction) -> Point {
    let p = spec_neighbour(s.head, d);
    if g.rules.game_mode == GameMode::Wrapped {
        spec_warp(p, g.board.width as isize, g.board.height as isize)
    } else {
        p
    }
}

/// The moves of snake `s` can be judged: its neighbours exist, the board can be wrapped in
/// a wrapped game, and each target can be tested.
pub open spec fn moves_judgeable(g: GameModel, s: SnakeModel) -> bool {
    &&& has_neighbours(s.head)
    &&& g.rules.game_mode == GameMode::Wrapped ==> warp_size_ok(g.board.width as isize, g.board.height as isize)
    &&& forall|d: Direction| certain_death_computable(g, s, #[trigger] spec_target(g, s, d))
}

/// The directions, in the usual order, in which the snake does not certainly die; just
/// `Up` when it dies in every direction.
pub open spec fn spec_sensible_moves(g: GameModel, s: SnakeModel) -> Seq<Direction> {
    let moves = spec_all_directions().filter(
        |d: Direction| !spec_certain_death(g, s, spec_target(g, s, d), s.health),
    );
    if moves.len() == 0 {
        seq![Direction::Up]
    } else {
        moves
    }
}

/// Every combination of sensible moves of the first `k` opponents; the moves of the last
/// opponent vary slowest.
pub open spec fn spec_enemy_combos(g: GameModel, k: int) -> Seq<Seq<Direction>>
    decreases k,
{
    if k <= 0 {
        seq![seq![]]
    } else {
        let prev = spec_enemy_combos(g, k - 1);
        let moves = spec_sensible_moves(g, g.others[k - 1]);
        Seq::new(moves.len() * prev.len(), |i: int| prev[i % (prev.len() as int)].push(moves[i / (prev.len() as int)]))
    }
}

/// The directions, in the order up, down, left, right, in which the snake does not
/// certainly die; just up when it dies in every direction.
pub fn sensible_moves(game: &Game, snake: &Snake) -> (res: Vec<Direction>)
    requires
        moves_judgeable(game@, snake@),
    ensures
        res@ == spec_sensible_moves(game@, snake@),
{
    let dirs = all_directions();
    let mut res: Vec<Direction> = Vec::new();
    let mut i: usize = 0;
    while i < 4
        invariant
            i <= 4,
            dirs@ == spec_all_directions(),
            moves_judgeable(game@, snake@),
            res@ == spec_all_directions().take(i as int).filter(
                |d: Direction| !spec_certain_death(game@, snake@, spec_target(game@, snake@, d), snake@.health),
            ),
        decreases 4 - i,
    {
        let d = dirs[i];
        let mut p = snake.head.neighbour(d);
        game.warp(&mut p);
        proof {
            assert(certain_death_computable(game@, snake@, spec_target(game@, snake@, d)));
            reveal_with_fuel(Seq::filter, 1);
            assert(spec_all_directions().take(i + 1).drop_last() =~= spec_all_directions().take(i as int));
        }
        if !certain_death(game, snake, &p) {
            res.push(d);
        }
        i += 1;
    }
    proof {
        assert(spec_all_directions().take(4) =~= spec_all_directions());
    }
    if res.len() == 0 {
        let mut up: Vec<Direction> = Vec::new();
        up.push(Direction::Up);
        proof {
            assert(up@ =~= seq![Direction::Up]);
        }
        up
    } else {
        res
    }
}

pub open spec fn vec_views(v: Seq<Vec<Direction>>) -> Seq<Seq<Direction>> {
    v.map_values(|c: Vec<Direction>| c@)
}

/// The number of combinations stays representable.
pub open spec fn combos_fit(g: GameModel) -> bool {
    forall|k: int| 0 <= k <= g.others.len() ==> #[trigger] spec_enemy_combos(g, k).len() <= usize::MAX
}

pub(crate) proof fn lemma_combos_nonempty(g: GameModel, k: int)
    ensures
        spec_enemy_combos(g, k).len() >= 1,
    decreases k,
{
    if k > 0 {
        lemma_combos_nonempty(g, k - 1);
        let prev = spec_enemy_combos(g, k - 1);
        let moves = spec_sensible_moves(g, g.others[k - 1]);
        assert(moves.len() >= 1);
        assert(moves.len() * prev.len() >= 1) by (nonlinear_arith)
            requires
                moves.len() >= 1,
                prev.len() >= 1,
        ;
    }
}

proof fn lemma_index_split(a: int, b: int, n: int)
    requires
        n > 0,
        0 <= b < n,
        a >= 0,
    ensures
        (a * n + b) / n == a,
        (a * n + b) % n == b,
{
    vstd::arithmetic::div_mod::lemma_fundamental_div_mod_converse(a * n + b, n, a, b);
}

/// Every combination of moves of the opponents in which none of them certainly dies, where
/// possible: the cartesian product of their sensible moves.
pub fn all_sensible_enemy_moves(game: &Game) -> (res: Vec<Vec<Direction>>)
    requires
        forall|i: int| 0 <= i < game@.others.len() ==> moves_judgeable(game@, #[trigger] game@.others[i]),
        combos_fit(game@),
    ensures
        vec_views(res@) == spec_enemy_combos(game@, game@.others.len() as int),
{
    let mut all_enemy_moves: Vec<Vec<Direction>> = Vec::new();
    all_enemy_moves.push(Vec::new());
    proof {
        assert(vec_views(all_enemy_moves@) =~= spec_enemy_combos(game@, 0));
    }
    let mut e: usize = 0;
    while e < game.others.len()
        invariant
            e <= game@.others.len(),
            forall|i: int| 0 <= i < game@.others.len() ==> moves_judgeable(game@, #[trigger] game@.others[i]),
            combos_fit(game@),
            vec_views(all_enemy_moves@) == spec_enemy_combos(game@, e as int),
        decreases game@.others.len() - e,
    {
        let enemy = &game.others[e];
        proof {
            assert(game@.others[e as int] == enemy@);
        }
        let enemy_moves = sensible_moves(game, enemy);
        let ghost prev = spec_enemy_combos(game@, e as int);
        let ghost moves = enemy_moves@;
        proof {
            lemma_combos_nonempty(game@, e as int);
            assert(spec_enemy_combos(game@, e + 1).len() <= usize::MAX);
            assert(spec_enemy_combos(game@, e + 1).len() == moves.len() * prev.len());
        }
        let mut next: Vec<Vec<Direction>> = Vec::new();
        let mut a: usize = 0;
        while a < enemy_moves.len()
            invariant
                a <= moves.len(),
                enemy_moves@ == moves,
                vec_views(all_enemy_moves@) == prev,
                prev.len() >= 1,
                moves.len() * prev.len() <= usize::MAX,
                next@.len() == a * prev.len(),
                forall|i: int|
                    0 <= i < next@.len() ==> #[trigger] next@[i]@ == prev[i % (prev.len() as int)].push(moves[i / (prev.len() as int)]),
            decreases moves.len() - a,
        {
            let mut b: usize = 0;
            proof {
                assert((a + 1) * prev.len() <= moves.len() * prev.len()) by (nonlinear_arith)
                    requires
                        a + 1 <= moves.len(),
                        prev.len() >= 1,
                ;
                assert((a + 1) * prev.len() == a * prev.len() + prev.len()) by (nonlinear_arith);
            }
            while b < all_enemy_moves.len()
                invariant
                    a < moves.len(),
                    b <= prev.len(),
                    enemy_moves@ == moves,
                    vec_views(all_enemy_moves@) == prev,
                    prev.len() >= 1,
                    next@.len() == a * prev.len() + b,
                    a * prev.len() + prev.len() <= usize::MAX,
                    forall|i: int|
                        0 <= i < next@.len() ==> #[trigger] next@[i]@ == prev[i % (prev.len() as int)].push(moves[i / (prev.len() as int)]),
                decreases prev.len() - b,
            {
                let mut combo = clone_moves(&all_enemy_moves[b]);
                combo.push(enemy_moves[a]);
                proof {
                    assert(vec_views(all_enemy_moves@)[b as int] == all_enemy_moves@[b as int]@);
                    lemma_index_split(a as int, b as int, prev.len() as int);
                }
                next.push(combo);
                b += 1;
            }
            a += 1;
        }
        proof {
            assert(vec_views(next@) =~= spec_enemy_combos(game@, e + 1));
        }
        all_enemy_moves = next;
        e += 1;
    }
    all_enemy_moves
}

/// A copy of a list of moves.
pub(crate) fn clone_moves(v: &Vec<Direction>) -> (res: Vec<Direction>)
    ensures
        res@ == v@,
{
    let mut res: Vec<Direction> = Vec::new();
    let mut i: usize = 0;
    while i < v.len()
        invariant
            i <= v.len(),
            res@ == v@.take(i as int),
        decreases v.len() - i,
    {
        res.push(v[i]);
        proof {
            assert(res@ =~= v@.take(i + 1));
        }
        i += 1;
    }
    proof {
        assert(v@.take(i as int) =~= v@);
    }
    res
}

/// Two sequences with the same elements, counted with multiplicity: each element of the
/// first stands somewhere in the second.
pub(crate) proof fn lemma_multiset_member<A>(s: Seq<A>, t: Seq<A>, i: int)
    requires
        s.to_multiset() == t.to_multiset(),
        0 <= i < s.len(),
    ensures
        exists|j: int| 0 <= j < t.len() && t[j] == s[i],
{
    vstd::seq_lib::to_multiset_contains(s, s[i]);
    vstd::seq_lib::to_multiset_contains(t, s[i]);
    assert(s.contains(s[i]));
}

} // verus!
