//! What every turn of the game keeps: the board's size, the rules and the turn count, the
//! hazards, that no food appears, and that only live opponents stay in the game, in their
//! order.
use vstd::prelude::*;

use super::board::{make_tile, spec_kind, BoardModel};
use super::game::{
    spec_draw_heads, spec_draw_other_heads, spec_eliminate, spec_eliminate_others, spec_execute_moves, spec_mark_body,
    spec_move_others, spec_repair, spec_repair_others, spec_repair_point, spec_repair_snake, GameModel, Rules,
};
use super::snake::{spec_clear_all, spec_next_board, spec_next_head, spec_next_length, SnakeModel};
use super::{spec_has_food, spec_hazard_count, Point, Tile};
use crate::protocol::Direction;

verus! {

pub(crate) open spec fn same_size(a: BoardModel, b: BoardModel) -> bool {
    a.width == b.width && a.height == b.height
}

/// A later board `b` of the same size as `a` with the same hazards on every tile, and
/// food only where `a` had food.
pub open spec fn keeps_items(a: BoardModel, b: BoardModel) -> bool {
    &&& a.width == b.width && a.height == b.height
    &&& forall|p: Point|
        a.in_bounds(p) ==> spec_hazard_count(#[trigger] b.tile(p)) == spec_hazard_count(a.tile(p)) && (spec_has_food(
            b.tile(p),
        ) ==> spec_has_food(a.tile(p)))
}

proof fn lemma_keeps_refl(a: BoardModel)
    ensures
        keeps_items(a, a),
{
}

proof fn lemma_keeps_trans(a: BoardModel, b: BoardModel, c: BoardModel)
    requires
        keeps_items(a, b),
        keeps_items(b, c),
    ensures
        keeps_items(a, c),
{
    assert forall|p: Point| a.in_bounds(p) implies spec_hazard_count(#[trigger] c.tile(p)) == spec_hazard_count(a.tile(p))
        && (spec_has_food(c.tile(p)) ==> spec_has_food(a.tile(p))) by {
        assert(b.in_bounds(p));
        assert(spec_hazard_count(b.tile(p)) == spec_hazard_count(a.tile(p)));
    }
}

/// Putting a snake's body, a head, or nothing on a tile keeps its hazards and adds no food.
proof fn lemma_add_keeps(m: BoardModel, p: Point, t: Tile)
    requires
        t is Empty || t is Snake || t is Head,
    ensures
        keeps_items(m, m.add(p, t)),
{
    let b = m.add(p, t);
    assert forall|q: Point| m.in_bounds(q) implies spec_hazard_count(#[trigger] b.tile(q)) == spec_hazard_count(m.tile(q))
        && (spec_has_food(b.tile(q)) ==> spec_has_food(m.tile(q))) by {
        if q == p {
            let h = spec_hazard_count(m.tile(p));
            assert(b.tile(q) == make_tile(spec_kind(t), h));
        }
    }
}

proof fn lemma_clear_all_size(m: BoardModel, points: Seq<Point>)
    ensures
        same_size(spec_clear_all(m, points), m),
        keeps_items(m, spec_clear_all(m, points)),
    decreases points.len(),
{
    if points.len() > 0 {
        lemma_clear_all_size(m, points.drop_last());
        let mm = spec_clear_all(m, points.drop_last());
        lemma_add_keeps(mm, points.last(), Tile::Empty);
        lemma_keeps_trans(m, mm, spec_clear_all(m, points));
    }
}

pub(crate) proof fn lemma_move_others_size(others: Seq<SnakeModel>, dirs: Seq<Direction>, m: BoardModel, rules: Rules, k: int)
    ensures
        same_size(spec_move_others(others, dirs, m, rules, k).1, m),
        keeps_items(m, spec_move_others(others, dirs, m, rules, k).1),
    decreases k,
{
    if k > 0 {
        lemma_move_others_size(others, dirs, m, rules, k - 1);
        let mm = spec_move_others(others, dirs, m, rules, k - 1).1;
        assert(same_size(spec_next_board(others[k - 1], dirs[k - 1], mm, rules), mm));
        lemma_next_board_keeps(others[k - 1], dirs[k - 1], mm, rules);
        lemma_keeps_trans(m, mm, spec_move_others(others, dirs, m, rules, k).1);
    }
}

/// A move keeps the hazards and adds no food.
proof fn lemma_next_board_keeps(s: SnakeModel, dir: Direction, m: BoardModel, rules: Rules)
    ensures
        keeps_items(m, spec_next_board(s, dir, m, rules)),
{
    let m1 = if spec_next_length(s, dir, m, rules) > 1 {
        m.add(s.head, Tile::Snake)
    } else {
        m.clear_snake(s.head)
    };
    lemma_add_keeps(m, s.head, Tile::Snake);
    lemma_add_keeps(m, s.head, Tile::Empty);
    let b = seq![spec_next_head(s, dir, m, rules)] + s.body;
    if b.len() > spec_next_length(s, dir, m, rules) {
        lemma_add_keeps(m1, b.last(), Tile::Empty);
        lemma_keeps_trans(m, m1, m1.clear_snake(b.last()));
    }
}

proof fn lemma_eliminate_others(others: Seq<SnakeModel>, m: BoardModel, k: int)
    requires
        k <= others.len(),
    ensures
        same_size(spec_eliminate_others(others, m, k).1, m),
        keeps_items(m, spec_eliminate_others(others, m, k).1),
        spec_eliminate_others(others, m, k).0.len() <= if k < 0 { 0 } else { k },
        forall|i: int|
            0 <= i < spec_eliminate_others(others, m, k).0.len() ==> (#[trigger] spec_eliminate_others(others, m, k).0[i]).health
                > 0,
    decreases k,
{
    if k > 0 {
        lemma_eliminate_others(others, m, k - 1);
        let (kept, mm, sites) = spec_eliminate_others(others, m, k - 1);
        lemma_clear_all_size(mm, others[k - 1].body);
        lemma_keeps_trans(m, mm, spec_clear_all(mm, others[k - 1].body));
    }
}

proof fn lemma_mark_body_size(m: BoardModel, p: Point, body: Seq<Point>, k: int)
    ensures
        same_size(spec_mark_body(m, p, body, k), m),
        keeps_items(m, spec_mark_body(m, p, body, k)),
    decreases k,
{
    if k > 0 {
        lemma_mark_body_size(m, p, body, k - 1);
        let mm = spec_mark_body(m, p, body, k - 1);
        lemma_add_keeps(mm, p, Tile::Snake);
        lemma_keeps_trans(m, mm, mm.add(p, Tile::Snake));
    }
}

proof fn lemma_repair_snake_keeps(m: BoardModel, p: Point, s: SnakeModel)
    ensures
        keeps_items(m, spec_repair_snake(m, p, s)),
{
    lemma_mark_body_size(m, p, s.body, s.body.len() as int);
    let m1 = spec_mark_body(m, p, s.body, s.body.len() as int);
    lemma_add_keeps(m1, p, Tile::Head);
    lemma_keeps_trans(m, m1, m1.add(p, Tile::Head));
}

proof fn lemma_repair_others_size(m: BoardModel, p: Point, others: Seq<SnakeModel>, k: int)
    ensures
        same_size(spec_repair_others(m, p, others, k), m),
        keeps_items(m, spec_repair_others(m, p, others, k)),
    decreases k,
{
    if k > 0 {
        lemma_repair_others_size(m, p, others, k - 1);
        let mm = spec_repair_others(m, p, others, k - 1);
        lemma_mark_body_size(mm, p, others[k - 1].body, others[k - 1].body.len() as int);
        assert(same_size(spec_repair_snake(mm, p, others[k - 1]), mm));
        lemma_repair_snake_keeps(mm, p, others[k - 1]);
        lemma_keeps_trans(m, mm, spec_repair_snake(mm, p, others[k - 1]));
    }
}

proof fn lemma_repair_size(m: BoardModel, points: Seq<Point>, you: SnakeModel, others: Seq<SnakeModel>, k: int)
    ensures
        same_size(spec_repair(m, points, you, others, k), m),
        keeps_items(m, spec_repair(m, points, you, others, k)),
    decreases k,
{
    if k > 0 {
        lemma_repair_size(m, points, you, others, k - 1);
        let mm = spec_repair(m, points, you, others, k - 1);
        let p = points[k - 1];
        lemma_mark_body_size(mm, p, you.body, you.body.len() as int);
        let m1 = if you.health > 0 {
            spec_repair_snake(mm, p, you)
        } else {
            mm
        };
        lemma_repair_others_size(m1, p, others, others.len() as int);
        assert(same_size(spec_repair_point(mm, p, you, others), mm));
        lemma_repair_snake_keeps(mm, p, you);
        lemma_keeps_refl(mm);
        lemma_keeps_trans(mm, m1, spec_repair_point(mm, p, you, others));
        lemma_keeps_trans(m, mm, spec_repair_point(mm, p, you, others));
    }
}

proof fn lemma_eliminate(you: SnakeModel, others: Seq<SnakeModel>, m: BoardModel)
    ensures
        same_size(spec_eliminate(you, others, m).1, m),
        keeps_items(m, spec_eliminate(you, others, m).1),
        spec_eliminate(you, others, m).0.len() <= others.len(),
        forall|i: int|
            0 <= i < spec_eliminate(you, others, m).0.len() ==> (#[trigger] spec_eliminate(you, others, m).0[i]).health > 0,
{
    let m1 = if you.health <= 0 {
        spec_clear_all(m, you.body)
    } else {
        m
    };
    lemma_clear_all_size(m, you.body);
    lemma_eliminate_others(others, m1, others.len() as int);
    let (kept, m2, sites2) = spec_eliminate_others(others, m1, others.len() as int);
    let sites1: Seq<Point> = if you.health <= 0 {
        seq![you.head]
    } else {
        seq![]
    };
    let sites = sites1 + sites2;
    lemma_repair_size(m2, sites, you, kept, sites.len() as int);
    lemma_keeps_refl(m);
    lemma_keeps_trans(m, m1, m2);
    lemma_keeps_trans(m, m2, spec_repair(m2, sites, you, kept, sites.len() as int));
}

proof fn lemma_draw_other_heads_size(m: BoardModel, others: Seq<SnakeModel>, k: int)
    ensures
        same_size(spec_draw_other_heads(m, others, k), m),
        keeps_items(m, spec_draw_other_heads(m, others, k)),
    decreases k,
{
    if k > 0 {
        lemma_draw_other_heads_size(m, others, k - 1);
        let mm = spec_draw_other_heads(m, others, k - 1);
        lemma_add_keeps(mm, others[k - 1].head, Tile::Head);
        lemma_keeps_trans(m, mm, mm.add(others[k - 1].head, Tile::Head));
    }
}

/// A turn keeps the board's width and height.
pub proof fn law_turn_keeps_board_size(g: GameModel, you_dir: Direction, dirs: Seq<Direction>)
    ensures
        spec_execute_moves(g, you_dir, dirs).board.width == g.board.width,
        spec_execute_moves(g, you_dir, dirs).board.height == g.board.height,
{
    let you1 = crate::logic::snake::spec_move_snake(g.you, you_dir, g.board, g.rules);
    let m1 = spec_next_board(g.you, you_dir, g.board, g.rules);
    let (others1, m2) = spec_move_others(g.others, dirs, m1, g.rules, dirs.len() as int);
    lemma_move_others_size(g.others, dirs, m1, g.rules, dirs.len() as int);
    lemma_eliminate(you1, others1, m2);
    let (others2, m3, _) = spec_eliminate(you1, others1, m2);
    let r = spec_execute_moves(g, you_dir, dirs);
    let you2 = r.you;
    let others3 = Seq::new(
        others2.len(),
        |i: int|
            if crate::logic::game::spec_collides(others2[i], you2, others2, m3) {
                crate::logic::game::with_health_zero(others2[i])
            } else {
                others2[i]
            },
    );
    lemma_eliminate(you2, others3, m3);
    let (others4, m4, dead) = spec_eliminate(you2, others3, m3);
    let h1 = if you2.health > 0 {
        m4.add(you2.head, super::Tile::Head)
    } else {
        m4
    };
    lemma_draw_other_heads_size(h1, others4, others4.len() as int);
    assert(r.board == spec_draw_heads(m4, you2, others4));
}

/// A turn neither moves nor adds hazards, and spawns no food: every tile keeps its
/// hazards, and food is left only where there was food before.
pub proof fn law_turn_keeps_hazards_and_spawns_no_food(g: GameModel, you_dir: Direction, dirs: Seq<Direction>)
    ensures
        keeps_items(g.board, spec_execute_moves(g, you_dir, dirs).board),
{
    let you1 = crate::logic::snake::spec_move_snake(g.you, you_dir, g.board, g.rules);
    let m1 = spec_next_board(g.you, you_dir, g.board, g.rules);
    lemma_next_board_keeps(g.you, you_dir, g.board, g.rules);
    let (others1, m2) = spec_move_others(g.others, dirs, m1, g.rules, dirs.len() as int);
    lemma_move_others_size(g.others, dirs, m1, g.rules, dirs.len() as int);
    lemma_keeps_trans(g.board, m1, m2);
    lemma_eliminate(you1, others1, m2);
    let (others2, m3, _) = spec_eliminate(you1, others1, m2);
    lemma_keeps_trans(g.board, m2, m3);
    let r = spec_execute_moves(g, you_dir, dirs);
    let you2 = r.you;
    let others3 = Seq::new(
        others2.len(),
        |i: int|
            if crate::logic::game::spec_collides(others2[i], you2, others2, m3) {
                crate::logic::game::with_health_zero(others2[i])
            } else {
                others2[i]
            },
    );
    lemma_eliminate(you2, others3, m3);
    let (others4, m4, dead) = spec_eliminate(you2, others3, m3);
    lemma_keeps_trans(g.board, m3, m4);
    let h1 = if you2.health > 0 {
        m4.add(you2.head, Tile::Head)
    } else {
        m4
    };
    lemma_add_keeps(m4, you2.head, Tile::Head);
    lemma_keeps_refl(m4);
    lemma_keeps_trans(g.board, m4, h1);
    lemma_draw_other_heads_size(h1, others4, others4.len() as int);
    lemma_keeps_trans(g.board, h1, spec_draw_other_heads(h1, others4, others4.len() as int));
    assert(r.board == spec_draw_heads(m4, you2, others4));
}

/// A turn advances the turn counter by one and keeps the rules.
pub proof fn law_turn_advances(g: GameModel, you_dir: Direction, dirs: Seq<Direction>)
    ensures
        spec_execute_moves(g, you_dir, dirs).turn == g.turn + 1,
        spec_execute_moves(g, you_dir, dirs).rules == g.rules,
{
}

/// After a turn only opponents with health are left in the game, and no opponent joins it
/// (each opponent moves at most once).
pub proof fn law_only_live_opponents_remain(g: GameModel, you_dir: Direction, dirs: Seq<Direction>)
    requires
        dirs.len() <= g.others.len(),
    ensures
        forall|i: int|
            0 <= i < spec_execute_moves(g, you_dir, dirs).others.len() ==> (#[trigger] spec_execute_moves(
                g,
                you_dir,
                dirs,
            ).others[i]).health > 0,
        spec_execute_moves(g, you_dir, dirs).others.len() <= g.others.len(),
{
    let you1 = crate::logic::snake::spec_move_snake(g.you, you_dir, g.board, g.rules);
    let m1 = spec_next_board(g.you, you_dir, g.board, g.rules);
    let (others1, m2) = spec_move_others(g.others, dirs, m1, g.rules, dirs.len() as int);
    assert(others1.len() == g.others.len()) by {
        lemma_move_others_len(g.others, dirs, m1, g.rules, dirs.len() as int);
    }
    lemma_eliminate(you1, others1, m2);
    let (others2, m3, _) = spec_eliminate(you1, others1, m2);
    let r = spec_execute_moves(g, you_dir, dirs);
    let you2 = r.you;
    let others3 = Seq::new(
        others2.len(),
        |i: int|
            if crate::logic::game::spec_collides(others2[i], you2, others2, m3) {
                crate::logic::game::with_health_zero(others2[i])
            } else {
                others2[i]
            },
    );
    lemma_eliminate(you2, others3, m3);
}

/// `f` picks, in increasing order, the place in `earlier` of each snake of `later`, one
/// with the same id.
pub open spec fn picks_in_order(later: Seq<SnakeModel>, earlier: Seq<SnakeModel>, f: Seq<int>) -> bool {
    &&& f.len() == later.len()
    &&& forall|i: int| 0 <= i < f.len() ==> 0 <= #[trigger] f[i] < earlier.len() && later[i].id == earlier[f[i]].id
    &&& forall|i: int, j: int| 0 <= i < j < f.len() ==> #[trigger] f[i] < #[trigger] f[j]
}

proof fn lemma_picks_compose(a: Seq<SnakeModel>, b: Seq<SnakeModel>, c: Seq<SnakeModel>, f: Seq<int>, g: Seq<int>) -> (h: Seq<int>)
    requires
        picks_in_order(a, b, f),
        picks_in_order(b, c, g),
    ensures
        picks_in_order(a, c, h),
{
    let h = Seq::new(f.len(), |i: int| g[f[i]]);
    assert forall|i: int, j: int| 0 <= i < j < h.len() implies #[trigger] h[i] < #[trigger] h[j] by {
        assert(f[i] < f[j]);
    }
    h
}

proof fn lemma_eliminate_others_order(others: Seq<SnakeModel>, m: BoardModel, k: int) -> (f: Seq<int>)
    requires
        k <= others.len(),
    ensures
        picks_in_order(spec_eliminate_others(others, m, k).0, others, f),
        forall|i: int| 0 <= i < f.len() ==> #[trigger] f[i] < k,
    decreases k,
{
    if k <= 0 {
        Seq::empty()
    } else {
        let f0 = lemma_eliminate_others_order(others, m, k - 1);
        if others[k - 1].health <= 0 {
            f0
        } else {
            let f = f0.push(k - 1);
            assert forall|i: int, j: int| 0 <= i < j < f.len() implies #[trigger] f[i] < #[trigger] f[j] by {
                if j < f0.len() {
                    assert(f0[i] < f0[j]);
                } else {
                    assert(f0[i] < k - 1);
                }
            }
            f
        }
    }
}

proof fn lemma_eliminate_order(you: SnakeModel, others: Seq<SnakeModel>, m: BoardModel) -> (f: Seq<int>)
    ensures
        picks_in_order(spec_eliminate(you, others, m).0, others, f),
{
    let m1 = if you.health <= 0 {
        spec_clear_all(m, you.body)
    } else {
        m
    };
    lemma_eliminate_others_order(others, m1, others.len() as int)
}

proof fn lemma_same_ids(a: Seq<SnakeModel>, b: Seq<SnakeModel>) -> (f: Seq<int>)
    requires
        a.len() == b.len(),
        forall|i: int| 0 <= i < a.len() ==> (#[trigger] a[i]).id == b[i].id,
    ensures
        picks_in_order(a, b, f),
{
    Seq::new(a.len(), |i: int| i)
}

proof fn lemma_move_others_ids(others: Seq<SnakeModel>, dirs: Seq<Direction>, m: BoardModel, rules: Rules, k: int)
    requires
        k <= others.len(),
    ensures
        spec_move_others(others, dirs, m, rules, k).0.len() == others.len(),
        forall|i: int|
            0 <= i < others.len() ==> (#[trigger] spec_move_others(others, dirs, m, rules, k).0[i]).id == others[i].id,
    decreases k,
{
    if k > 0 {
        lemma_move_others_ids(others, dirs, m, rules, k - 1);
    }
}

/// A turn keeps the opponents that remain in the order they had.
pub proof fn law_turn_keeps_opponent_order(g: GameModel, you_dir: Direction, dirs: Seq<Direction>)
    requires
        dirs.len() <= g.others.len(),
    ensures
        exists|f: Seq<int>| picks_in_order(spec_execute_moves(g, you_dir, dirs).others, g.others, f),
{
    let you1 = crate::logic::snake::spec_move_snake(g.you, you_dir, g.board, g.rules);
    let m1 = spec_next_board(g.you, you_dir, g.board, g.rules);
    let (others1, m2) = spec_move_others(g.others, dirs, m1, g.rules, dirs.len() as int);
    lemma_move_others_ids(g.others, dirs, m1, g.rules, dirs.len() as int);
    let f1 = lemma_same_ids(others1, g.others);
    let (others2, m3, _) = spec_eliminate(you1, others1, m2);
    let f2 = lemma_eliminate_order(you1, others1, m2);
    let r = spec_execute_moves(g, you_dir, dirs);
    let you2 = r.you;
    let others3 = Seq::new(
        others2.len(),
        |i: int|
            if crate::logic::game::spec_collides(others2[i], you2, others2, m3) {
                crate::logic::game::with_health_zero(others2[i])
            } else {
                others2[i]
            },
    );
    let f3 = lemma_same_ids(others3, others2);
    let f4 = lemma_eliminate_order(you2, others3, m3);
    let h2 = lemma_picks_compose(others2, others1, g.others, f2, f1);
    let h3 = lemma_picks_compose(others3, others2, g.others, f3, h2);
    let h4 = lemma_picks_compose(r.others, others3, g.others, f4, h3);
}

proof fn lemma_move_others_len(others: Seq<SnakeModel>, dirs: Seq<Direction>, m: BoardModel, rules: Rules, k: int)
    requires
        k <= others.len(),
    ensures
        spec_move_others(others, dirs, m, rules, k).0.len() == others.len(),
    decreases k,
{
    if k > 0 {
        lemma_move_others_len(others, dirs, m, rules, k - 1);
    }
}

} // verus!
