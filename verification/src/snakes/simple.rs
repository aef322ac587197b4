//! A snake that looks only a few moves ahead: it goes for head-to-head fights it wins,
//! avoids those it loses, and otherwise takes the longest safe way it can find.
use vstd::prelude::*;

use crate::logic::point::{has_neighbours, spec_neighbour};
use crate::logic::board::BoardModel;
use crate::logic::search::{
    calculate_distances, dist_of, distances_ok, find_path, grid_ok, on_board, shaped, walk_back_ok,
};
use crate::logic::{spec_is_safe, Board, Direction, Point, Tile};
use crate::protocol;
use crate::Battlesnake;

verus! {

/// The simple snake.
#[derive(Copy, Clone)]
pub struct SimpleSnake {}

/// The three tiles from which a snake can reach the tile next to `p` in direction `d` in
/// one move, other than `p` itself: straight on, then to either side.
pub open spec fn threat_points(p: Point, d: Direction) -> Seq<Point> {
    let n = spec_neighbour(p, d);
    match d {
        Direction::Left => seq![
            spec_neighbour(n, Direction::Left),
            spec_neighbour(n, Direction::Up),
            spec_neighbour(n, Direction::Down),
        ],
        Direction::Right => seq![
            spec_neighbour(n, Direction::Right),
            spec_neighbour(n, Direction::Up),
            spec_neighbour(n, Direction::Down),
        ],
        Direction::Up => seq![
            spec_neighbour(n, Direction::Up),
            spec_neighbour(n, Direction::Left),
            spec_neighbour(n, Direction::Right),
        ],
        Direction::Down => seq![
            spec_neighbour(n, Direction::Down),
            spec_neighbour(n, Direction::Left),
            spec_neighbour(n, Direction::Right),
        ],
    }
}

/// The order in which the head-to-head fights are judged.
pub open spec fn wipeout_order() -> Seq<Direction> {
    seq![Direction::Left, Direction::Right, Direction::Up, Direction::Down]
}

/// Whether a head drawn at `h` belongs to another snake that wins (`dies`) or loses (not
/// `dies`) a head-to-head fight with ours; a tie counts both ways.
pub open spec fn head_meets(
    board: BoardModel,
    snakes: Seq<protocol::Snake>,
    you: protocol::Snake,
    h: Point,
    dies: bool,
) -> bool {
    &&& board.tile(h) == Tile::Head
    &&& exists|i: int|
        0 <= i < snakes.len() && (#[trigger] snakes[i]).name@ != you.name@ && snakes[i].head == h && (if dies {
            snakes[i].length >= you.length
        } else {
            snakes[i].length <= you.length
        })
}

/// Whether a head-to-head fight over the tile next to `p` in direction `d` is lost (`dies`)
/// or won (not `dies`).
pub open spec fn fight_at(
    board: BoardModel,
    snakes: Seq<protocol::Snake>,
    you: protocol::Snake,
    p: Point,
    d: Direction,
    dies: bool,
) -> bool {
    exists|j: int| 0 <= j < 3 && head_meets(board, snakes, you, #[trigger] threat_points(p, d)[j], dies)
}

/// A point whose neighbours have neighbours.
pub open spec fn has_two_steps(p: Point) -> bool {
    i8::MIN + 1 < p.x < i8::MAX - 1 && i8::MIN + 1 < p.y < i8::MAX - 1
}

fn meets_at(board: &Board, snakes: &Vec<protocol::Snake>, you: &protocol::Snake, h: &Point) -> (res: (bool, bool))
    ensures
        res.0 == head_meets(board@, snakes@, *you, *h, true),
        res.1 == head_meets(board@, snakes@, *you, *h, false),
{
    let (mut die, mut kill) = (false, false);
    if board.get(h) == Tile::Head {
        let mut i: usize = 0;
        while i < snakes.len()
            invariant
                i <= snakes@.len(),
                board@.tile(*h) == Tile::Head,
                die == exists|k: int| 0 <= k < i && (#[trigger] snakes@[k]).name@ != you.name@ && snakes@[k].head == *h && snakes@[k].length >= you.length,
                kill == exists|k: int| 0 <= k < i && (#[trigger] snakes@[k]).name@ != you.name@ && snakes@[k].head == *h && snakes@[k].length <= you.length,
            decreases snakes@.len() - i,
        {
            let s = &snakes[i];
            if s.name != you.name && s.head == *h {
                die = die || s.length >= you.length;
                kill = kill || s.length <= you.length;
            }
            i += 1;
        }
    }
    (die, kill)
}

/// For each direction, in the order left, right, up, down: whether moving there risks a
/// head-to-head fight we lose (another snake at least as long can reach the tile) and
/// whether it offers one we win (another snake at most as long can reach it).
pub fn wipeout(board: &Board, snakes: Vec<protocol::Snake>, you: &protocol::Snake, p: &Point) -> (res: Vec<(Direction, bool, bool)>)
    requires
        has_two_steps(*p),
    ensures
        res@.len() == 4,
        forall|k: int|
            0 <= k < 4 ==> #[trigger] res@[k] == (
                wipeout_order()[k],
                fight_at(board@, snakes@, *you, *p, wipeout_order()[k], true),
                fight_at(board@, snakes@, *you, *p, wipeout_order()[k], false),
            ),
{
    let order = [Direction::Left, Direction::Right, Direction::Up, Direction::Down];
    let mut res: Vec<(Direction, bool, bool)> = Vec::new();
    let mut k: usize = 0;
    while k < 4
        invariant
            k <= 4,
            has_two_steps(*p),
            order@ == wipeout_order(),
            res@.len() == k,
            forall|r: int|
                0 <= r < k ==> #[trigger] res@[r] == (
                    wipeout_order()[r],
                    fight_at(board@, snakes@, *you, *p, wipeout_order()[r], true),
                    fight_at(board@, snakes@, *you, *p, wipeout_order()[r], false),
                ),
        decreases 4 - k,
    {
        let dir = order[k];
        let n = p.neighbour(dir);
        let points = match dir {
            Direction::Left => [n.neighbour(Direction::Left), n.neighbour(Direction::Up), n.neighbour(Direction::Down)],
            Direction::Right => [n.neighbour(Direction::Right), n.neighbour(Direction::Up), n.neighbour(Direction::Down)],
            Direction::Up => [n.neighbour(Direction::Up), n.neighbour(Direction::Left), n.neighbour(Direction::Right)],
            Direction::Down => [n.neighbour(Direction::Down), n.neighbour(Direction::Left), n.neighbour(Direction::Right)],
        };
        proof {
            assert(points@ =~= threat_points(*p, dir));
        }
        let (mut die, mut kill) = (false, false);
        let mut j: usize = 0;
        while j < 3
            invariant
                j <= 3,
                points@ == threat_points(*p, dir),
                die == exists|t: int| 0 <= t < j && head_meets(board@, snakes@, *you, #[trigger] threat_points(*p, dir)[t], true),
                kill == exists|t: int| 0 <= t < j && head_meets(board@, snakes@, *you, #[trigger] threat_points(*p, dir)[t], false),
            decreases 3 - j,
        {
            let (d, kl) = meets_at(board, &snakes, you, &points[j]);
            die = die || d;
            kill = kill || kl;
            j += 1;
        }
        let ghost r0 = res@;
        res.push((dir, die, kill));
        proof {
            assert forall|r: int| 0 <= r < k + 1 implies #[trigger] res@[r] == (
                wipeout_order()[r],
                fight_at(board@, snakes@, *you, *p, wipeout_order()[r], true),
                fight_at(board@, snakes@, *you, *p, wipeout_order()[r], false),
            ) by {
                if r < k {
                    assert(res@[r] == r0[r]);
                }
            }
        }
        k += 1;
    }
    res
}

/// The longest walk from `head` within `turns` moves that steps only on safe tiles and
/// never twice on one tile.
pub open spec fn walk_len(b: BoardModel, head: Point, turns: nat) -> nat
    decreases turns, 1nat,
{
    if turns == 0 {
        0
    } else {
        let u = dir_len(b, head, turns, Direction::Up);
        let d = dir_len(b, head, turns, Direction::Down);
        let l = dir_len(b, head, turns, Direction::Left);
        let r = dir_len(b, head, turns, Direction::Right);
        let m1 = if u >= d { u } else { d };
        let m2 = if l >= r { l } else { r };
        if m1 >= m2 { m1 } else { m2 }
    }
}

/// The longest such walk that starts with a move in direction `dir` (0 when that tile is
/// not safe): the tile moved onto is blocked for the rest of the walk.
pub open spec fn dir_len(b: BoardModel, head: Point, turns: nat, dir: Direction) -> nat
    decreases turns, 0nat,
{
    if turns == 0 {
        0
    } else {
        let p = spec_neighbour(head, dir);
        if spec_is_safe(b.tile(p)) {
            1 + walk_len(b.set(p, Tile::Wall), p, (turns - 1) as nat)
        } else {
            0
        }
    }
}

/// The directions in the order the look-ahead tries them.
pub open spec fn look_dir(k: int) -> Direction {
    if k == 0 {
        Direction::Up
    } else if k == 1 {
        Direction::Down
    } else if k == 2 {
        Direction::Left
    } else {
        Direction::Right
    }
}

/// The longest walk over the first `k` directions tried.
pub open spec fn best_of(b: BoardModel, head: Point, turns: nat, k: int) -> nat
    decreases k,
{
    if k <= 0 {
        0
    } else {
        let prev = best_of(b, head, turns, k - 1);
        let here = dir_len(b, head, turns, look_dir(k - 1));
        if here >= prev { here } else { prev }
    }
}

/// The board after the first `k` fights next to our head are looked at (in the order of
/// `wipeout_order`): the safe tile of each fight we would lose is marked as a hazard.
pub open spec fn fought_board(b0: BoardModel, req: protocol::Request, k: int) -> BoardModel
    decreases k,
{
    if k <= 0 {
        b0
    } else {
        let b = fought_board(b0, req, k - 1);
        let d = wipeout_order()[k - 1];
        let p = spec_neighbour(req.you.head, d);
        if spec_is_safe(b.tile(p)) && fight_at(b0, req.board.snakes@, req.you, req.you.head, d, true) {
            b.set(p, Tile::Hazard(3))
        } else {
            b
        }
    }
}

/// The first fight from the `k`-th on that we win onto a safe tile, and would not lose.
pub open spec fn kill_move(b0: BoardModel, req: protocol::Request, k: int) -> Option<Direction>
    decreases 4 - k,
{
    if k < 0 || k >= 4 {
        None
    } else {
        let d = wipeout_order()[k];
        let p = spec_neighbour(req.you.head, d);
        if spec_is_safe(fought_board(b0, req, k).tile(p)) && !fight_at(b0, req.board.snakes@, req.you, req.you.head, d, true)
            && fight_at(b0, req.board.snakes@, req.you, req.you.head, d, false) {
            Some(d)
        } else {
            kill_move(b0, req, k + 1)
        }
    }
}

/// The move of the simple snake: a fight it wins next to its head first; otherwise, when
/// the answer has a shout, the first safe step towards the food it heads for; otherwise a
/// direction of the longest safe walk ten moves ahead (down when there is none).
pub open spec fn simple_choice(req: protocol::Request, dir: Direction, shouts: bool) -> bool {
    let b0 = crate::logic::board::spec_board_from(req.board);
    let head = req.you.head;
    match kill_move(b0, req, 0) {
        Some(d) => dir == d,
        None => {
            let bf = fought_board(b0, req, 4);
            if shouts {
                &&& spec_is_safe(bf.tile(spec_neighbour(head, dir)))
                &&& exists|ds: Seq<Vec<Option<i64>>>|
                    #[trigger] distances_ok(bf, (head.x, head.y), ds) && food_pick(
                        ds,
                        req.board.food@,
                        0,
                        head,
                        req.you.health as usize,
                        bf.width,
                        Some(dir),
                    )
            } else if walk_len(bf, head, 10) == 0 {
                dir == Direction::Down
            } else {
                dir_len(bf, head, 10, dir) == walk_len(bf, head, 10)
            }
        },
    }
}

/// The snakes with the names, heads and lengths of `v`, which is all a fight looks at.
fn fight_copy(v: &Vec<protocol::Snake>) -> (res: Vec<protocol::Snake>)
    ensures
        res@.len() == v@.len(),
        forall|i: int|
            0 <= i < v@.len() ==> (#[trigger] res@[i]).name@ == v@[i].name@ && res@[i].head == v@[i].head && res@[i].length
                == v@[i].length,
{
    let mut res: Vec<protocol::Snake> = Vec::new();
    let mut i: usize = 0;
    while i < v.len()
        invariant
            i <= v@.len(),
            res@.len() == i,
            forall|j: int|
                0 <= j < i ==> (#[trigger] res@[j]).name@ == v@[j].name@ && res@[j].head == v@[j].head && res@[j].length
                    == v@[j].length,
        decreases v@.len() - i,
    {
        let s = &v[i];
        let c = protocol::Snake {
            id: s.id.clone(),
            name: s.name.clone(),
            health: s.health,
            body: s.body.clone(),
            latency: s.latency.clone(),
            head: s.head,
            length: s.length,
            shout: s.shout.clone(),
            squad: s.squad.clone(),
            customizations: s.customizations.clone(),
        };
        let ghost r0 = res@;
        res.push(c);
        proof {
            assert forall|j: int| 0 <= j < i + 1 implies (#[trigger] res@[j]).name@ == v@[j].name@ && res@[j].head == v@[j].head
                && res@[j].length == v@[j].length by {
                if j < i {
                    assert(res@[j] == r0[j]);
                }
            }
        }
        i += 1;
    }
    res
}

/// A fight looks only at the names, heads and lengths of the snakes.
proof fn lemma_fight_same(
    b: BoardModel,
    s1: Seq<protocol::Snake>,
    s2: Seq<protocol::Snake>,
    you: protocol::Snake,
    p: Point,
    d: Direction,
    dies: bool,
)
    requires
        s1.len() == s2.len(),
        forall|i: int| 0 <= i < s1.len() ==> (#[trigger] s1[i]).name@ == s2[i].name@ && s1[i].head == s2[i].head && s1[i].length == s2[i].length,
    ensures
        fight_at(b, s1, you, p, d, dies) == fight_at(b, s2, you, p, d, dies),
{
    assert forall|h: Point| #[trigger] head_meets(b, s1, you, h, dies) == head_meets(b, s2, you, h, dies) by {
        if head_meets(b, s1, you, h, dies) {
            let i = choose|i: int|
                0 <= i < s1.len() && (#[trigger] s1[i]).name@ != you.name@ && s1[i].head == h && (if dies {
                    s1[i].length >= you.length
                } else {
                    s1[i].length <= you.length
                });
            assert(s2[i].name@ != you.name@);
        }
        if head_meets(b, s2, you, h, dies) {
            let i = choose|i: int|
                0 <= i < s2.len() && (#[trigger] s2[i]).name@ != you.name@ && s2[i].head == h && (if dies {
                    s2[i].length >= you.length
                } else {
                    s2[i].length <= you.length
                });
            assert(s1[i].name@ != you.name@);
        }
    }
    if fight_at(b, s1, you, p, d, dies) {
        let j = choose|j: int| 0 <= j < 3 && head_meets(b, s1, you, #[trigger] threat_points(p, d)[j], dies);
        assert(head_meets(b, s2, you, threat_points(p, d)[j], dies));
    }
    if fight_at(b, s2, you, p, d, dies) {
        let j = choose|j: int| 0 <= j < 3 && head_meets(b, s2, you, #[trigger] threat_points(p, d)[j], dies);
        assert(head_meets(b, s1, you, threat_points(p, d)[j], dies));
    }
}

/// A coin flip (`rand::random`).
#[verifier::external_body]
fn coin_flip() -> bool {
    rand::random()
}

/// Looks up to `turns` moves ahead for the longest way our snake can go without stepping
/// on an unsafe tile or on its own way: each move blocks the tile it reaches while the
/// moves after it are tried, and a tie with the best so far is broken by a coin flip. The
/// board is as it was afterwards. The length of the longest walk comes back, with a
/// direction it starts in; Down with 0 turns when no move is taken.
pub fn look_ahead(board: &mut Board, head: &Point, turns: usize) -> (res: (Direction, usize))
    requires
        old(board)@.width <= 127,
        old(board)@.height <= 127,
        has_neighbours(*head),
    ensures
        final(board)@ == old(board)@,
        res.1 <= turns,
        res.1 == walk_len(old(board)@, *head, turns as nat),
        res.1 > 0 ==> res.1 == dir_len(old(board)@, *head, turns as nat, res.0),
        res.1 == 0 ==> res.0 == Direction::Down,
        res.1 > 0 ==> spec_is_safe(old(board)@.tile(spec_neighbour(*head, res.0))),
    decreases turns,
{
    let mut max_turns: usize = 0;
    let mut best_dir = Direction::Down;
    if turns == 0 {
        return (best_dir, max_turns);
    }
    let ghost b0 = board@;
    let dirs = [Direction::Up, Direction::Down, Direction::Left, Direction::Right];
    proof {
        assert forall|i: int| 0 <= i < 4 implies #[trigger] dirs@[i] == look_dir(i) by {
            if i == 0 {
            } else if i == 1 {
            } else if i == 2 {
            } else {
            }
        }
    }
    let mut k: usize = 0;
    while k < 4
        invariant
            k <= 4,
            turns > 0,
            board@ == b0,
            forall|i: int| 0 <= i < 4 ==> #[trigger] dirs@[i] == look_dir(i),
            max_turns == best_of(b0, *head, turns as nat, k as int),
            max_turns > 0 ==> max_turns == dir_len(b0, *head, turns as nat, best_dir),
            max_turns == 0 ==> best_dir == Direction::Down,
            b0.width <= 127,
            b0.height <= 127,
            has_neighbours(*head),
            max_turns <= turns,
            max_turns > 0 ==> spec_is_safe(b0.tile(spec_neighbour(*head, best_dir))),
        decreases 4 - k,
    {
        let dir = dirs[k];
        let p = head.neighbour(dir);
        let here = board.get(&p);
        proof {
            assert(dir == look_dir(k as int));
            assert(best_of(b0, *head, turns as nat, k + 1) == if dir_len(b0, *head, turns as nat, dir) >= max_turns {
                dir_len(b0, *head, turns as nat, dir)
            } else {
                max_turns as nat
            });
        }
        if here.is_safe() {
            proof {
                board.lemma_tiles_storable();
                board.lemma_model();
                crate::logic::board::lemma_set_get(here);
                assert(b0.in_bounds(p));
                assert(b0.tiles.dom().contains(p));
            }
            board.set(&p, Tile::Wall);
            let (_, t) = look_ahead(board, &p, turns - 1);
            proof {
                assert(dir_len(b0, *head, turns as nat, dir) == t + 1);
            }
            if t + 1 > max_turns || (t + 1 == max_turns && coin_flip()) {
                max_turns = t + 1;
                best_dir = dir;
            }
            board.set(&p, here);
            proof {
                assert(board@.tiles =~= b0.tiles) by {
                    assert(board@.tiles =~= b0.tiles.insert(p, here));
                }
            }
        }
        k += 1;
    }
    proof {
        reveal_with_fuel(best_of, 5);
        assert(max_turns == walk_len(b0, *head, turns as nat));
    }
    (best_dir, max_turns)
}

/// The choice of food from the `i`-th food on, given the distances: the first food with a
/// distance decides. The snake is not hungry when that distance plus the board width is
/// below its health while the distance is above the width, nor does it go for food beyond
/// its health; otherwise it takes the first step of the path back from that food, or,
/// where that path is empty, the choice from the next food on. With no food left there is
/// no choice.
pub open spec fn food_pick(
    ds: Seq<Vec<Option<i64>>>,
    food: Seq<Point>,
    i: int,
    head: Point,
    hp: usize,
    width: int,
    res: Option<Direction>,
) -> bool
    decreases food.len() - i,
{
    if i < 0 || i >= food.len() {
        res is None
    } else {
        let f = food[i];
        match dist_of(ds, (f.x, f.y)) {
            None => food_pick(ds, food, i + 1, head, hp, width, res),
            Some(d) => if d + width < (hp as i64) && d > width {
                res is None
            } else if d > (hp as i64) {
                res is None
            } else {
                exists|path: Seq<Direction>|
                    #[trigger] walk_back_ok(ds, head, f, path) && (if path.len() > 0 {
                        res == Some(path[0])
                    } else {
                        food_pick(ds, food, i + 1, head, hp, width, res)
                    })
            },
        }
    }
}

/// The first move towards food: the distances from the head are searched, then the food
/// is chosen as `food_pick` says.
#[verifier::rlimit(40)]
pub fn search_for_food(board: &Board, food: &Vec<Point>, head: &Point, hp: usize) -> (res: Option<Direction>)
    requires
        board@.width <= 127,
        board@.height <= 127,
        on_board(board@, (head.x, head.y)),
        forall|i: int| 0 <= i < food@.len() ==> on_board(board@, (#[trigger] food@[i].x, food@[i].y)),
    ensures
        exists|ds: Seq<Vec<Option<i64>>>|
            #[trigger] distances_ok(board@, (head.x, head.y), ds) && food_pick(ds, food@, 0, *head, hp, board@.width, res),
{
    let distances = calculate_distances(board, head);
    let ghost ds = distances@;
    let width = board.width() as i64;
    let mut i: usize = 0;
    while i < food.len()
        invariant
            i <= food@.len(),
            ds == distances@,
            distances_ok(board@, (head.x, head.y), ds),
            width == board@.width,
            board@.width <= 127,
            board@.height <= 127,
            forall|i: int| 0 <= i < food@.len() ==> on_board(board@, (#[trigger] food@[i].x, food@[i].y)),
            forall|r: Option<Direction>|
                food_pick(ds, food@, i as int, *head, hp, width as int, r) ==> #[trigger] food_pick(
                    ds,
                    food@,
                    0,
                    *head,
                    hp,
                    width as int,
                    r,
                ),
        decreases food@.len() - i,
    {
        let f = food[i];
        proof {
            assert(on_board(board@, (f.x, f.y)));
            assert(distances@[f.x as int]@.len() == board@.height);
        }
        match distances[f.x as usize][f.y as usize] {
            Some(distance) => {
                proof {
                    assert(dist_of(ds, (f.x, f.y)) == Some(distance));
                }
                if distance + width < hp as i64 && distance > width {
                    proof {
                        assert(food_pick(ds, food@, i as int, *head, hp, width as int, None));
                    }
                    return None;
                }
                if distance > hp as i64 {
                    proof {
                        assert(food_pick(ds, food@, i as int, *head, hp, width as int, None));
                    }
                    return None;
                }
                proof {
                    assert(grid_ok(ds)) by {
                        assert(ds.len() > 0 ==> ds[0]@.len() == board@.height);
                    }
                }
                let path = find_path(&distances, head, &f);
                if path.len() > 0 {
                    let first = path[0];
                    proof {
                        assert(walk_back_ok(ds, *head, f, path@));
                        assert(food_pick(ds, food@, i as int, *head, hp, width as int, Some(first)));
                    }
                    return Some(first);
                }
                proof {
                    assert forall|r: Option<Direction>|
                        food_pick(ds, food@, i + 1, *head, hp, width as int, r) implies #[trigger] food_pick(
                        ds,
                        food@,
                        0,
                        *head,
                        hp,
                        width as int,
                        r,
                    ) by {
                        assert(walk_back_ok(ds, *head, f, path@));
                        assert(food_pick(ds, food@, i as int, *head, hp, width as int, r));
                    }
                }
            },
            None => {
                proof {
                    assert(dist_of(ds, (f.x, f.y)) is None);
                    assert forall|r: Option<Direction>|
                        food_pick(ds, food@, i + 1, *head, hp, width as int, r) implies #[trigger] food_pick(
                        ds,
                        food@,
                        0,
                        *head,
                        hp,
                        width as int,
                        r,
                    ) by {
                        assert(food_pick(ds, food@, i as int, *head, hp, width as int, r));
                    }
                }
            },
        }
        i += 1;
    }
    proof {
        assert(food_pick(ds, food@, i as int, *head, hp, width as int, None));
    }
    None
}

/// The requests the simple snake answers: a board of at most 127 tiles each way, the
/// head on it at least two steps from the top and right ends of the coordinates, and all
/// food on it.
pub open spec fn simple_move_ok(req: protocol::Request) -> bool {
    let (w, h) = (req.board.width as int, req.board.height as int);
    let head = req.you.head;
    &&& w <= 127
    &&& h <= 127
    &&& 0 <= head.x < w && 0 <= head.y < h
    &&& head.x <= 125 && head.y <= 125
    &&& forall|i: int|
        0 <= i < req.board.food@.len() ==> 0 <= #[trigger] req.board.food@[i].x < w && 0 <= req.board.food@[i].y < h
}

/// Whether every food lies on the board.
fn food_on_board(board: &Board, food: &Vec<Point>) -> (res: bool)
    ensures
        res == forall|i: int| 0 <= i < food@.len() ==> on_board(board@, (#[trigger] food@[i].x, food@[i].y)),
{
    let mut i: usize = 0;
    while i < food.len()
        invariant
            i <= food@.len(),
            forall|j: int| 0 <= j < i ==> on_board(board@, (#[trigger] food@[j].x, food@[j].y)),
        decreases food@.len() - i,
    {
        let f = food[i];
        if f.x < 0 || f.y < 0 || f.x as isize >= board.width() || f.y as isize >= board.height() {
            return false;
        }
        i += 1;
    }
    true
}

impl Battlesnake for SimpleSnake {
    fn snake_info(&self) -> (res: protocol::SnakeInfo)
        ensures
            res.apiversion@ == "1"@ && res.author@ == "General Error"@ && res.color@ == "#ffff00"@,
            res.head@ == "silly"@ && res.tail@ == "sharp"@ && res.version@ == "106b"@,
    {
        protocol::SnakeInfo {
            apiversion: "1".to_owned(),
            author: "General Error".to_owned(),
            color: "#ffff00".to_owned(),
            head: "silly".to_owned(),
            tail: "sharp".to_owned(),
            version: "106b".to_owned(),
        }
    }

    fn start(&self, _req: &protocol::Request) -> (res: Result<(), String>)
        ensures
            res is Ok,
    {
        Ok(())
    }

    fn end(&self, _req: &protocol::Request) -> (res: Result<(), String>)
        ensures
            res is Ok,
    {
        Ok(())
    }

    /// A fight we win next to the head is taken at once, a fight we lose marks its tile as
    /// a hazard; then, when hungry, the first step towards food if it is safe; otherwise
    /// the longest safe way ten moves ahead. A board of more than 127 tiles either way,
    /// or a head or food off the board, is refused.
    fn make_move(&self, req: &protocol::Request) -> (res: Result<protocol::MoveResponse, String>)
        ensures
            res is Err <==> !simple_move_ok(*req),
            res matches Ok(m) ==> simple_choice(*req, m.direction, m.shout@.len() > 0),
    {
        let food = req.board.food.clone();
        let snakes = fight_copy(&req.board.snakes);
        if req.board.width > 127 || req.board.height > 127 {
            return Err("board too large".to_owned());
        }
        proof {
            let (w, h) = (req.board.width, req.board.height);
            assert(w * h + 3 <= usize::MAX) by (nonlinear_arith)
                requires
                    w <= 127,
                    h <= 127,
            ;
        }
        let mut board = Board::from(&req.board);
        let head = req.you.head;
        if board.width() > 127 || board.height() > 127 || head.x < 0 || head.y < 0 || head.x as isize >= board.width()
            || head.y as isize >= board.height() || head.x > 125 || head.y > 125 {
            return Err("head off the board".to_owned());
        }
        if !food_on_board(&board, &food) {
            return Err("food off the board".to_owned());
        }
        proof {
            assert(food@ == req.board.food@);
            assert(simple_move_ok(*req));
        }
        let ghost b0 = board@;
        let ghost ss = snakes@;
        let fights = wipeout(&board, snakes, &req.you, &head);
        let mut k: usize = 0;
        while k < fights.len()
            invariant
                b0 == crate::logic::board::spec_board_from(req.board),
                head == req.you.head,
                food@ == req.board.food@,
                k <= 4,
                board@ == fought_board(b0, *req, k as int),
                kill_move(b0, *req, 0) == kill_move(b0, *req, k as int),
                fights@.len() == 4,
                forall|j: int|
                    0 <= j < 4 ==> #[trigger] fights@[j] == (
                        wipeout_order()[j],
                        fight_at(b0, ss, req.you, head, wipeout_order()[j], true),
                        fight_at(b0, ss, req.you, head, wipeout_order()[j], false),
                    ),
                ss.len() == req.board.snakes@.len(),
                forall|i: int|
                    0 <= i < ss.len() ==> (#[trigger] ss[i]).name@ == req.board.snakes@[i].name@ && ss[i].head
                        == req.board.snakes@[i].head && ss[i].length == req.board.snakes@[i].length,
                simple_move_ok(*req),
                board@.width <= 127,
                board@.height <= 127,
                on_board(board@, (head.x, head.y)),
                has_two_steps(head),
                forall|i: int| 0 <= i < food@.len() ==> on_board(board@, (#[trigger] food@[i].x, food@[i].y)),
            decreases fights@.len() - k,
        {
            let (direction, die, kill) = fights[k];
            proof {
                lemma_fight_same(b0, ss, req.board.snakes@, req.you, head, direction, true);
                lemma_fight_same(b0, ss, req.board.snakes@, req.you, head, direction, false);
                assert(direction == wipeout_order()[k as int]);
            }
            let p = head.neighbour(direction);
            if board.get(&p).is_safe() {
                if die {
                    // A head-on fight we would lose: its tile counts as a hazard for now.
                    board.set(&p, Tile::Hazard(3));
                } else if kill {
                    return Ok(protocol::MoveResponse { direction, shout: "お前はもう死んでいる".to_owned() });
                }
            }
            k += 1;
        }
        let hp = req.you.health as usize;
        proof {
            assert(kill_move(b0, *req, 4) == None::<Direction>);
        }
        let ghost bf = board@;
        proof {
            assert(bf == fought_board(b0, *req, 4));
            assert(kill_move(b0, *req, 0) == None::<Direction>);
        }
        let found = search_for_food(&board, &food, &head, hp);
        match found {
            Some(dir) => {
                if board.get(&head.neighbour(dir)).is_safe() {
                    let shout = "nom nom nom".to_owned();
                    proof {
                        reveal_strlit("nom nom nom");
                        assert(shout@.len() > 0);
                        let ds = choose|ds: Seq<Vec<Option<i64>>>|
                            #[trigger] distances_ok(bf, (head.x, head.y), ds) && food_pick(ds, food@, 0, head, hp, bf.width, found);
                        assert(distances_ok(bf, (head.x, head.y), ds) && food_pick(
                            ds,
                            req.board.food@,
                            0,
                            req.you.head,
                            req.you.health as usize,
                            bf.width,
                            Some(dir),
                        ));
                        assert(simple_choice(*req, dir, true));
                    }
                    return Ok(protocol::MoveResponse { direction: dir, shout });
                }
            },
            None => {},
        }
        let (dir, turns) = look_ahead(&mut board, &head, 10);
        let shout = "".to_owned();
        proof {
            reveal_strlit("");
            assert(shout@.len() == 0);
            assert(turns == walk_len(bf, req.you.head, 10));
            assert(simple_choice(*req, dir, false));
        }
        Ok(protocol::MoveResponse { direction: dir, shout })
    }
}

} // verus!
