//! The state of a game and the simulation of one turn.
use vstd::prelude::*;

use std::time::Duration;

use super::board::BoardModel;
use super::point::{spec_warp, warp_size_ok};
use super::snake::{can_move, spec_clear_all, spec_move_snake, spec_next_board, SnakeModel};
use super::board::spec_board_from;
use super::snake::spec_snake_from;
use super::{Board, Direction, Point, Snake, Tile};
use crate::protocol;

verus! {

#[derive(Clone, Copy, Eq, PartialEq, Structural, Hash, Debug)]
pub enum GameMode {
    Standard,
    Constrictor,
    Wrapped,
    Royale,
    Solo,
}

#[derive(Clone, Copy, Eq, PartialEq, Structural, Hash, Debug)]
pub struct Rules {
    pub game_mode: GameMode,
    pub hazard_damage_per_turn: i8,
}

/// The game mode a ruleset names; unknown rulesets are played as standard games.
pub open spec fn spec_game_mode(name: Seq<char>) -> GameMode {
    if name == "standard"@ {
        GameMode::Standard
    } else if name == "royale"@ {
        GameMode::Royale
    } else if name == "wrapped"@ {
        GameMode::Wrapped
    } else if name == "solo"@ {
        GameMode::Solo
    } else {
        GameMode::Standard
    }
}

impl Rules {
    /// The rules of a ruleset; the hazard damage is narrowed to `i8`.
    pub fn from(r: &protocol::Ruleset) -> (res: Rules)
        ensures
            res.game_mode == spec_game_mode(r.name@),
            res.hazard_damage_per_turn == r.settings.hazard_damage_per_turn as i8,
    {
        let game_mode = if r.name == "standard".to_owned() {
            GameMode::Standard
        } else if r.name == "royale".to_owned() {
            GameMode::Royale
        } else if r.name == "wrapped".to_owned() {
            GameMode::Wrapped
        } else if r.name == "solo".to_owned() {
            GameMode::Solo
        } else {
            GameMode::Standard
        };
        Rules { game_mode, hazard_damage_per_turn: r.settings.hazard_damage_per_turn as i8 }
    }
}

/// The duration that `Duration::from_millis` makes of a number of milliseconds.
pub uninterp spec fn spec_from_millis(ms: u64) -> Duration;

/// `Duration::from_millis`; the result is a function of the number alone.
#[verifier::external_body]
pub(crate) fn duration_from_millis(ms: u64) -> (res: Duration)
    ensures
        res == spec_from_millis(ms),
{
    Duration::from_millis(ms)
}

/// The opponents among the first `k` snakes of a request, numbered from 1 in order.
pub open spec fn spec_others_from(snakes: Seq<protocol::Snake>, you_id: Seq<char>, k: int) -> Seq<SnakeModel>
    decreases k,
{
    if k <= 0 {
        seq![]
    } else {
        let before = spec_others_from(snakes, you_id, k - 1);
        if snakes[k - 1].id@ != you_id {
            before.push(SnakeModel { id: (before.len() + 1) as u8, ..spec_snake_from(snakes[k - 1]) })
        } else {
            before
        }
    }
}

/// The game that a request describes, seen from the snake `you` of the request.
pub open spec fn spec_game_from(req: protocol::Request) -> GameModel {
    GameModel {
        board: spec_board_from(req.board),
        others: spec_others_from(req.board.snakes@, req.you.id@, req.board.snakes@.len() as int),
        dead_snakes: 0,
        you: spec_snake_from(req.you),
        rules: Rules {
            game_mode: spec_game_mode(req.game.ruleset.name@),
            hazard_damage_per_turn: req.game.ruleset.settings.hazard_damage_per_turn as i8,
        },
        turn: req.turn as int,
    }
}

/// A request the engine can read: the board size fits the board's storage and at most 255
/// opponents can be numbered.
pub open spec fn request_fits(req: protocol::Request) -> bool {
    &&& req.board.width * req.board.height + 3 <= usize::MAX
    &&& spec_others_from(req.board.snakes@, req.you.id@, req.board.snakes@.len() as int).len() <= 255
}

/// Whether the engine can read the request, as `request_fits` says.
pub fn fits(req: &protocol::Request) -> (res: bool)
    ensures
        res == request_fits(*req),
{
    match req.board.width.checked_mul(req.board.height) {
        None => {
            return false;
        },
        Some(n) => {
            if n > usize::MAX - 3 {
                return false;
            }
        },
    }
    let ghost snakes = req.board.snakes@;
    let ghost you_id = req.you.id@;
    let mut count: usize = 0;
    let mut i: usize = 0;
    while i < req.board.snakes.len()
        invariant
            i <= snakes.len(),
            snakes == req.board.snakes@,
            you_id == req.you.id@,
            count <= 255,
            count == spec_others_from(snakes, you_id, i as int).len(),
            req.board.width * req.board.height + 3 <= usize::MAX,
        decreases snakes.len() - i,
    {
        let same = req.board.snakes[i].id == req.you.id;
        if !same {
            if count == 255 {
                proof {
                    lemma_others_from_grows(snakes, you_id, i + 1, snakes.len() as int);
                }
                return false;
            }
            count += 1;
        }
        i += 1;
    }
    true
}

proof fn lemma_others_from_grows(snakes: Seq<protocol::Snake>, you_id: Seq<char>, j: int, k: int)
    requires
        0 <= j <= k,
    ensures
        spec_others_from(snakes, you_id, j).len() <= spec_others_from(snakes, you_id, k).len(),
    decreases k,
{
    if j < k {
        lemma_others_from_grows(snakes, you_id, j, k - 1);
    }
}

/// A game in progress, seen from our snake `you`; `others` are the opponents still alive.
#[derive(Eq, PartialEq, Hash, Debug)]
pub struct Game {
    pub board: Board,
    pub others: Vec<Snake>,
    pub dead_snakes: usize,
    pub you: Snake,
    pub timeout: Duration,
    pub rules: Rules,
    pub turn: usize,
}

/// What a game is: the board, the snakes, the number of snakes that died in the last turn,
/// the rules and the turn number.
pub struct GameModel {
    pub board: BoardModel,
    pub others: Seq<SnakeModel>,
    pub dead_snakes: int,
    pub you: SnakeModel,
    pub rules: Rules,
    pub turn: int,
}

/// The models of a sequence of snakes.
pub open spec fn models(v: Seq<Snake>) -> Seq<SnakeModel> {
    v.map_values(|s: Snake| s@)
}

impl View for Game {
    type V = GameModel;

    open spec fn view(&self) -> GameModel {
        GameModel {
            board: self.board@,
            others: models(self.others@),
            dead_snakes: self.dead_snakes as int,
            you: self.you@,
            rules: self.rules,
            turn: self.turn as int,
        }
    }
}

/// A copy of each snake, in order.
fn clone_snakes(v: &Vec<Snake>) -> (res: Vec<Snake>)
    ensures
        models(res@) == models(v@),
{
    let mut res: Vec<Snake> = Vec::new();
    let mut i: usize = 0;
    while i < v.len()
        invariant
            i <= v.len(),
            res@.len() == i,
            forall|q: int| 0 <= q < i ==> #[trigger] res@[q]@ == v@[q]@,
        decreases v.len() - i,
    {
        let c = v[i].clone();
        res.push(c);
        i += 1;
    }
    proof {
        assert(models(res@) =~= models(v@));
    }
    res
}

impl Clone for Game {
    fn clone(&self) -> (res: Self)
        ensures
            res@ == self@,
            res.timeout == self.timeout,
    {
        Game {
            board: self.board.clone(),
            others: clone_snakes(&self.others),
            dead_snakes: self.dead_snakes,
            you: self.you.clone(),
            timeout: self.timeout,
            rules: self.rules,
            turn: self.turn,
        }
    }
}

/// The opponents and the board after the first `k` opponents have moved, each in its
/// direction, one after the other on the same board.
pub open spec fn spec_move_others(
    others: Seq<SnakeModel>,
    dirs: Seq<Direction>,
    m: BoardModel,
    rules: Rules,
    k: int,
) -> (Seq<SnakeModel>, BoardModel)
    decreases k,
{
    if k <= 0 {
        (others, m)
    } else {
        let (o, mm) = spec_move_others(others, dirs, m, rules, k - 1);
        (
            o.update(k - 1, spec_move_snake(others[k - 1], dirs[k - 1], mm, rules)),
            spec_next_board(others[k - 1], dirs[k - 1], mm, rules),
        )
    }
}

/// Each of the first `k` opponents can make its move on the board it finds.
pub open spec fn others_can_move(
    others: Seq<SnakeModel>,
    dirs: Seq<Direction>,
    m: BoardModel,
    rules: Rules,
    k: int,
) -> bool
    decreases k,
{
    k <= 0 || (others_can_move(others, dirs, m, rules, k - 1) && can_move(
        others[k - 1],
        dirs[k - 1],
        spec_move_others(others, dirs, m, rules, k - 1).1,
        rules,
    ))
}

/// Among the first `k` opponents: those still alive, the board after clearing the dead ones
/// from it, and the heads of the dead ones, in order.
pub open spec fn spec_eliminate_others(others: Seq<SnakeModel>, m: BoardModel, k: int) -> (
    Seq<SnakeModel>,
    BoardModel,
    Seq<Point>,
)
    decreases k,
{
    if k <= 0 {
        (seq![], m, seq![])
    } else {
        let (kept, mm, sites) = spec_eliminate_others(others, m, k - 1);
        let s = others[k - 1];
        if s.health <= 0 {
            (kept, spec_clear_all(mm, s.body), sites.push(s.head))
        } else {
            (kept.push(s), mm, sites)
        }
    }
}

/// The board after marking `p` as body once for each of the first `k` body tiles at `p`.
pub open spec fn spec_mark_body(m: BoardModel, p: Point, body: Seq<Point>, k: int) -> BoardModel
    decreases k,
{
    if k <= 0 {
        m
    } else {
        let mm = spec_mark_body(m, p, body, k - 1);
        if body[k - 1] == p {
            mm.add(p, Tile::Snake)
        } else {
            mm
        }
    }
}

/// The board after redrawing the part of snake `s` that lies at `p`.
pub open spec fn spec_repair_snake(m: BoardModel, p: Point, s: SnakeModel) -> BoardModel {
    let m1 = spec_mark_body(m, p, s.body, s.body.len() as int);
    if s.head == p {
        m1.add(p, Tile::Head)
    } else {
        m1
    }
}

pub open spec fn spec_repair_others(m: BoardModel, p: Point, others: Seq<SnakeModel>, k: int) -> BoardModel
    decreases k,
{
    if k <= 0 {
        m
    } else {
        spec_repair_snake(spec_repair_others(m, p, others, k - 1), p, others[k - 1])
    }
}

/// The board after redrawing whatever live snakes lie at `p` (ours only while alive).
pub open spec fn spec_repair_point(m: BoardModel, p: Point, you: SnakeModel, others: Seq<SnakeModel>) -> BoardModel {
    let m1 = if you.health > 0 {
        spec_repair_snake(m, p, you)
    } else {
        m
    };
    spec_repair_others(m1, p, others, others.len() as int)
}

/// The board after redrawing the live snakes at the first `k` crash sites.
pub open spec fn spec_repair(m: BoardModel, points: Seq<Point>, you: SnakeModel, others: Seq<SnakeModel>, k: int) -> BoardModel
    decreases k,
{
    if k <= 0 {
        m
    } else {
        spec_repair_point(spec_repair(m, points, you, others, k - 1), points[k - 1], you, others)
    }
}

/// Removing the dead snakes: the surviving opponents, the board with the dead snakes
/// cleared and the live snakes redrawn where the dead ones were, and how many snakes died
/// (our snake counts when its health is gone, though it stays in the game).
pub open spec fn spec_eliminate(you: SnakeModel, others: Seq<SnakeModel>, m: BoardModel) -> (
    Seq<SnakeModel>,
    BoardModel,
    int,
) {
    let you_dead = you.health <= 0;
    let m1 = if you_dead {
        spec_clear_all(m, you.body)
    } else {
        m
    };
    let sites1: Seq<Point> = if you_dead {
        seq![you.head]
    } else {
        seq![]
    };
    let (kept, m2, sites2) = spec_eliminate_others(others, m1, others.len() as int);
    let sites = sites1 + sites2;
    (
        kept,
        spec_repair(m2, sites, you, kept, sites.len() as int),
        (if you_dead { 1int } else { 0int }) + (others.len() - kept.len()),
    )
}

/// Whether snake `s` dies by collision: its head is on a snake's body, or on the head of
/// another snake at least as long as it.
pub open spec fn spec_collides(s: SnakeModel, you: SnakeModel, others: Seq<SnakeModel>, m: BoardModel) -> bool {
    ||| m.tile(s.head) is Snake
    ||| m.tile(s.head) is HazardWithSnake
    ||| exists|i: int|
        0 <= i < others.len() && #[trigger] others[i].id != s.id && others[i].head == s.head && s.length
            <= others[i].length
    ||| s.id != you.id && s.head == you.head && s.length <= you.length
}

pub open spec fn spec_draw_other_heads(m: BoardModel, others: Seq<SnakeModel>, k: int) -> BoardModel
    decreases k,
{
    if k <= 0 {
        m
    } else {
        let mm = spec_draw_other_heads(m, others, k - 1);
        if others[k - 1].health > 0 {
            mm.add(others[k - 1].head, Tile::Head)
        } else {
            mm
        }
    }
}

/// The board with the heads of the live snakes drawn.
pub open spec fn spec_draw_heads(m: BoardModel, you: SnakeModel, others: Seq<SnakeModel>) -> BoardModel {
    let m1 = if you.health > 0 {
        m.add(you.head, Tile::Head)
    } else {
        m
    };
    spec_draw_other_heads(m1, others, others.len() as int)
}

pub open spec fn with_health_zero(s: SnakeModel) -> SnakeModel {
    SnakeModel { health: 0, ..s }
}

/// One turn of the game: all snakes move (ours first, then the opponents in order) on one
/// board, snakes without health are removed, snakes that collided lose their health and
/// are removed, the heads of the survivors are drawn, and the turn counter advances.
pub open spec fn spec_execute_moves(g: GameModel, you_dir: Direction, dirs: Seq<Direction>) -> GameModel {
    let you1 = spec_move_snake(g.you, you_dir, g.board, g.rules);
    let m1 = spec_next_board(g.you, you_dir, g.board, g.rules);
    let (others1, m2) = spec_move_others(g.others, dirs, m1, g.rules, dirs.len() as int);
    let (others2, m3, _) = spec_eliminate(you1, others1, m2);
    let you2 = if spec_collides(you1, you1, others2, m3) {
        with_health_zero(you1)
    } else {
        you1
    };
    let others3 = Seq::new(
        others2.len(),
        |i: int|
            if spec_collides(others2[i], you2, others2, m3) {
                with_health_zero(others2[i])
            } else {
                others2[i]
            },
    );
    let (others4, m4, dead) = spec_eliminate(you2, others3, m3);
    GameModel {
        board: spec_draw_heads(m4, you2, others4),
        others: others4,
        dead_snakes: dead,
        you: you2,
        rules: g.rules,
        turn: g.turn + 1,
    }
}

/// The moves of one turn can be computed without overflow.
pub open spec fn moves_computable(g: GameModel, you_dir: Direction, dirs: Seq<Direction>) -> bool {
    &&& dirs.len() <= g.others.len()
    &&& g.others.len() < usize::MAX
    &&& g.turn < usize::MAX
    &&& can_move(g.you, you_dir, g.board, g.rules)
    &&& others_can_move(
        g.others,
        dirs,
        spec_next_board(g.you, you_dir, g.board, g.rules),
        g.rules,
        dirs.len() as int,
    )
}

/// The index among all snakes (0 for ours while it lives, 1 and up for the opponents) of
/// the first of the first `k` opponents whose head or body is at `p`; -1 if there is none.
pub open spec fn spec_owner_among(others: Seq<SnakeModel>, p: Point, k: int) -> int
    decreases k,
{
    if k <= 0 {
        -1
    } else {
        let before = spec_owner_among(others, p, k - 1);
        if before != -1 {
            before
        } else if others[k - 1].head == p || others[k - 1].body.contains(p) {
            k
        } else {
            -1
        }
    }
}

pub open spec fn spec_snake_number(g: GameModel, p: Point) -> int {
    if g.you.health > 0 && (g.you.head == p || g.you.body.contains(p)) {
        0
    } else {
        spec_owner_among(g.others, p, g.others.len() as int)
    }
}

proof fn lemma_owner_stable(others: Seq<SnakeModel>, p: Point, k: int, k2: int)
    requires
        0 <= k <= k2,
        spec_owner_among(others, p, k) != -1,
    ensures
        spec_owner_among(others, p, k2) == spec_owner_among(others, p, k),
    decreases k2,
{
    if k2 > k {
        lemma_owner_stable(others, p, k, k2 - 1);
    }
}

proof fn lemma_move_others_shape(
    others: Seq<SnakeModel>,
    dirs: Seq<Direction>,
    m: BoardModel,
    rules: Rules,
    k: int,
)
    requires
        0 <= k <= others.len(),
    ensures
        spec_move_others(others, dirs, m, rules, k).0.len() == others.len(),
        forall|j: int| k <= j < others.len() ==> #[trigger] spec_move_others(others, dirs, m, rules, k).0[j] == others[j],
    decreases k,
{
    if k > 0 {
        lemma_move_others_shape(others, dirs, m, rules, k - 1);
    }
}

proof fn lemma_others_can_move_prefix(
    others: Seq<SnakeModel>,
    dirs: Seq<Direction>,
    m: BoardModel,
    rules: Rules,
    j: int,
    k: int,
)
    requires
        0 <= j <= k,
        others_can_move(others, dirs, m, rules, k),
    ensures
        others_can_move(others, dirs, m, rules, j),
    decreases k,
{
    if j < k {
        lemma_others_can_move_prefix(others, dirs, m, rules, j, k - 1);
    }
}

impl Game {
    pub fn from(req: &protocol::Request) -> (res: Game)
        requires
            request_fits(*req),
        ensures
            res@ == spec_game_from(*req),
            res.timeout == spec_from_millis(req.game.timeout as u64),
    {
        let board = Board::from(&req.board);
        let mut you = Snake::from(&req.you);
        you.id = 0;
        let mut others: Vec<Snake> = Vec::new();
        let n = req.board.snakes.len();
        let mut i: usize = 0;
        while i < n
            invariant
                i <= n,
                n == req.board.snakes@.len(),
                request_fits(*req),
                models(others@) == spec_others_from(req.board.snakes@, req.you.id@, i as int),
            decreases n - i,
        {
            let s = &req.board.snakes[i];
            if !(s.id == req.you.id) {
                proof {
                    lemma_others_from_grows(req.board.snakes@, req.you.id@, i + 1, n as int);
                }
                let mut snake = Snake::from(s);
                let id = others.len() as u8 + 1;
                snake.id = id;
                let ghost before = others@;
                others.push(snake);
                proof {
                    assert(models(others@) =~= models(before).push(snake@));
                }
            }
            i += 1;
        }
        Game {
            board,
            timeout: duration_from_millis(req.game.timeout as u64),
            you,
            others,
            rules: Rules::from(&req.game.ruleset),
            dead_snakes: 0,
            turn: req.turn,
        }
    }

    /// Wraps a point around the board edges in a wrapped game; otherwise leaves it alone.
    pub fn warp(&self, p: &mut Point)
        requires
            self.rules.game_mode == GameMode::Wrapped ==> warp_size_ok(self.board@.width as isize, self.board@.height as isize),
        ensures
            *final(p) == if self.rules.game_mode == GameMode::Wrapped {
                spec_warp(*old(p), self.board@.width as isize, self.board@.height as isize)
            } else {
                *old(p)
            },
    {
        if self.rules.game_mode == GameMode::Wrapped {
            p.warp(self.board.width(), self.board.height())
        }
    }

    /// Plays one turn: our snake moves in direction `you`, the opponents in the directions
    /// `others` (an opponent without a direction stays where it is).
    /// This does not move or grow hazards and does not spawn food.
    pub fn execute_moves(&mut self, you: Direction, others: &Vec<Direction>)
        requires
            moves_computable(old(self)@, you, others@),
        ensures
            final(self)@ == spec_execute_moves(old(self)@, you, others@),
            final(self).timeout == old(self).timeout,
    {
        let ghost g0 = self@;
        let ghost t0 = self.timeout;
        let mut new_board = self.board.clone();
        self.you.apply_move(you, &mut new_board, &self.rules);
        let ghost m1 = new_board@;
        proof {
            lemma_move_others_shape(g0.others, others@, m1, g0.rules, 0);
        }
        let mut i: usize = 0;
        while i < others.len()
            invariant
                i <= others.len(),
                others.len() <= self.others.len(),
                self.others@.len() == g0.others.len(),
                self.rules == g0.rules,
                self.turn == g0.turn,
                self.timeout == t0,
                self.you@ == spec_move_snake(g0.you, you, g0.board, g0.rules),
                others_can_move(g0.others, others@, m1, g0.rules, others.len() as int),
                (models(self.others@), new_board@) == spec_move_others(g0.others, others@, m1, g0.rules, i as int),
            decreases others.len() - i,
        {
            proof {
                lemma_move_others_shape(g0.others, others@, m1, g0.rules, i as int);
                lemma_others_can_move_prefix(g0.others, others@, m1, g0.rules, i + 1, others.len() as int);
                assert(models(self.others@)[i as int] == self.others@[i as int]@);
            }
            let ghost before = self.others@;
            self.others[i].apply_move(others[i], &mut new_board, &self.rules);
            proof {
                assert(models(self.others@) =~= models(before).update(
                    i as int,
                    spec_move_snake(g0.others[i as int], others@[i as int], spec_move_others(g0.others, others@, m1, g0.rules, i as int).1, g0.rules),
                ));
            }
            i += 1;
        }
        let ghost you1 = self.you@;
        self.eliminate_dead_snakes(&mut new_board);
        if self.death_by_collission(&self.you, &new_board) {
            self.you.health = 0;
        }
        let ghost others2 = models(self.others@);
        let ghost m3 = new_board@;
        let ghost you2 = self.you@;
        let mut deaths: Vec<bool> = Vec::new();
        let mut j: usize = 0;
        while j < self.others.len()
            invariant
                j <= self.others.len(),
                deaths@.len() == j,
                models(self.others@) == others2,
                new_board@ == m3,
                self.you@ == you2,
                self.turn == g0.turn,
                self.timeout == t0,
                self.rules == g0.rules,
                forall|k: int| 0 <= k < j ==> deaths@[k] == spec_collides(others2[k], you2, others2, m3),
            decreases self.others.len() - j,
        {
            let d = self.death_by_collission(&self.others[j], &new_board);
            deaths.push(d);
            j += 1;
        }
        let mut k: usize = 0;
        while k < deaths.len()
            invariant
                k <= deaths.len(),
                deaths@.len() == others2.len(),
                self.others@.len() == others2.len(),
                self.you@ == you2,
                self.turn == g0.turn,
                self.timeout == t0,
                self.rules == g0.rules,
                forall|q: int| 0 <= q < j ==> deaths@[q] == spec_collides(others2[q], you2, others2, m3),
                j == others2.len(),
                forall|q: int|
                    0 <= q < others2.len() ==> #[trigger] self.others@[q]@ == if q < k && deaths@[q] {
                        with_health_zero(others2[q])
                    } else {
                        others2[q]
                    },
            decreases deaths.len() - k,
        {
            let ghost before = self.others@;
            if deaths[k] {
                self.others[k].health = 0;
                proof {
                    assert(self.others@[k as int]@ == with_health_zero(before[k as int]@));
                    assert(before[k as int]@ == others2[k as int]);
                }
            }
            proof {
                assert forall|q: int| 0 <= q < others2.len() && q != k implies self.others@[q] == before[q] by {}
            }
            k += 1;
        }
        proof {
            let others3 = Seq::new(
                others2.len(),
                |i: int|
                    if spec_collides(others2[i], you2, others2, m3) {
                        with_health_zero(others2[i])
                    } else {
                        others2[i]
                    },
            );
            assert(models(self.others@) =~= others3);
        }
        self.eliminate_dead_snakes(&mut new_board);
        self.draw_heads(&mut new_board);

        self.board = new_board;
        self.turn += 1;
    }

    /// Draws the heads of the live snakes.
    fn draw_heads(&self, board: &mut Board)
        ensures
            final(board)@ == spec_draw_heads(old(board)@, self.you@, models(self.others@)),
    {
        if self.you.health > 0 {
            board.add(&self.you.head, Tile::Head);
        }
        let ghost m1 = board@;
        let mut i: usize = 0;
        while i < self.others.len()
            invariant
                i <= self.others.len(),
                board@ == spec_draw_other_heads(m1, models(self.others@), i as int),
            decreases self.others.len() - i,
        {
            let snake = &self.others[i];
            if snake.health > 0 {
                board.add(&snake.head, Tile::Head);
            }
            i += 1;
        }
    }

    fn death_by_collission(&self, snake: &Snake, board: &Board) -> (res: bool)
        ensures
            res == spec_collides(snake@, self.you@, models(self.others@), board@),
    {
        match board.get(&snake.head) {
            Tile::HazardWithSnake(_) | Tile::Snake => return true,
            _ => {},
        }
        let mut i: usize = 0;
        while i < self.others.len()
            invariant
                i <= self.others.len(),
                forall|q: int|
                    0 <= q < i ==> !(#[trigger] models(self.others@)[q].id != snake.id && models(self.others@)[q].head
                        == snake.head && snake.length <= models(self.others@)[q].length),
            decreases self.others.len() - i,
        {
            let other = &self.others[i];
            proof {
                assert(models(self.others@)[i as int] == other@);
            }
            if other == snake {
                i += 1;
                continue;
            }
            if other.head == snake.head {
                if snake.length <= other.length {
                    proof {
                        let q = i as int;
                        assert(models(self.others@)[q].id != snake.id && models(self.others@)[q].head == snake.head
                            && snake.length <= models(self.others@)[q].length);
                    }
                    return true;
                }
            }
            i += 1;
        }
        if snake != &self.you && snake.head == self.you.head {
            if snake.length <= self.you.length {
                return true;
            }
        }
        false
    }

    /// Redraws the live snakes at the given crash sites, where clearing a dead snake
    /// may have erased them.
    fn repair_crash_sites(&self, points: &Vec<Point>, new_board: &mut Board)
        ensures
            final(new_board)@ == spec_repair(old(new_board)@, points@, self.you@, models(self.others@), points@.len() as int),
    {
        let mut i: usize = 0;
        while i < points.len()
            invariant
                i <= points.len(),
                new_board@ == spec_repair(old(new_board)@, points@, self.you@, models(self.others@), i as int),
            decreases points.len() - i,
        {
            let p = &points[i];
            if self.you.health > 0 {
                Self::repair_snake_at(&self.you, p, new_board);
            }
            let ghost m1 = new_board@;
            let mut j: usize = 0;
            while j < self.others.len()
                invariant
                    j <= self.others.len(),
                    new_board@ == spec_repair_others(m1, *p, models(self.others@), j as int),
                decreases self.others.len() - j,
            {
                proof {
                    assert(models(self.others@)[j as int] == self.others@[j as int]@);
                }
                Self::repair_snake_at(&self.others[j], p, new_board);
                j += 1;
            }
            i += 1;
        }
    }

    fn repair_snake_at(snake: &Snake, p: &Point, new_board: &mut Board)
        ensures
            final(new_board)@ == spec_repair_snake(old(new_board)@, *p, snake@),
    {
        let mut k: usize = 0;
        while k < snake.body.len()
            invariant
                k <= snake.body@.len(),
                new_board@ == spec_mark_body(old(new_board)@, *p, snake.body@, k as int),
            decreases snake.body@.len() - k,
        {
            if snake.body[k] == *p {
                new_board.add(p, Tile::Snake);
            }
            k += 1;
        }
        if snake.head == *p {
            new_board.add(p, Tile::Head);
        }
    }

    fn eliminate_dead_snakes(&mut self, new_board: &mut Board)
        requires
            old(self).others@.len() + 1 <= usize::MAX,
        ensures
            (models(final(self).others@), final(new_board)@, final(self).dead_snakes as int) == spec_eliminate(
                old(self).you@,
                models(old(self).others@),
                old(new_board)@,
            ),
            final(self).others@.len() <= old(self).others@.len(),
            final(self).you == old(self).you,
            final(self).board == old(self).board,
            final(self).rules == old(self).rules,
            final(self).turn == old(self).turn,
            final(self).timeout == old(self).timeout,
    {
        let ghost others0 = models(self.others@);
        let mut dead_snakes: usize = 0;
        let mut crash_sites: Vec<Point> = Vec::new();
        if self.you.dead() {
            self.you.remove_from_board(new_board);
            crash_sites.push(self.you.head);
            dead_snakes += 1;
        }
        let ghost m1 = new_board@;
        let ghost sites1 = crash_sites@;
        let mut old_others: Vec<Snake> = Vec::new();
        std::mem::swap(&mut old_others, &mut self.others);
        let mut kept: Vec<Snake> = Vec::new();
        let mut i: usize = 0;
        while i < old_others.len()
            invariant
                i <= old_others.len(),
                models(old_others@) == others0,
                dead_snakes as int == (if self.you.health <= 0 { 1int } else { 0int }) + (i - kept@.len()),
                kept@.len() <= i,
                (models(kept@), new_board@, crash_sites@.subrange(sites1.len() as int, crash_sites@.len() as int))
                    == spec_eliminate_others(others0, m1, i as int),
                crash_sites@.subrange(0, sites1.len() as int) == sites1,
                crash_sites@.len() >= sites1.len(),
                sites1.len() <= 1,
                old_others@.len() + 1 <= usize::MAX,
            decreases old_others.len() - i,
        {
            let snake = &old_others[i];
            proof {
                assert(others0[i as int] == snake@);
            }
            let ghost cs = crash_sites@;
            let ghost kp = kept@;
            if snake.dead() {
                snake.remove_from_board(new_board);
                crash_sites.push(snake.head);
                dead_snakes += 1;
                proof {
                    assert(crash_sites@.subrange(sites1.len() as int, crash_sites@.len() as int) =~= cs.subrange(
                        sites1.len() as int,
                        cs.len() as int,
                    ).push(snake.head));
                    assert(crash_sites@.subrange(0, sites1.len() as int) =~= cs.subrange(0, sites1.len() as int));
                }
            } else {
                kept.push(snake.clone());
                proof {
                    assert(models(kept@) =~= models(kp).push(snake@));
                }
            }
            i += 1;
        }
        self.others = kept;
        self.dead_snakes = dead_snakes;
        proof {
            assert(crash_sites@ =~= sites1 + crash_sites@.subrange(sites1.len() as int, crash_sites@.len() as int));
        }
        self.repair_crash_sites(&crash_sites, new_board);
    }

    /// The number of the snake at `p`: 0 for our snake while it lives, `i + 1` for the
    /// opponent at index `i`, -1 when no snake is there.
    pub fn snake_number(&self, p: &Point) -> (res: isize)
        requires
            self.others@.len() < isize::MAX,
        ensures
            res == spec_snake_number(self@, *p),
    {
        if self.you.health > 0 {
            if self.you.head == *p {
                return 0;
            }
            let mut k: usize = 0;
            while k < self.you.body.len()
                invariant
                    k <= self.you.body@.len(),
                    self.you.health > 0,
                    forall|q: int| 0 <= q < k ==> self.you.body@[q] != *p,
                decreases self.you.body@.len() - k,
            {
                if self.you.body[k] == *p {
                    proof {
                        assert(self.you.body@[k as int] == *p);
                        assert(self.you.body@.contains(*p));
                    }
                    return 0;
                }
                k += 1;
            }
        }
        let ghost others = models(self.others@);
        let mut snake_idx: usize = 0;
        while snake_idx < self.others.len()
            invariant
                snake_idx <= self.others.len(),
                others == models(self.others@),
                self.others@.len() < isize::MAX,
                spec_owner_among(others, *p, snake_idx as int) == -1,
                !(self.you.health > 0 && (self.you.head == *p || self.you.body@.contains(*p))),
            decreases self.others.len() - snake_idx,
        {
            let snake = &self.others[snake_idx];
            proof {
                assert(others[snake_idx as int] == snake@);
            }
            if snake.head == *p {
                proof {
                    lemma_owner_stable(others, *p, snake_idx + 1, others.len() as int);
                }
                return snake_idx as isize + 1;
            }
            let mut k: usize = 0;
            while k < snake.body.len()
                invariant
                    k <= snake.body@.len(),
                    snake_idx < self.others.len(),
                    self.others@.len() < isize::MAX,
                    others == models(self.others@),
                    *snake == self.others@[snake_idx as int],
                    spec_owner_among(others, *p, snake_idx as int) == -1,
                    snake.head != *p,
                    !(self.you.health > 0 && (self.you.head == *p || self.you.body@.contains(*p))),
                    forall|q: int| 0 <= q < k ==> snake.body@[q] != *p,
                decreases snake.body@.len() - k,
            {
                if snake.body[k] == *p {
                    proof {
                        assert(snake.body@[k as int] == *p);
                        assert(others[snake_idx as int].body.contains(*p));
                        lemma_owner_stable(others, *p, snake_idx + 1, others.len() as int);
                    }
                    return snake_idx as isize + 1;
                }
                k += 1;
            }
            proof {
                assert(!snake.body@.contains(*p));
            }
            snake_idx += 1;
        }
        return -1;
    }
}

} // verus!
