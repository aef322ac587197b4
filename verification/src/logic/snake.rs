//! A snake and how it moves.
use vstd::prelude::*;

use std::collections::VecDeque;

use super::board::BoardModel;
use super::game::{GameMode, Rules};
use super::point::{fits_step, has_neighbours, spec_neighbour, spec_out_of_bounds, spec_warp, warp_size_ok};
use super::{spec_has_food, spec_is_hazard, Board, Direction, Point, Tile};
use crate::protocol;

verus! {

/// A snake in play. Two snakes are the same snake when their ids are equal.
#[derive(Hash, Eq, Debug)]
pub struct Snake {
    pub id: u8,
    pub health: i8,
    /// The tiles the snake covers, head first.
    pub body: VecDeque<Point>,
    pub head: Point,
    pub length: usize,
    pub squad: u8,
}

impl PartialEq for Snake {
    fn eq(&self, other: &Self) -> (res: bool) {
        self.id == other.id
    }
}

impl vstd::std_specs::cmp::PartialEqSpecImpl for Snake {
    open spec fn obeys_eq_spec() -> bool {
        true
    }

    open spec fn eq_spec(&self, other: &Self) -> bool {
        self.id == other.id
    }
}

impl Clone for Snake {
    fn clone(&self) -> (res: Self)
        ensures
            res@ == self@,
    {
        let body = self.body.clone();
        proof {
            assert(body@ =~= self.body@);
        }
        Snake {
            id: self.id,
            health: self.health,
            body,
            head: self.head,
            length: self.length,
            squad: self.squad,
        }
    }
}

/// What a snake is, with its body as a sequence.
pub struct SnakeModel {
    pub id: u8,
    pub health: int,
    pub body: Seq<Point>,
    pub head: Point,
    pub length: int,
    pub squad: u8,
}

impl View for Snake {
    type V = SnakeModel;

    open spec fn view(&self) -> SnakeModel {
        SnakeModel {
            id: self.id,
            health: self.health as int,
            body: self.body@,
            head: self.head,
            length: self.length as int,
            squad: self.squad,
        }
    }
}

/// Where the head of the snake goes when it moves in direction `dir`.
pub open spec fn spec_next_head(s: SnakeModel, dir: Direction, m: BoardModel, rules: Rules) -> Point {
    let p = spec_neighbour(s.head, dir);
    if rules.game_mode == GameMode::Wrapped {
        spec_warp(p, m.width as isize, m.height as isize)
    } else {
        p
    }
}

/// Whether the move makes the snake eat: there is food where it goes, or the game is a
/// constrictor game, in which snakes grow every turn.
pub open spec fn spec_eats(s: SnakeModel, dir: Direction, m: BoardModel, rules: Rules) -> bool {
    spec_has_food(m.tile(spec_next_head(s, dir, m, rules))) || rules.game_mode == GameMode::Constrictor
}

/// The health after a move: hazard damage and one point of starvation, back to 100 after
/// eating, and 0 when the snake leaves the board.
pub open spec fn spec_next_health(s: SnakeModel, dir: Direction, m: BoardModel, rules: Rules) -> int {
    let nh = spec_next_head(s, dir, m, rules);
    let h1 = if spec_is_hazard(m.tile(nh)) {
        s.health - rules.hazard_damage_per_turn
    } else {
        s.health as int
    };
    let h2 = if spec_eats(s, dir, m, rules) {
        100
    } else {
        h1 - 1
    };
    if spec_out_of_bounds(nh, m.width as isize, m.height as isize) {
        0
    } else {
        h2
    }
}

pub open spec fn spec_next_length(s: SnakeModel, dir: Direction, m: BoardModel, rules: Rules) -> int {
    if spec_eats(s, dir, m, rules) {
        s.length + 1
    } else {
        s.length as int
    }
}

/// The snake after a move.
pub open spec fn spec_move_snake(s: SnakeModel, dir: Direction, m: BoardModel, rules: Rules) -> SnakeModel {
    SnakeModel {
        health: spec_next_health(s, dir, m, rules),
        body: spec_next_body(s, dir, m, rules),
        head: spec_next_head(s, dir, m, rules),
        length: spec_next_length(s, dir, m, rules),
        ..s
    }
}

/// The body after a move: the new head in front, and the last tile dropped when the body
/// would otherwise be longer than the snake.
pub open spec fn spec_next_body(s: SnakeModel, dir: Direction, m: BoardModel, rules: Rules) -> Seq<Point> {
    let b = seq![spec_next_head(s, dir, m, rules)] + s.body;
    if b.len() > spec_next_length(s, dir, m, rules) {
        b.drop_last()
    } else {
        b
    }
}

/// The board after a move: the old head becomes body (or is cleared for a snake of length
/// one) and the dropped tail tile is cleared unless the body still covers it. The new head
/// is not drawn yet.
pub open spec fn spec_next_board(s: SnakeModel, dir: Direction, m: BoardModel, rules: Rules) -> BoardModel {
    let m1 = if spec_next_length(s, dir, m, rules) > 1 {
        m.add(s.head, Tile::Snake)
    } else {
        m.clear_snake(s.head)
    };
    let b = seq![spec_next_head(s, dir, m, rules)] + s.body;
    if b.len() > spec_next_length(s, dir, m, rules) {
        let tail = b.last();
        let rest = b.drop_last();
        if rest.len() > 0 && rest.last() == tail {
            m1
        } else {
            m1.clear_snake(tail)
        }
    } else {
        m1
    }
}

/// The moves the engine can compute without overflow: the head's neighbour in the move's
/// direction exists, the
/// board can be wrapped in a wrapped game, health stays an `i8` and length a `usize`.
pub open spec fn can_move(s: SnakeModel, dir: Direction, m: BoardModel, rules: Rules) -> bool {
    let nh = spec_next_head(s, dir, m, rules);
    &&& fits_step(s.head, dir)
    &&& rules.game_mode == GameMode::Wrapped ==> warp_size_ok(m.width as isize, m.height as isize)
    &&& spec_is_hazard(m.tile(nh)) ==> i8::MIN + 1 <= s.health - rules.hazard_damage_per_turn <= i8::MAX
    &&& s.health > i8::MIN
    &&& spec_eats(s, dir, m, rules) ==> s.length < usize::MAX
}

/// The board after clearing the snake from each of the points, first to last.
pub open spec fn spec_clear_all(m: BoardModel, points: Seq<Point>) -> BoardModel
    decreases points.len(),
{
    if points.len() == 0 {
        m
    } else {
        spec_clear_all(m, points.drop_last()).clear_snake(points.last())
    }
}

/// Whether every character is a decimal digit.
pub open spec fn all_digits(d: Seq<char>) -> bool {
    forall|i: int| 0 <= i < d.len() ==> 48 <= (#[trigger] d[i]) as u32 <= 57
}

/// The number that decimal digits write.
pub open spec fn digits_value(d: Seq<char>) -> int
    decreases d.len(),
{
    if d.len() == 0 {
        0
    } else {
        digits_value(d.drop_last()) * 10 + (d.last() as u32 - 48)
    }
}

/// The number that `str::parse::<u8>` reads from a text, if it reads one: an optional `+`
/// then at least one decimal digit, with a value of at most 255.
pub open spec fn spec_parse_u8(s: Seq<char>) -> Option<u8> {
    let d = if s.len() > 0 && s[0] == '+' { s.subrange(1, s.len() as int) } else { s };
    if d.len() > 0 && all_digits(d) && digits_value(d) <= 255 {
        Some(digits_value(d) as u8)
    } else {
        None
    }
}

proof fn lemma_digits_nonneg(d: Seq<char>)
    requires
        all_digits(d),
    ensures
        digits_value(d) >= 0,
    decreases d.len(),
{
    if d.len() > 0 {
        lemma_digits_nonneg(d.drop_last());
        assert(48 <= d[d.len() - 1] as u32 <= 57);
    }
}

proof fn lemma_digits_prefix(d: Seq<char>, k: int)
    requires
        all_digits(d),
        0 <= k <= d.len(),
    ensures
        digits_value(d.take(k)) <= digits_value(d),
    decreases d.len(),
{
    if k < d.len() {
        let e = d.drop_last();
        assert(all_digits(e)) by {
            assert forall|i: int| 0 <= i < e.len() implies 48 <= (#[trigger] e[i]) as u32 <= 57 by {
                assert(e[i] == d[i]);
            }
        }
        lemma_digits_prefix(e, k);
        lemma_digits_nonneg(e);
        assert(e.take(k) =~= d.take(k));
        assert(48 <= d[d.len() - 1] as u32 <= 57);
    } else {
        assert(d.take(k) =~= d);
    }
}

/// Reads a `u8` as `str::parse` does: an optional `+` then decimal digits, at most 255.
fn parse_u8(s: &String) -> (res: Option<u8>)
    ensures
        res == spec_parse_u8(s@),
{
    let t = s.as_str();
    let n = t.unicode_len();
    let start: usize = if n > 0 && t.get_char(0) == '+' {
        1
    } else {
        0
    };
    let ghost d = if s@.len() > 0 && s@[0] == '+' { s@.subrange(1, s@.len() as int) } else { s@ };
    proof {
        assert(d =~= s@.subrange(start as int, n as int));
    }
    if start == n {
        return None;
    }
    let mut v: u64 = 0;
    let mut i: usize = start;
    while i < n
        invariant
            start <= i <= n,
            n == s@.len(),
            t@ == s@,
            d == s@.subrange(start as int, n as int),
            d == (if s@.len() > 0 && s@[0] == '+' { s@.subrange(1, s@.len() as int) } else { s@ }),
            all_digits(d.take(i - start)),
            v == digits_value(d.take(i - start)),
            v <= 255,
        decreases n - i,
    {
        let c = t.get_char(i);
        let cu = c as u32;
        proof {
            assert(d[i - start] == c);
        }
        if cu < 48 || cu > 57 {
            proof {
                assert(!(48 <= d[i - start] as u32 <= 57));
                assert(!all_digits(d));
            }
            return None;
        }
        let ghost next = d.take(i + 1 - start);
        proof {
            assert(next.drop_last() =~= d.take(i - start));
            assert(next.last() == c);
            assert(all_digits(next)) by {
                assert forall|j: int| 0 <= j < next.len() implies 48 <= (#[trigger] next[j]) as u32 <= 57 by {
                    if j < next.len() - 1 {
                        assert(next[j] == d.take(i - start)[j]);
                    }
                }
            }
        }
        v = v * 10 + (cu - 48) as u64;
        proof {
            assert(v == digits_value(next));
        }
        if v > 255 {
            proof {
                if all_digits(d) {
                    lemma_digits_prefix(d, i + 1 - start);
                }
            }
            return None;
        }
        i += 1;
    }
    proof {
        assert(d.take(n - start) =~= d);
    }
    Some(v as u8)
}

/// The snake described by a request, numbered 0; its squad is the squad number, or 0
/// when the squad is not a number. Health is narrowed to `i8`.
pub open spec fn spec_snake_from(s: protocol::Snake) -> SnakeModel {
    SnakeModel {
        id: 0,
        health: s.health as i8 as int,
        body: s.body@,
        head: s.head,
        length: s.length as int,
        squad: match spec_parse_u8(s.squad@) {
            Some(v) => v,
            None => 0,
        },
    }
}

impl Snake {
    pub fn from(s: &protocol::Snake) -> (res: Snake)
        ensures
            res@ == spec_snake_from(*s),
    {
        let body = s.body.clone();
        proof {
            assert(body@ =~= s.body@);
        }
        let squad = match parse_u8(&s.squad) {
            Some(v) => v,
            None => 0,
        };
        Snake { id: 0, health: s.health as i8, body, head: s.head, length: s.length, squad }
    }

    pub fn apply_move(&mut self, dir: Direction, board: &mut Board, rules: &Rules)
        requires
            can_move(old(self)@, dir, old(board)@, *rules),
        ensures
            final(self)@ == spec_move_snake(old(self)@, dir, old(board)@, *rules),
            final(board)@ == spec_next_board(old(self)@, dir, old(board)@, *rules),
    {
        let ghost m = board@;
        let ghost s0 = self@;
        let mut new_head = self.head.neighbour(dir);
        if rules.game_mode == GameMode::Wrapped {
            new_head.warp(board.width(), board.height())
        }
        // Apply hazard damage

        if board.get(&new_head).is_hazard() {
            self.health -= rules.hazard_damage_per_turn;
        }
        // Starve snake

        self.health -= 1;

        // Consume food
        if board.get(&new_head).has_food() || rules.game_mode == GameMode::Constrictor {
            self.health = 100;
            self.length += 1;
        }
        // Apply out of bounds damage

        if new_head.out_of_bounds(board.width(), board.height()) {
            self.health = 0;
        }
        // Update snake position and board; new heads are drawn later, so that they do not
        // break the collision detection of the game.

        if self.length > 1 {
            board.add(&self.head, Tile::Snake);
        } else {
            board.clear_snake(&self.head);
        }

        self.head = new_head;
        self.body.push_front(new_head);
        if self.body.len() > self.length {
            if let Some(p) = self.body.pop_back() {
                let n = self.body.len();
                if n > 0 {
                    let p2 = self.body[n - 1];
                    if p != p2 {
                        board.clear_snake(&p);
                    }
                } else {
                    board.clear_snake(&p);
                }
            }
        }
        proof {
            let b = seq![new_head] + s0.body;
            if b.len() > self.length {
                assert(b.drop_last() =~= b.subrange(0, b.len() - 1));
            }
        }
    }

    pub fn dead(&self) -> (res: bool)
        ensures
            res == (self.health <= 0),
    {
        self.health <= 0
    }

    /// Clears every tile of the snake's body from the board.
    pub fn remove_from_board(&self, board: &mut Board)
        ensures
            final(board)@ == spec_clear_all(old(board)@, self.body@),
    {
        let n = self.body.len();
        let mut i: usize = 0;
        while i < n
            invariant
                n == self.body@.len(),
                i <= n,
                board@ == spec_clear_all(old(board)@, self.body@.take(i as int)),
            decreases n - i,
        {
            let p = self.body[i];
            board.clear_snake(&p);
            proof {
                assert(self.body@.take(i + 1).drop_last() =~= self.body@.take(i as int));
            }
            i += 1;
        }
        proof {
            assert(self.body@.take(n as int) =~= self.body@);
        }
    }
}

} // verus!
