//! The record of the games being played: for each game, its requests and our answers, to
//! be written out as a replay when the game ends.
use vstd::prelude::*;

use vstd::string::*;

use crate::protocol::{MoveResponse, Request};

verus! {

/// The record of one game: the start request, the end request once the game is over, and
/// every move request with the answer we gave.
pub struct Game {
    pub start_request: Request,
    pub end_request: Option<Request>,
    pub moves: Vec<(Request, Option<MoveResponse>)>,
}

/// A game is known by the name of our snake and the id of the game.
pub open spec fn game_key(req: Request) -> (Seq<char>, Seq<char>) {
    (req.you.name@, req.game.id@)
}

/// The name of our snake and the id of the game.
pub fn game_id(req: &Request) -> (res: (String, String))
    ensures
        res.0@ == req.you.name@,
        res.1@ == req.game.id@,
{
    (req.you.name.clone(), req.game.id.clone())
}

/// One open game: its key and its record.
pub struct OpenGame {
    pub player: String,
    pub game_id: String,
    pub game: Game,
}

/// The games that started and did not end yet.
pub struct GameLogger {
    open_games: Vec<OpenGame>,
}

/// What is recorded of one open game: its start request, and each move request with the
/// answer we gave, in the order they came.
pub open spec fn record_of(g: OpenGame) -> (Request, Seq<(Request, Option<MoveResponse>)>) {
    (g.game.start_request, g.game.moves@)
}

/// What a logger holds: the record of each open game, under its key.
pub open spec fn open_map(e: Seq<OpenGame>) -> Map<(Seq<char>, Seq<char>), (Request, Seq<(Request, Option<MoveResponse>)>)>
    decreases e.len(),
{
    if e.len() == 0 {
        Map::empty()
    } else {
        open_map(e.drop_last()).insert((e.last().player@, e.last().game_id@), record_of(e.last()))
    }
}

/// The answer as it is kept: a copy of the one given.
pub open spec fn kept_answer(response: Option<&MoveResponse>) -> Option<MoveResponse> {
    match response {
        Some(r) => Some(*r),
        None => None,
    }
}

spec fn key_of(g: OpenGame) -> (Seq<char>, Seq<char>) {
    (g.player@, g.game_id@)
}

spec fn unique_games(e: Seq<OpenGame>) -> bool {
    forall|i: int, j: int| 0 <= i < e.len() && 0 <= j < e.len() && i != j ==> key_of(#[trigger] e[i]) != key_of(#[trigger] e[j])
}

impl View for GameLogger {
    type V = Map<(Seq<char>, Seq<char>), (Request, Seq<(Request, Option<MoveResponse>)>)>;

    closed spec fn view(&self) -> Map<(Seq<char>, Seq<char>), (Request, Seq<(Request, Option<MoveResponse>)>)> {
        open_map(self.open_games@)
    }
}

proof fn lemma_open_map(e: Seq<OpenGame>)
    requires
        unique_games(e),
    ensures
        forall|k: (Seq<char>, Seq<char>)| #[trigger] open_map(e).contains_key(k) <==> exists|i: int| 0 <= i < e.len() && key_of(#[trigger] e[i]) == k,
        forall|i: int| 0 <= i < e.len() ==> open_map(e)[key_of(#[trigger] e[i])] == record_of(e[i]),
    decreases e.len(),
{
    if e.len() > 0 {
        let d = e.drop_last();
        assert forall|i: int, j: int| 0 <= i < d.len() && 0 <= j < d.len() && i != j implies key_of(#[trigger] d[i]) != key_of(#[trigger] d[j]) by {
            assert(d[i] == e[i] && d[j] == e[j]);
        }
        lemma_open_map(d);
        assert forall|k: (Seq<char>, Seq<char>)| #[trigger] open_map(e).contains_key(k) <==> exists|i: int| 0 <= i < e.len() && key_of(#[trigger] e[i]) == k by {
            if open_map(e).contains_key(k) {
                if k == key_of(e.last()) {
                    assert(key_of(e[e.len() - 1]) == k);
                } else {
                    assert(open_map(d).contains_key(k));
                    let i = choose|i: int| 0 <= i < d.len() && key_of(#[trigger] d[i]) == k;
                    assert(e[i] == d[i]);
                }
            }
            if exists|i: int| 0 <= i < e.len() && key_of(#[trigger] e[i]) == k {
                let i = choose|i: int| 0 <= i < e.len() && key_of(#[trigger] e[i]) == k;
                if i < e.len() - 1 {
                    assert(d[i] == e[i]);
                    assert(open_map(d).contains_key(k));
                }
            }
        }
        assert forall|i: int| 0 <= i < e.len() implies open_map(e)[key_of(#[trigger] e[i])] == record_of(e[i]) by {
            if i < e.len() - 1 {
                assert(d[i] == e[i]);
                assert(key_of(e[i]) != key_of(e.last()));
            }
        }
    }
}

/// Replacing the open game at `i` by one under the same key changes only that key's record.
proof fn lemma_replace(e0: Seq<OpenGame>, i: int, g: OpenGame)
    requires
        unique_games(e0),
        0 <= i < e0.len(),
        key_of(g) == key_of(e0[i]),
    ensures
        unique_games(e0.update(i, g)),
        open_map(e0.update(i, g)) =~= open_map(e0).insert(key_of(g), record_of(g)),
{
    let e1 = e0.update(i, g);
    assert forall|a: int, b: int| 0 <= a < e1.len() && 0 <= b < e1.len() && a != b implies key_of(#[trigger] e1[a]) != key_of(
        #[trigger] e1[b],
    ) by {
        assert(key_of(e0[a]) != key_of(e0[b]));
    }
    lemma_open_map(e0);
    lemma_open_map(e1);
    assert forall|k: (Seq<char>, Seq<char>)| open_map(e1).contains_key(k) == open_map(e0).insert(key_of(g), record_of(g)).contains_key(k) by {
        if exists|j: int| 0 <= j < e0.len() && key_of(#[trigger] e0[j]) == k {
            let j = choose|j: int| 0 <= j < e0.len() && key_of(#[trigger] e0[j]) == k;
            assert(key_of(e1[j]) == k);
        }
        if exists|j: int| 0 <= j < e1.len() && key_of(#[trigger] e1[j]) == k {
            let j = choose|j: int| 0 <= j < e1.len() && key_of(#[trigger] e1[j]) == k;
            assert(key_of(e0[j]) == k);
        }
    }
    assert forall|k: (Seq<char>, Seq<char>)| #[trigger] open_map(e1).contains_key(k) implies open_map(e1)[k] == open_map(e0).insert(
        key_of(g),
        record_of(g),
    )[k] by {
        let j = choose|j: int| 0 <= j < e1.len() && key_of(#[trigger] e1[j]) == k;
        if j != i {
            assert(e1[j] == e0[j]);
        }
    }
}

/// Where the game of the request is among the open games, if it is open.
fn find_game(e: &Vec<OpenGame>, req: &Request) -> (res: Option<usize>)
    requires
        unique_games(e@),
    ensures
        match res {
            Some(i) => i < e@.len() && key_of(e@[i as int]) == game_key(*req),
            None => !open_map(e@).contains_key(game_key(*req)),
        },
{
    let mut i: usize = 0;
    while i < e.len()
        invariant
            i <= e@.len(),
            forall|j: int| 0 <= j < i ==> key_of(#[trigger] e@[j]) != game_key(*req),
        decreases e@.len() - i,
    {
        if e[i].player == req.you.name && e[i].game_id == req.game.id {
            return Some(i);
        }
        i += 1;
    }
    proof {
        lemma_open_map(e@);
    }
    None
}

impl GameLogger {
    /// The games of the logger are each open once.
    pub closed spec fn wf(&self) -> bool {
        unique_games(self.open_games@)
    }

    /// A logger with no open games.
    pub fn new() -> (res: GameLogger)
        ensures
            res.wf(),
            res@ == Map::<(Seq<char>, Seq<char>), (Request, Seq<(Request, Option<MoveResponse>)>)>::empty(),
    {
        let res = GameLogger { open_games: Vec::new() };
        proof {
            assert(open_map(res.open_games@) =~= Map::<(Seq<char>, Seq<char>), (Request, Seq<(Request, Option<MoveResponse>)>)>::empty());
        }
        res
    }

    /// Opens the game of a start request, with no moves recorded; a game already open under
    /// the same key starts over. The request is kept as it was given.
    pub fn new_game(&mut self, start_request: Request)
        requires
            old(self).wf(),
        ensures
            final(self).wf(),
            final(self)@ == old(self)@.insert(game_key(start_request), (start_request, Seq::<(Request, Option<MoveResponse>)>::empty())),
    {
        let (player, game_id) = game_id(&start_request);
        let found = find_game(&self.open_games, &start_request);
        let entry = OpenGame { player, game_id, game: Game { start_request, end_request: None, moves: Vec::new() } };
        let ghost e0 = self.open_games@;
        proof {
            lemma_open_map(e0);
            assert(entry.game.moves@ =~= Seq::<(Request, Option<MoveResponse>)>::empty());
        }
        match found {
            Some(i) => {
                self.open_games.set(i, entry);
                proof {
                    lemma_replace(e0, i as int, entry);
                }
            },
            None => {
                self.open_games.push(entry);
                proof {
                    let e1 = self.open_games@;
                    assert(e1.drop_last() =~= e0);
                    assert forall|j: int| 0 <= j < e0.len() implies key_of(#[trigger] e0[j]) != key_of(entry) by {
                        if key_of(e0[j]) == key_of(entry) {
                            assert(open_map(e0).contains_key(key_of(entry)));
                        }
                    }
                    assert forall|a: int, b: int| 0 <= a < e1.len() && 0 <= b < e1.len() && a != b implies key_of(#[trigger] e1[a])
                        != key_of(#[trigger] e1[b]) by {
                        if a < e0.len() {
                            assert(e1[a] == e0[a]);
                        }
                        if b < e0.len() {
                            assert(e1[b] == e0[b]);
                        }
                    }
                }
            },
        }
    }

    /// Records a move request and our answer at the end of its game's record; false, with
    /// nothing recorded, when the game is not open.
    pub fn record_move(&mut self, request: Request, response: Option<&MoveResponse>) -> (res: bool)
        requires
            old(self).wf(),
        ensures
            final(self).wf(),
            res == old(self)@.contains_key(game_key(request)),
            res ==> final(self)@ == old(self)@.insert(
                game_key(request),
                (old(self)@[game_key(request)].0, old(self)@[game_key(request)].1.push((request, kept_answer(response)))),
            ),
            !res ==> final(self)@ == old(self)@,
    {
        let ghost e0 = self.open_games@;
        proof {
            lemma_open_map(e0);
        }
        match find_game(&self.open_games, &request) {
            Some(i) => {
                let answer = match response {
                    Some(r) => Some(MoveResponse { direction: r.direction, shout: r.shout.clone() }),
                    None => None,
                };
                let ghost key = game_key(request);
                let mut entry = self.open_games.remove(i);
                proof {
                    assert(entry == e0[i as int]);
                }
                entry.game.moves.push((request, answer));
                self.open_games.insert(i, entry);
                proof {
                    assert(self.open_games@ =~= e0.update(i as int, entry));
                    lemma_replace(e0, i as int, entry);
                    assert(answer == kept_answer(response));
                }
                true
            },
            None => false,
        }
    }

    /// Closes the game of an end request: its record comes back, as it was recorded, with
    /// the end request in it, and the game is no longer open; nothing comes back for a game
    /// that is not open.
    pub fn close_game(&mut self, end_request: Request) -> (res: Option<Game>)
        requires
            old(self).wf(),
        ensures
            final(self).wf(),
            res is Some == old(self)@.contains_key(game_key(end_request)),
            final(self)@ == old(self)@.remove(game_key(end_request)),
            res matches Some(g) ==> g.start_request == old(self)@[game_key(end_request)].0 && g.moves@ == old(self)@[game_key(
                end_request,
            )].1 && g.end_request == Some(end_request),
    {
        let ghost e0 = self.open_games@;
        proof {
            lemma_open_map(e0);
        }
        match find_game(&self.open_games, &end_request) {
            Some(i) => {
                let mut entry = self.open_games.remove(i);
                proof {
                    let e1 = self.open_games@;
                    assert(e1 =~= e0.remove(i as int));
                    assert forall|a: int, b: int| 0 <= a < e1.len() && 0 <= b < e1.len() && a != b implies key_of(#[trigger] e1[a])
                        != key_of(#[trigger] e1[b]) by {
                        let a0 = if a < i { a } else { a + 1 };
                        let b0 = if b < i { b } else { b + 1 };
                        assert(e1[a] == e0[a0] && e1[b] == e0[b0]);
                        assert(key_of(e0[a0]) != key_of(e0[b0]));
                    }
                    lemma_open_map(e1);
                    assert(open_map(e1) =~= open_map(e0).remove(game_key(end_request))) by {
                        assert forall|k: (Seq<char>, Seq<char>)| open_map(e1).contains_key(k) == open_map(e0).remove(
                            game_key(end_request),
                        ).contains_key(k) by {
                            if exists|j: int| 0 <= j < e0.len() && key_of(#[trigger] e0[j]) == k {
                                let j = choose|j: int| 0 <= j < e0.len() && key_of(#[trigger] e0[j]) == k;
                                if j < i {
                                    assert(key_of(e1[j]) == k);
                                } else if j > i {
                                    assert(key_of(e1[j - 1]) == k);
                                }
                            }
                            if exists|j: int| 0 <= j < e1.len() && key_of(#[trigger] e1[j]) == k {
                                let j = choose|j: int| 0 <= j < e1.len() && key_of(#[trigger] e1[j]) == k;
                                let j0 = if j < i { j } else { j + 1 };
                                assert(e1[j] == e0[j0]);
                                assert(key_of(e0[j0]) != key_of(e0[i as int]));
                            }
                        }
                        assert forall|k: (Seq<char>, Seq<char>)| #[trigger] open_map(e1).contains_key(k) implies open_map(e1)[k]
                            == open_map(e0).remove(game_key(end_request))[k] by {
                            let j = choose|j: int| 0 <= j < e1.len() && key_of(#[trigger] e1[j]) == k;
                            let j0 = if j < i { j } else { j + 1 };
                            assert(e1[j] == e0[j0]);
                        }
                    }
                    assert(open_map(e0)[key_of(e0[i as int])] == record_of(e0[i as int]));
                }
                entry.game.end_request = Some(end_request);
                Some(entry.game)
            },
            None => {
                proof {
                    assert(open_map(e0).remove(game_key(end_request)) =~= open_map(e0));
                }
                None
            },
        }
    }
}

/// What `sanitize_filename::sanitize` makes of a text to use it as a file name; the
/// result is a function of the text alone.
pub uninterp spec fn spec_sanitize(name: Seq<char>) -> Seq<char>;

/// `sanitize_filename::sanitize`.
#[verifier::external_body]
fn sanitize(name: &String) -> (res: String)
    ensures
        res@ == spec_sanitize(name@),
{
    sanitize_filename::sanitize(name)
}

/// The file a game's replay is saved in: `logs/`, then the name of our snake and the id
/// of the game joined by `_` and made safe for a file name, then `.json`.
pub fn replay_filename(game: &Game) -> (res: String)
    ensures
        res@ == "logs/"@ + spec_sanitize(game.start_request.you.name@ + "_"@ + game.start_request.game.id@)
            + ".json"@,
{
    let (name, id) = game_id(&game.start_request);
    let joined = name.concat("_").concat(id.as_str());
    let safe = sanitize(&joined);
    String::from_str("logs/").concat(safe.as_str()).concat(".json")
}

} // verus!
