//! The scorecard of a search: the score of each path of our moves, the paths at each depth
//! and the paths that are certain death.
use vstd::prelude::*;

use crate::protocol::{all_directions, spec_all_directions, Direction};

verus! {

/// The score of one path of moves, with a note on where it came from.
pub struct ScoreEntry {
    pub path: Vec<Direction>,
    pub score: i64,
    pub label: Option<String>,
}

/// What a scorecard holds: a score and label for each scored path, the scored paths at
/// each depth in the order they were first scored, and the paths that are certain death.
pub struct ScorecardModel {
    pub scores: Map<Seq<Direction>, (i64, Option<Seq<char>>)>,
    pub paths: Seq<Seq<Seq<Direction>>>,
    pub certain_death: Set<Seq<Direction>>,
}

/// The scores of the paths we can take, kept as the worst the opponents can do to us.
pub struct Scorecard {
    scores: Vec<ScoreEntry>,
    paths: Vec<Vec<Vec<Direction>>>,
    certain_death: Vec<Vec<Direction>>,
}

/// The map of scores a list of entries stands for.
pub open spec fn entries_map(e: Seq<ScoreEntry>) -> Map<Seq<Direction>, (i64, Option<Seq<char>>)>
    decreases e.len(),
{
    if e.len() == 0 {
        Map::empty()
    } else {
        entries_map(e.drop_last()).insert(e.last().path@, (e.last().score, label_view(e.last().label)))
    }
}

/// The text of a label, if there is one.
pub open spec fn label_view(l: Option<String>) -> Option<Seq<char>> {
    match l {
        Some(s) => Some(s@),
        None => None,
    }
}

pub open spec fn paths_view(p: Seq<Vec<Vec<Direction>>>) -> Seq<Seq<Seq<Direction>>> {
    p.map_values(|d: Vec<Vec<Direction>>| d@.map_values(|v: Vec<Direction>| v@))
}

pub open spec fn path_set(p: Seq<Vec<Direction>>) -> Set<Seq<Direction>> {
    Set::new(|k: Seq<Direction>| exists|i: int| 0 <= i < p.len() && (#[trigger] p[i])@ == k)
}

spec fn unique_keys(e: Seq<ScoreEntry>) -> bool {
    forall|i: int, j: int| 0 <= i < e.len() && 0 <= j < e.len() && i != j ==> (#[trigger] e[i]).path@ != (#[trigger] e[j]).path@
}

impl View for Scorecard {
    type V = ScorecardModel;

    closed spec fn view(&self) -> ScorecardModel {
        ScorecardModel {
            scores: entries_map(self.scores@),
            paths: paths_view(self.paths@),
            certain_death: path_set(self.certain_death@),
        }
    }
}

/// The paths scored at a depth; none at a depth the scorecard never reached.
pub open spec fn paths_at(m: ScorecardModel, depth: int) -> Seq<Seq<Direction>> {
    if 0 <= depth < m.paths.len() {
        m.paths[depth]
    } else {
        Seq::empty()
    }
}

/// The score of a path, 0 for a path never scored.
pub open spec fn score_of(scores: Map<Seq<Direction>, (i64, Option<Seq<char>>)>, path: Seq<Direction>) -> i64 {
    if scores.contains_key(path) {
        scores[path].0
    } else {
        0
    }
}

proof fn lemma_entries_map(e: Seq<ScoreEntry>)
    requires
        unique_keys(e),
    ensures
        forall|k: Seq<Direction>| #[trigger] entries_map(e).contains_key(k) <==> exists|i: int| 0 <= i < e.len() && (#[trigger] e[i]).path@ == k,
        forall|i: int| 0 <= i < e.len() ==> entries_map(e)[(#[trigger] e[i]).path@] == (e[i].score, label_view(e[i].label)),
    decreases e.len(),
{
    if e.len() > 0 {
        let d = e.drop_last();
        assert forall|i: int, j: int| 0 <= i < d.len() && 0 <= j < d.len() && i != j implies (#[trigger] d[i]).path@ != (#[trigger] d[j]).path@ by {
            assert(d[i] == e[i] && d[j] == e[j]);
        }
        lemma_entries_map(d);
        assert forall|k: Seq<Direction>| #[trigger] entries_map(e).contains_key(k) <==> exists|i: int| 0 <= i < e.len() && (#[trigger] e[i]).path@ == k by {
            if entries_map(e).contains_key(k) {
                if k == e.last().path@ {
                    assert(e[e.len() - 1].path@ == k);
                } else {
                    assert(entries_map(d).contains_key(k));
                    let i = choose|i: int| 0 <= i < d.len() && (#[trigger] d[i]).path@ == k;
                    assert(e[i] == d[i]);
                }
            }
            if exists|i: int| 0 <= i < e.len() && (#[trigger] e[i]).path@ == k {
                let i = choose|i: int| 0 <= i < e.len() && (#[trigger] e[i]).path@ == k;
                if i < e.len() - 1 {
                    assert(d[i] == e[i]);
                    assert(entries_map(d).contains_key(k));
                }
            }
        }
        assert forall|i: int| 0 <= i < e.len() implies entries_map(e)[(#[trigger] e[i]).path@] == (e[i].score, label_view(e[i].label)) by {
            if i < e.len() - 1 {
                assert(d[i] == e[i]);
                assert(e[i].path@ != e.last().path@);
            }
        }
    }
}

proof fn lemma_entries_map_update(e: Seq<ScoreEntry>, i: int, x: ScoreEntry)
    requires
        unique_keys(e),
        0 <= i < e.len(),
        x.path@ == e[i].path@,
    ensures
        entries_map(e.update(i, x)) == entries_map(e).insert(x.path@, (x.score, label_view(x.label))),
        unique_keys(e.update(i, x)),
{
    let f = e.update(i, x);
    assert forall|a: int, b: int| 0 <= a < f.len() && 0 <= b < f.len() && a != b implies (#[trigger] f[a]).path@ != (#[trigger] f[b]).path@ by {
        assert(e[a].path@ != e[b].path@);
    }
    lemma_entries_map(e);
    lemma_entries_map(f);
    assert forall|k: Seq<Direction>| #[trigger] entries_map(f).contains_key(k) == entries_map(e).insert(x.path@, (x.score, label_view(x.label))).contains_key(k) by {
        if exists|j: int| 0 <= j < e.len() && (#[trigger] e[j]).path@ == k {
            let j = choose|j: int| 0 <= j < e.len() && (#[trigger] e[j]).path@ == k;
            assert(f[j].path@ == k);
        }
        if exists|j: int| 0 <= j < f.len() && (#[trigger] f[j]).path@ == k {
            let j = choose|j: int| 0 <= j < f.len() && (#[trigger] f[j]).path@ == k;
            assert(e[j].path@ == k);
        }
    }
    assert forall|k: Seq<Direction>| #[trigger] entries_map(f).contains_key(k) implies entries_map(f)[k] == entries_map(e).insert(x.path@, (x.score, label_view(x.label)))[k] by {
        let j = choose|j: int| 0 <= j < f.len() && (#[trigger] f[j]).path@ == k;
        assert(entries_map(f)[f[j].path@] == (f[j].score, label_view(f[j].label)));
        if j != i {
            assert(f[j] == e[j]);
        }
    }
    assert(entries_map(f) =~= entries_map(e).insert(x.path@, (x.score, label_view(x.label))));
}

/// Whether two paths are the same moves.
pub fn same_path(a: &Vec<Direction>, b: &Vec<Direction>) -> (res: bool)
    ensures
        res == (a@ == b@),
{
    if a.len() != b.len() {
        return false;
    }
    let mut i: usize = 0;
    while i < a.len()
        invariant
            a@.len() == b@.len(),
            i <= a@.len(),
            forall|j: int| 0 <= j < i ==> a@[j] == b@[j],
        decreases a@.len() - i,
    {
        if a[i] != b[i] {
            return false;
        }
        i += 1;
    }
    assert(a@ =~= b@);
    true
}

fn clone_path(p: &Vec<Direction>) -> (res: Vec<Direction>)
    ensures
        res@ == p@,
{
    let mut res: Vec<Direction> = Vec::new();
    let mut i: usize = 0;
    while i < p.len()
        invariant
            i <= p@.len(),
            res@ == p@.take(i as int),
        decreases p@.len() - i,
    {
        res.push(p[i]);
        proof {
            assert(p@.take(i + 1) == p@.take(i as int).push(p@[i as int]));
        }
        i += 1;
    }
    proof {
        assert(p@.take(p@.len() as int) =~= p@);
    }
    res
}

fn clone_label(l: &Option<String>) -> (res: Option<String>)
    ensures
        res == *l,
{
    match l {
        Some(s) => Some(s.clone()),
        None => None,
    }
}

/// Where in the entries the path is scored, if it is.
fn find_entry(e: &Vec<ScoreEntry>, path: &Vec<Direction>) -> (res: Option<usize>)
    requires
        unique_keys(e@),
    ensures
        match res {
            Some(i) => i < e@.len() && e@[i as int].path@ == path@,
            None => !entries_map(e@).contains_key(path@),
        },
{
    let mut i: usize = 0;
    while i < e.len()
        invariant
            i <= e@.len(),
            forall|j: int| 0 <= j < i ==> (#[trigger] e@[j]).path@ != path@,
        decreases e@.len() - i,
    {
        if same_path(&e[i].path, path) {
            return Some(i);
        }
        i += 1;
    }
    proof {
        lemma_entries_map(e@);
    }
    None
}

impl Scorecard {
    /// Each path is scored at most once.
    pub closed spec fn wf(&self) -> bool {
        unique_keys(self.scores@)
    }

    /// An empty scorecard.
    pub fn new() -> (res: Scorecard)
        ensures
            res.wf(),
            res@.scores == Map::<Seq<Direction>, (i64, Option<Seq<char>>)>::empty(),
            res@.paths == Seq::<Seq<Seq<Direction>>>::empty(),
            res@.certain_death == Set::<Seq<Direction>>::empty(),
    {
        let res = Scorecard { scores: Vec::new(), paths: Vec::new(), certain_death: Vec::new() };
        proof {
            assert(paths_view(res.paths@) =~= Seq::<Seq<Seq<Direction>>>::empty());
            assert(path_set(res.certain_death@) =~= Set::<Seq<Direction>>::empty());
        }
        res
    }

    /// The score of a path, 0 for a path never scored.
    pub fn get(&self, path: &Vec<Direction>) -> (res: i64)
        requires
            self.wf(),
        ensures
            res == score_of(self@.scores, path@),
    {
        proof {
            lemma_entries_map(self.scores@);
        }
        match find_entry(&self.scores, path) {
            Some(i) => self.scores[i].score,
            None => 0,
        }
    }

    /// The scorecard as text: depth by depth, and at each depth in the order they were
    /// first scored, a line for each path with the path, its score and its label.
    pub fn to_text(&self) -> (res: String)
        requires
            self.wf(),
        ensures
            res@ == card_text(self@, self@.paths.len() as int),
    {
        proof {
            lemma_entries_map(self.scores@);
        }
        let mut text = String::new();
        let mut d: usize = 0;
        while d < self.paths.len()
            invariant
                self.wf(),
                d <= self.paths@.len(),
                text@ == card_text(self@, d as int),
                forall|k: Seq<Direction>| #[trigger] entries_map(self.scores@).contains_key(k) <==> exists|i: int|
                    0 <= i < self.scores@.len() && (#[trigger] self.scores@[i]).path@ == k,
                forall|i: int| 0 <= i < self.scores@.len() ==> entries_map(self.scores@)[(#[trigger] self.scores@[i]).path@] == (
                self.scores@[i].score, label_view(self.scores@[i].label)),
            decreases self.paths@.len() - d,
        {
            let ps = &self.paths[d];
            let ghost mps = self@.paths[d as int];
            proof {
                assert(mps == ps@.map_values(|v: Vec<Direction>| v@));
            }
            let mut k: usize = 0;
            while k < ps.len()
                invariant
                    self.wf(),
                    d < self.paths@.len(),
                    *ps == self.paths@[d as int],
                    mps == self@.paths[d as int],
                    mps == ps@.map_values(|v: Vec<Direction>| v@),
                    k <= ps@.len(),
                    text@ == card_text(self@, d as int) + lines_of(self@, mps, k as int),
                    forall|p: Seq<Direction>| #[trigger] entries_map(self.scores@).contains_key(p) <==> exists|i: int|
                        0 <= i < self.scores@.len() && (#[trigger] self.scores@[i]).path@ == p,
                    forall|i: int| 0 <= i < self.scores@.len() ==> entries_map(self.scores@)[(#[trigger] self.scores@[i]).path@]
                        == (self.scores@[i].score, label_view(self.scores@[i].label)),
                decreases ps@.len() - k,
            {
                let path = &ps[k];
                let (score, label) = match find_entry(&self.scores, path) {
                    Some(i) => (self.scores[i].score, label_text_of(&self.scores[i].label)),
                    None => (0i64, String::new()),
                };
                proof {
                    assert(mps[k as int] == path@);
                }
                let line = String::from_str("[").concat(dirs_string(path).as_str()).concat("]: score ").concat(
                    int_string(score).as_str(),
                ).concat(" - ").concat(label.as_str()).concat("\n");
                proof {
                    reveal_strlit("\n");
                    if self@.scores.contains_key(path@) {
                        assert(line@ =~= score_line(path@, self@.scores[path@].0, self@.scores[path@].1));
                    } else {
                        assert(label@ =~= label_text(None));
                        assert(line@ =~= score_line(path@, 0, None));
                    }
                    assert(line@ == entry_line(self@, mps[k as int]));
                }
                text = text.concat(line.as_str());
                proof {
                    assert(text@ =~= card_text(self@, d as int) + lines_of(self@, mps, k + 1));
                }
                k += 1;
            }
            proof {
                assert(text@ =~= card_text(self@, d + 1));
            }
            d += 1;
        }
        proof {
            assert(self@.paths.len() == self.paths@.len());
        }
        text
    }
}


/// Scores the path in the entries, replacing its score if it had one.
fn put(e: &mut Vec<ScoreEntry>, x: ScoreEntry)
    requires
        unique_keys(old(e)@),
    ensures
        unique_keys(final(e)@),
        entries_map(final(e)@) == entries_map(old(e)@).insert(x.path@, (x.score, label_view(x.label))),
{
    proof {
        lemma_entries_map(e@);
    }
    match find_entry(e, &x.path) {
        Some(i) => {
            proof {
                lemma_entries_map_update(e@, i as int, x);
            }
            e.set(i, x);
        },
        None => {
            let ghost e0 = e@;
            proof {
                assert forall|j: int| 0 <= j < e0.len() implies (#[trigger] e0[j]).path@ != x.path@ by {
                    if e0[j].path@ == x.path@ {
                        assert(entries_map(e0).contains_key(x.path@));
                    }
                }
            }
            e.push(x);
            proof {
                assert(e@.drop_last() =~= e0);
                assert forall|a: int, b: int| 0 <= a < e@.len() && 0 <= b < e@.len() && a != b implies (#[trigger] e@[a]).path@
                    != (#[trigger] e@[b]).path@ by {
                    if a < e0.len() && b < e0.len() {
                        assert(e@[a] == e0[a] && e@[b] == e0[b]);
                    } else if a < e0.len() {
                        assert(e@[a] == e0[a]);
                    } else {
                        assert(e@[b] == e0[b]);
                    }
                }
            }
        },
    }
}

/// Whether the path is among the listed ones.
fn contains_path(list: &Vec<Vec<Direction>>, path: &Vec<Direction>) -> (res: bool)
    ensures
        res == path_set(list@).contains(path@),
{
    let mut i: usize = 0;
    while i < list.len()
        invariant
            i <= list@.len(),
            forall|j: int| 0 <= j < i ==> (#[trigger] list@[j])@ != path@,
        decreases list@.len() - i,
    {
        if same_path(&list[i], path) {
            assert(list@[i as int]@ == path@);
            return true;
        }
        i += 1;
    }
    false
}

/// The scores after posting `score` with `label` for `path`: a path already scored keeps
/// the lower score (taking the new label when the new score is lower), a new path takes
/// the score.
pub open spec fn spec_post(
    s: Map<Seq<Direction>, (i64, Option<Seq<char>>)>,
    path: Seq<Direction>,
    score: i64,
    label: Option<Seq<char>>,
) -> Map<Seq<Direction>, (i64, Option<Seq<char>>)> {
    if s.contains_key(path) {
        if score < s[path].0 {
            s.insert(path, (score, label))
        } else {
            s
        }
    } else {
        s.insert(path, (score, label))
    }
}

/// The paths at each depth after adding `path` at its own depth.
pub open spec fn paths_after_adding(m: ScorecardModel, path: Seq<Direction>, depth: int) -> Seq<Seq<Direction>> {
    if depth == path.len() {
        paths_at(m, depth).push(path)
    } else {
        paths_at(m, depth)
    }
}

/// The move with the best score among the first `k` single moves (a later move wins a
/// tie), and its score; left with score 0 before any move is looked at.
pub open spec fn top_of(scores: Map<Seq<Direction>, (i64, Option<Seq<char>>)>, k: int) -> (Direction, i64)
    decreases k,
{
    if k <= 0 {
        (Direction::Left, 0)
    } else {
        let (dir, top) = top_of(scores, k - 1);
        let d = spec_all_directions()[k - 1];
        let s = score_of(scores, seq![d]);
        if s >= top {
            (d, s)
        } else {
            (dir, top)
        }
    }
}

impl Scorecard {
    /// Posts the score of a path, as the worst the opponents can do to us so far: a path
    /// already scored keeps the lower of its old and new scores, and the old score comes
    /// back; a new path is scored, listed last at its depth, and 0 comes back.
    pub fn post_score(&mut self, path: Vec<Direction>, score: i64, label: Option<String>) -> (res: i64)
        requires
            old(self).wf(),
        ensures
            final(self).wf(),
            final(self)@.scores == spec_post(old(self)@.scores, path@, score, label_view(label)),
            res == score_of(old(self)@.scores, path@),
            old(self)@.scores.contains_key(path@) ==> forall|d: int| #[trigger] paths_at(final(self)@, d) == paths_at(old(self)@, d),
            !old(self)@.scores.contains_key(path@) ==> forall|d: int| #[trigger] paths_at(final(self)@, d) == paths_after_adding(old(self)@, path@, d),
            final(self)@.certain_death == old(self)@.certain_death,
    {
        proof {
            lemma_entries_map(self.scores@);
        }
        match find_entry(&self.scores, &path) {
            Some(i) => {
                let old_score = self.scores[i].score;
                if score < old_score {
                    let entry = ScoreEntry { path, score, label };
                    put(&mut self.scores, entry);
                }
                old_score
            },
            None => {
                let ghost p0 = self.paths@;
                let ghost s0 = self.scores@;
                let ghost c0 = self.certain_death@;
                let d = path.len();
                while self.paths.len() <= d
                    invariant
                        self.scores@ == s0,
                        self.certain_death@ == c0,
                        self.paths@.len() >= p0.len(),
                        forall|j: int| 0 <= j < p0.len() ==> #[trigger] self.paths@[j] == p0[j],
                        forall|j: int| p0.len() <= j < self.paths@.len() ==> #[trigger] self.paths@[j]@.len() == 0,
                    decreases d + 1 - self.paths@.len(),
                {
                    self.paths.push(Vec::new());
                }
                let ghost p1 = self.paths@;
                let copy = clone_path(&path);
                let mut at_depth = Vec::new();
                std::mem::swap(&mut at_depth, &mut self.paths[d]);
                at_depth.push(copy);
                self.paths.set(d, at_depth);
                proof {
                    assert forall|k: int| #[trigger] paths_at(self@, k) == paths_after_adding(old(self)@, path@, k) by {
                        if 0 <= k < p0.len() {
                            assert(p1[k] == p0[k]);
                        }
                        if 0 <= k < self.paths@.len() {
                            assert(paths_at(self@, k) == self.paths@[k]@.map_values(|v: Vec<Direction>| v@));
                        }
                        if k == d {
                            assert(self.paths@[k]@.map_values(|v: Vec<Direction>| v@) =~= p1[k]@.map_values(
                                |v: Vec<Direction>| v@,
                            ).push(path@));
                        }
                        if 0 <= k < p1.len() && k != d {
                            assert(self.paths@[k] == p1[k]);
                        }
                        if p0.len() <= k < p1.len() && k != d {
                            assert(p1[k]@.map_values(|v: Vec<Direction>| v@) =~= Seq::<Seq<Direction>>::empty());
                        }
                        if p0.len() <= k == d {
                            assert(p1[k]@.map_values(|v: Vec<Direction>| v@) =~= Seq::<Seq<Direction>>::empty());
                        }
                    }
                }
                let entry = ScoreEntry { path, score, label };
                put(&mut self.scores, entry);
                0
            },
        }
    }

    /// Marks a path as certain death.
    pub fn post_certain_death(&mut self, path: Vec<Direction>)
        requires
            old(self).wf(),
        ensures
            final(self).wf(),
            final(self)@.certain_death == old(self)@.certain_death.insert(path@),
            final(self)@.scores == old(self)@.scores,
            final(self)@.paths == old(self)@.paths,
    {
        if !contains_path(&self.certain_death, &path) {
            let ghost c0 = self.certain_death@;
            self.certain_death.push(path);
            proof {
                assert(path_set(self.certain_death@) =~= path_set(c0).insert(self.certain_death@[c0.len() as int]@)) by {
                    assert forall|k: Seq<Direction>| path_set(self.certain_death@).contains(k) implies path_set(c0).insert(
                        self.certain_death@[c0.len() as int]@,
                    ).contains(k) by {
                        let i = choose|i: int| 0 <= i < self.certain_death@.len() && (#[trigger] self.certain_death@[i])@ == k;
                        if i < c0.len() {
                            assert(self.certain_death@[i] == c0[i]);
                        }
                    }
                    assert forall|k: Seq<Direction>| path_set(c0).insert(self.certain_death@[c0.len() as int]@).contains(k) implies path_set(
                        self.certain_death@,
                    ).contains(k) by {
                        if k != self.certain_death@[c0.len() as int]@ {
                            let i = choose|i: int| 0 <= i < c0.len() && (#[trigger] c0[i])@ == k;
                            assert(self.certain_death@[i] == c0[i]);
                        }
                    }
                }
            }
        } else {
            proof {
                assert(path_set(self.certain_death@).insert(path@) =~= path_set(self.certain_death@));
            }
        }
    }

    /// Whether the path is marked as certain death.
    pub fn is_certain_death(&self, path: &Vec<Direction>) -> (res: bool)
        ensures
            res == self@.certain_death.contains(path@),
    {
        contains_path(&self.certain_death, path)
    }

    /// The single move with the best score and that score (a later move in the order up,
    /// down, left, right wins a tie; left with 0 when no move scores 0 or more).
    pub fn top_score(&self) -> (res: (Direction, i64))
        requires
            self.wf(),
        ensures
            res == top_of(self@.scores, 4),
    {
        let dirs = all_directions();
        let mut top_score: i64 = 0;
        let mut best_dir = Direction::Left;
        let mut k: usize = 0;
        while k < 4
            invariant
                k <= 4,
                self.wf(),
                dirs@ == spec_all_directions(),
                (best_dir, top_score) == top_of(self@.scores, k as int),
            decreases 4 - k,
        {
            let dir = dirs[k];
            let single = vec![dir];
            proof {
                assert(single@ =~= seq![spec_all_directions()[k as int]]);
            }
            let score = self.get(&single);
            if score >= top_score {
                top_score = score;
                best_dir = dir;
            }
            k += 1;
        }
        (best_dir, top_score)
    }
}


/// The name of a direction.
pub open spec fn dir_name(d: Direction) -> Seq<char> {
    match d {
        Direction::Up => "Up"@,
        Direction::Down => "Down"@,
        Direction::Left => "Left"@,
        Direction::Right => "Right"@,
    }
}

/// The names of the directions of a path, separated by ", ".
pub open spec fn dirs_text(p: Seq<Direction>) -> Seq<char>
    decreases p.len(),
{
    if p.len() == 0 {
        Seq::empty()
    } else if p.len() == 1 {
        dir_name(p[0])
    } else {
        dirs_text(p.drop_last()) + ", "@ + dir_name(p.last())
    }
}

/// The label of a score taken over from the longer path `path`, whose own label is
/// `label`: "max choice: ", the path in brackets, ": " and the label.
pub open spec fn max_choice_label(path: Seq<Direction>, label: Seq<char>) -> Seq<char> {
    "max choice: ["@ + dirs_text(path) + "]: "@ + label
}

fn dir_str(d: Direction) -> (res: &'static str)
    ensures
        res@ == dir_name(d),
{
    match d {
        Direction::Up => "Up",
        Direction::Down => "Down",
        Direction::Left => "Left",
        Direction::Right => "Right",
    }
}

/// The names of the directions of a path, separated by ", ".
fn dirs_string(path: &Vec<Direction>) -> (res: String)
    ensures
        res@ == dirs_text(path@),
{
    let mut text = String::new();
    let mut i: usize = 0;
    while i < path.len()
        invariant
            i <= path@.len(),
            text@ == dirs_text(path@.take(i as int)),
        decreases path@.len() - i,
    {
        if i > 0 {
            text = text.concat(", ");
        }
        text = text.concat(dir_str(path[i]));
        proof {
            let t = path@.take(i + 1);
            assert(t.drop_last() =~= path@.take(i as int));
            assert(t.last() == path@[i as int]);
            if i == 0 {
                assert(t.len() == 1 && t[0] == path@[0]);
                assert(path@.take(0) =~= Seq::<Direction>::empty());
            }
            assert(text@ =~= dirs_text(t));
        }
        i += 1;
    }
    proof {
        assert(path@.take(path@.len() as int) =~= path@);
    }
    text
}

/// The label of a score taken over from the longer path `path`, whose own label is
/// `label`.
fn describe_max_choice(path: &Vec<Direction>, label: &String) -> (res: String)
    ensures
        res@ == max_choice_label(path@, label@),
{
    let dirs = dirs_string(path);
    let text = String::from_str("max choice: [").concat(dirs.as_str()).concat("]: ").concat(label.as_str());
    proof {
        assert(text@ =~= max_choice_label(path@, label@));
    }
    text
}

/// The character of a decimal digit.
pub open spec fn digit_char(d: int) -> char {
    if d == 0 {
        '0'
    } else if d == 1 {
        '1'
    } else if d == 2 {
        '2'
    } else if d == 3 {
        '3'
    } else if d == 4 {
        '4'
    } else if d == 5 {
        '5'
    } else if d == 6 {
        '6'
    } else if d == 7 {
        '7'
    } else if d == 8 {
        '8'
    } else {
        '9'
    }
}

/// The decimal digits of a natural number, without leading zeros.
pub open spec fn nat_text(n: nat) -> Seq<char>
    decreases n,
{
    if n < 10 {
        seq![digit_char(n as int)]
    } else {
        nat_text(n / 10) + seq![digit_char((n % 10) as int)]
    }
}

/// An integer in decimal, with a minus sign when it is negative.
pub open spec fn int_text(i: int) -> Seq<char> {
    if i < 0 {
        "-"@ + nat_text((-i) as nat)
    } else {
        nat_text(i as nat)
    }
}

fn digit_str(d: u64) -> (res: &'static str)
    requires
        d < 10,
    ensures
        res@ == seq![digit_char(d as int)],
{
    let res = match d {
        0 => "0",
        1 => "1",
        2 => "2",
        3 => "3",
        4 => "4",
        5 => "5",
        6 => "6",
        7 => "7",
        8 => "8",
        _ => "9",
    };
    proof {
        reveal_strlit("0");
        reveal_strlit("1");
        reveal_strlit("2");
        reveal_strlit("3");
        reveal_strlit("4");
        reveal_strlit("5");
        reveal_strlit("6");
        reveal_strlit("7");
        reveal_strlit("8");
        reveal_strlit("9");
        assert(res@ =~= seq![digit_char(d as int)]);
    }
    res
}

fn nat_string(n: u64) -> (res: String)
    ensures
        res@ == nat_text(n as nat),
    decreases n,
{
    if n < 10 {
        String::from_str(digit_str(n))
    } else {
        let front = nat_string(n / 10);
        let res = front.concat(digit_str(n % 10));
        proof {
            assert((n / 10) as nat == (n as nat) / 10);
            assert((n % 10) as int == (n as nat) % 10);
        }
        res
    }
}

/// An integer in decimal, as `i64`'s `Display` writes it.
fn int_string(i: i64) -> (res: String)
    ensures
        res@ == int_text(i as int),
{
    if i < 0 {
        let m: u64 = (0i128 - (i as i128)) as u64;
        let res = String::from_str("-").concat(nat_string(m).as_str());
        proof {
            assert(m as nat == (-(i as int)) as nat);
            assert(res@ =~= int_text(i as int));
        }
        res
    } else {
        nat_string(i as u64)
    }
}

/// The line of a scored path: the path in brackets, its score and its label.
pub open spec fn score_line(path: Seq<Direction>, score: i64, label: Option<Seq<char>>) -> Seq<char> {
    "["@ + dirs_text(path) + "]: score "@ + int_text(score as int) + " - "@ + label_text(label) + "\n"@
}

/// The line of a path in a scorecard (a path without a score is shown with 0).
pub open spec fn entry_line(m: ScorecardModel, path: Seq<Direction>) -> Seq<char> {
    if m.scores.contains_key(path) {
        score_line(path, m.scores[path].0, m.scores[path].1)
    } else {
        score_line(path, 0, None)
    }
}

/// The lines of the first `k` paths of `ps`.
pub open spec fn lines_of(m: ScorecardModel, ps: Seq<Seq<Direction>>, k: int) -> Seq<char>
    decreases k,
{
    if k <= 0 {
        Seq::empty()
    } else {
        lines_of(m, ps, k - 1) + entry_line(m, ps[k - 1])
    }
}

/// The lines of the paths at the first `d` depths, depth by depth, each depth's paths in
/// the order they were first scored.
pub open spec fn card_text(m: ScorecardModel, d: int) -> Seq<char>
    decreases d,
{
    if d <= 0 {
        Seq::empty()
    } else {
        card_text(m, d - 1) + lines_of(m, m.paths[d - 1], m.paths[d - 1].len() as int)
    }
}

/// The text of a label, empty without one.
pub open spec fn label_text(l: Option<Seq<char>>) -> Seq<char> {
    match l {
        Some(t) => t,
        None => Seq::empty(),
    }
}

/// The score and label of `path` after looking at its first `k` one-move extensions, in
/// the order up, down, left, right: an extension scored higher than the best so far takes
/// over, with a label that names it.
pub open spec fn best_of(s: Map<Seq<Direction>, (i64, Option<Seq<char>>)>, p: Seq<Direction>, k: int) -> (i64, Option<Seq<char>>)
    decreases k,
{
    if k <= 0 {
        if s.contains_key(p) {
            s[p]
        } else {
            (0, None)
        }
    } else {
        let b = best_of(s, p, k - 1);
        let c = p.push(spec_all_directions()[k - 1]);
        if s.contains_key(c) && s[c].0 > b.0 {
            (s[c].0, Some(max_choice_label(c, label_text(s[c].1))))
        } else {
            b
        }
    }
}

/// The scores after the first `k` paths of `ps` that are not certain death each take the
/// best score of their extensions, one after the other.
pub open spec fn step_paths(
    s: Map<Seq<Direction>, (i64, Option<Seq<char>>)>,
    dead: Set<Seq<Direction>>,
    ps: Seq<Seq<Direction>>,
    k: int,
) -> Map<Seq<Direction>, (i64, Option<Seq<char>>)>
    decreases k,
{
    if k <= 0 {
        s
    } else {
        let s1 = step_paths(s, dead, ps, k - 1);
        let p = ps[k - 1];
        if dead.contains(p) {
            s1
        } else {
            s1.insert(p, best_of(s1, p, 4))
        }
    }
}

/// The scores after stepping the paths at depth `d`, then at each smaller depth down to 1.
pub open spec fn max_from(m: ScorecardModel, s: Map<Seq<Direction>, (i64, Option<Seq<char>>)>, d: int) -> Map<
    Seq<Direction>,
    (i64, Option<Seq<char>>),
>
    decreases d,
{
    if d <= 0 {
        s
    } else {
        max_from(m, step_paths(s, m.certain_death, paths_at(m, d), paths_at(m, d).len() as int), d - 1)
    }
}

fn label_text_of(l: &Option<String>) -> (res: String)
    ensures
        res@ == label_text(label_view(*l)),
{
    match l {
        Some(s) => s.clone(),
        None => String::new(),
    }
}

/// The best score and label among a path and its one-move extensions.
fn best_for(e: &Vec<ScoreEntry>, path: &Vec<Direction>) -> (res: (i64, Option<String>))
    requires
        unique_keys(e@),
    ensures
        (res.0, label_view(res.1)) == best_of(entries_map(e@), path@, 4),
{
    proof {
        lemma_entries_map(e@);
    }
    let (mut max_score, mut max_label) = match find_entry(e, path) {
        Some(i) => (e[i].score, clone_label(&e[i].label)),
        None => (0, None),
    };
    let dirs = all_directions();
    let mut sub = clone_path(path);
    let mut k: usize = 0;
    while k < 4
        invariant
            k <= 4,
            unique_keys(e@),
            dirs@ == spec_all_directions(),
            sub@ == path@,
            (max_score, label_view(max_label)) == best_of(entries_map(e@), path@, k as int),
        decreases 4 - k,
    {
        sub.push(dirs[k]);
        proof {
            lemma_entries_map(e@);
        }
        match find_entry(e, &sub) {
            Some(i) => {
                if e[i].score > max_score {
                    max_score = e[i].score;
                    let text = label_text_of(&e[i].label);
                    max_label = Some(describe_max_choice(&sub, &text));
                }
            },
            None => {},
        }
        sub.pop();
        proof {
            assert(sub@ =~= path@);
        }
        k += 1;
    }
    (max_score, max_label)
}

impl Scorecard {
    /// Backs the scores up the tree of paths, from depth `depth` up to depth 1: each path
    /// that is not certain death takes the best score of its one-move extensions when one
    /// beats its own.
    pub fn max_step(&mut self, depth: usize)
        requires
            old(self).wf(),
        ensures
            final(self).wf(),
            final(self)@.scores == max_from(old(self)@, old(self)@.scores, depth as int),
            final(self)@.paths == old(self)@.paths,
            final(self)@.certain_death == old(self)@.certain_death,
    {
        let ghost m0 = self@;
        let mut d = depth;
        while d > 0
            invariant
                d <= depth,
                self.wf(),
                self@.paths == m0.paths,
                self@.certain_death == m0.certain_death,
                max_from(m0, self@.scores, d as int) == max_from(m0, m0.scores, depth as int),
            decreases d,
        {
            let ghost s_start = self@.scores;
            if d < self.paths.len() {
                let n = self.paths[d].len();
                let mut k: usize = 0;
                while k < n
                    invariant
                        k <= n,
                        d < self.paths@.len(),
                        n == paths_at(m0, d as int).len(),
                        self.wf(),
                        self@.paths == m0.paths,
                        self@.certain_death == m0.certain_death,
                        self@.scores == step_paths(s_start, m0.certain_death, paths_at(m0, d as int), k as int),
                    decreases n - k,
                {
                    let path = clone_path(&self.paths[d][k]);
                    proof {
                        assert(path@ == paths_at(m0, d as int)[k as int]);
                    }
                    if !contains_path(&self.certain_death, &path) {
                        let (score, label) = best_for(&self.scores, &path);
                        put(&mut self.scores, ScoreEntry { path, score, label });
                    }
                    k += 1;
                }
            } else {
                proof {
                    assert(paths_at(m0, d as int) =~= Seq::<Seq<Direction>>::empty());
                }
            }
            d -= 1;
        }
    }
}


/// Posting a score for a path leaves it the lower of its old score and the posted one (the
/// posted one for a new path), and leaves every other path's score as it was.
pub proof fn law_post_keeps_lowest(
    s: Map<Seq<Direction>, (i64, Option<Seq<char>>)>,
    path: Seq<Direction>,
    score: i64,
    label: Option<Seq<char>>,
    other: Seq<Direction>,
)
    ensures
        spec_post(s, path, score, label).contains_key(path),
        spec_post(s, path, score, label)[path].0 == if s.contains_key(path) && s[path].0 <= score {
            s[path].0
        } else {
            score
        },
        other != path ==> score_of(spec_post(s, path, score, label), other) == score_of(s, other),
{
}

/// Backing up the scores never gives a path less than its own score (0 for an unscored
/// path).
pub proof fn law_best_at_least_own(s: Map<Seq<Direction>, (i64, Option<Seq<char>>)>, p: Seq<Direction>, k: int)
    ensures
        best_of(s, p, k).0 >= score_of(s, p),
    decreases k,
{
    if k > 0 {
        law_best_at_least_own(s, p, k - 1);
    }
}

} // verus!
