//! The scores that the search posts for the paths of moves it has looked at.
use vstd::prelude::*;

use crate::logic::Direction;
use crate::snakes::spaceheater::scorecard::same_path;

verus! {

/// The score of one path.
pub struct PathScore<S> {
    pub path: Vec<Direction>,
    pub score: S,
}

/// The latest score posted for each path.
pub struct Scoretree<S> {
    scores: Vec<PathScore<S>>,
}

/// The map of scores a list of path scores stands for (a later score for a path wins).
pub open spec fn score_map<S>(e: Seq<PathScore<S>>) -> Map<Seq<Direction>, S>
    decreases e.len(),
{
    if e.len() == 0 {
        Map::empty()
    } else {
        score_map(e.drop_last()).insert(e.last().path@, e.last().score)
    }
}

spec fn distinct_paths<S>(e: Seq<PathScore<S>>) -> bool {
    forall|i: int, j: int| 0 <= i < e.len() && 0 <= j < e.len() && i != j ==> (#[trigger] e[i]).path@ != (#[trigger] e[j]).path@
}

impl<S> View for Scoretree<S> {
    type V = Map<Seq<Direction>, S>;

    closed spec fn view(&self) -> Map<Seq<Direction>, S> {
        score_map(self.scores@)
    }
}

proof fn lemma_score_map<S>(e: Seq<PathScore<S>>)
    requires
        distinct_paths(e),
    ensures
        forall|k: Seq<Direction>| #[trigger] score_map(e).contains_key(k) <==> exists|i: int| 0 <= i < e.len() && (#[trigger] e[i]).path@ == k,
        forall|i: int| 0 <= i < e.len() ==> score_map(e)[(#[trigger] e[i]).path@] == e[i].score,
    decreases e.len(),
{
    if e.len() > 0 {
        let d = e.drop_last();
        assert forall|i: int, j: int| 0 <= i < d.len() && 0 <= j < d.len() && i != j implies (#[trigger] d[i]).path@ != (#[trigger] d[j]).path@ by {
            assert(d[i] == e[i] && d[j] == e[j]);
        }
        lemma_score_map(d);
        assert forall|k: Seq<Direction>| #[trigger] score_map(e).contains_key(k) <==> exists|i: int| 0 <= i < e.len() && (#[trigger] e[i]).path@ == k by {
            if score_map(e).contains_key(k) {
                if k == e.last().path@ {
                    assert(e[e.len() - 1].path@ == k);
                } else {
                    assert(score_map(d).contains_key(k));
                    let i = choose|i: int| 0 <= i < d.len() && (#[trigger] d[i]).path@ == k;
                    assert(e[i] == d[i]);
                }
            }
            if exists|i: int| 0 <= i < e.len() && (#[trigger] e[i]).path@ == k {
                let i = choose|i: int| 0 <= i < e.len() && (#[trigger] e[i]).path@ == k;
                if i < e.len() - 1 {
                    assert(d[i] == e[i]);
                    assert(score_map(d).contains_key(k));
                }
            }
        }
        assert forall|i: int| 0 <= i < e.len() implies score_map(e)[(#[trigger] e[i]).path@] == e[i].score by {
            if i < e.len() - 1 {
                assert(d[i] == e[i]);
                assert(e[i].path@ != e.last().path@);
            }
        }
    }
}

fn find_path<S>(e: &Vec<PathScore<S>>, path: &Vec<Direction>) -> (res: Option<usize>)
    requires
        distinct_paths(e@),
    ensures
        match res {
            Some(i) => i < e@.len() && e@[i as int].path@ == path@,
            None => !score_map(e@).contains_key(path@),
        },
{
    let mut i: usize = 0;
    while i < e.len()
        invariant
            i <= e@.len(),
            forall|j: int| 0 <= j < i ==> (#[trigger] e@[j]).path@ != path@,
        decreases e@.len() - i,
    {
        if same_path(&e[i].path, path) {
            return Some(i);
        }
        i += 1;
    }
    proof {
        lemma_score_map(e@);
    }
    None
}

impl<S: Copy> Scoretree<S> {
    /// Each path is scored at most once.
    pub closed spec fn wf(&self) -> bool {
        distinct_paths(self.scores@)
    }

    /// A tree with no scores.
    pub fn new() -> (res: Self)
        ensures
            res.wf(),
            res@ == Map::<Seq<Direction>, S>::empty(),
    {
        let res = Scoretree { scores: Vec::new() };
        proof {
            assert(score_map(res.scores@) =~= Map::<Seq<Direction>, S>::empty());
        }
        res
    }

    /// Records a score for a path, replacing the one it had.
    pub fn insert(&mut self, path: Vec<Direction>, score: S)
        requires
            old(self).wf(),
        ensures
            final(self).wf(),
            final(self)@ == old(self)@.insert(path@, score),
    {
        let ghost e0 = self.scores@;
        proof {
            lemma_score_map(e0);
        }
        match find_path(&self.scores, &path) {
            Some(i) => {
                let entry = PathScore { path, score };
                self.scores.set(i, entry);
                proof {
                    let e1 = self.scores@;
                    assert forall|a: int, b: int| 0 <= a < e1.len() && 0 <= b < e1.len() && a != b implies (#[trigger] e1[a]).path@
                        != (#[trigger] e1[b]).path@ by {
                        assert(e0[a].path@ != e0[b].path@);
                    }
                    lemma_score_map(e1);
                    assert(score_map(e1) =~= score_map(e0).insert(e1[i as int].path@, score)) by {
                        assert forall|k: Seq<Direction>| score_map(e1).contains_key(k) == score_map(e0).insert(
                            e1[i as int].path@,
                            score,
                        ).contains_key(k) by {
                            if exists|j: int| 0 <= j < e0.len() && (#[trigger] e0[j]).path@ == k {
                                let j = choose|j: int| 0 <= j < e0.len() && (#[trigger] e0[j]).path@ == k;
                                assert(e1[j].path@ == k);
                            }
                            if exists|j: int| 0 <= j < e1.len() && (#[trigger] e1[j]).path@ == k {
                                let j = choose|j: int| 0 <= j < e1.len() && (#[trigger] e1[j]).path@ == k;
                                assert(e0[j].path@ == k);
                            }
                        }
                        assert forall|k: Seq<Direction>| #[trigger] score_map(e1).contains_key(k) implies score_map(e1)[k]
                            == score_map(e0).insert(e1[i as int].path@, score)[k] by {
                            let j = choose|j: int| 0 <= j < e1.len() && (#[trigger] e1[j]).path@ == k;
                            if j != i {
                                assert(e1[j] == e0[j]);
                            }
                        }
                    }
                }
            },
            None => {
                proof {
                    assert forall|j: int| 0 <= j < e0.len() implies (#[trigger] e0[j]).path@ != path@ by {
                        if e0[j].path@ == path@ {
                            assert(score_map(e0).contains_key(path@));
                        }
                    }
                }
                self.scores.push(PathScore { path, score });
                proof {
                    let e1 = self.scores@;
                    assert(e1.drop_last() =~= e0);
                    assert forall|a: int, b: int| 0 <= a < e1.len() && 0 <= b < e1.len() && a != b implies (#[trigger] e1[a]).path@
                        != (#[trigger] e1[b]).path@ by {
                        if a < e0.len() {
                            assert(e1[a] == e0[a]);
                        }
                        if b < e0.len() {
                            assert(e1[b] == e0[b]);
                        }
                    }
                }
            },
        }
    }

    /// The score of a path, if one was posted.
    pub fn get_score(&self, path: &Vec<Direction>) -> (res: Option<S>)
        requires
            self.wf(),
        ensures
            res == if self@.contains_key(path@) {
                Some(self@[path@])
            } else {
                None
            },
    {
        proof {
            lemma_score_map(self.scores@);
        }
        match find_path(&self.scores, path) {
            Some(i) => Some(self.scores[i].score),
            None => None,
        }
    }

    /// The scores of those of the paths that have one, each with its path, in the order of
    /// the paths.
    pub fn get_scores(&self, paths: &Vec<Vec<Direction>>) -> (res: Vec<(Vec<Direction>, S)>)
        requires
            self.wf(),
        ensures
            res@.map_values(|r: (Vec<Direction>, S)| (r.0@, r.1)) == found_scores(self@, paths@.map_values(
                |p: Vec<Direction>| p@,
            ), paths@.len() as int),
    {
        let mut res: Vec<(Vec<Direction>, S)> = Vec::new();
        let mut i: usize = 0;
        while i < paths.len()
            invariant
                i <= paths@.len(),
                self.wf(),
                res@.map_values(|r: (Vec<Direction>, S)| (r.0@, r.1)) == found_scores(self@, paths@.map_values(
                    |p: Vec<Direction>| p@,
                ), i as int),
            decreases paths@.len() - i,
        {
            let ghost r0 = res@;
            let ghost ps = paths@.map_values(|p: Vec<Direction>| p@);
            proof {
                assert(ps[i as int] == paths@[i as int]@);
            }
            match self.get_score(&paths[i]) {
                Some(s) => {
                    let copy = crate::snakes::spaceheater3::util::clone_moves(&paths[i]);
                    res.push((copy, s));
                    proof {
                        assert(res@.map_values(|r: (Vec<Direction>, S)| (r.0@, r.1)) =~= r0.map_values(
                            |r: (Vec<Direction>, S)| (r.0@, r.1),
                        ).push((ps[i as int], s)));
                    }
                },
                None => {},
            }
            i += 1;
        }
        res
    }
}

/// The scores of the first `k` paths that have one, each with its path.
pub open spec fn found_scores<S>(m: Map<Seq<Direction>, S>, paths: Seq<Seq<Direction>>, k: int) -> Seq<(Seq<Direction>, S)>
    decreases k,
{
    if k <= 0 {
        Seq::empty()
    } else {
        let prev = found_scores(m, paths, k - 1);
        if m.contains_key(paths[k - 1]) {
            prev.push((paths[k - 1], m[paths[k - 1]]))
        } else {
            prev
        }
    }
}

} // verus!
