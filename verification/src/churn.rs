//! The churn record: how many commits touched each path, accumulated across
//! the whole history walk.

use vstd::prelude::*;

verus! {

/// Per-path commit counts. Keys are unique and every recorded count is
/// strictly positive: a path only enters once a commit touched it.
#[derive(Debug)]
pub struct ChurnMap {
    pub entries: Vec<(String, u32)>,
}

/// The mathematical content of an entry list: the map from each path to its
/// count, later entries overriding earlier ones (well-formed lists have no
/// repeated key, so nothing is overridden).
pub open spec fn entries_map(entries: Seq<(String, u32)>) -> Map<Seq<char>, u32>
    decreases entries.len(),
{
    if entries.len() == 0 {
        Map::empty()
    } else {
        entries_map(entries.drop_last()).insert(entries.last().0@, entries.last().1)
    }
}

/// One more touch of `path`: a new path enters with count one; an existing
/// count rises by one, held at `u32::MAX`.
pub open spec fn bump(m: Map<Seq<char>, u32>, path: Seq<char>) -> Map<Seq<char>, u32> {
    if m.contains_key(path) {
        m.insert(
            path,
            if m[path] < u32::MAX {
                (m[path] + 1) as u32
            } else {
                m[path]
            },
        )
    } else {
        m.insert(path, 1u32)
    }
}

/// The churn of a whole history: the touched-path lists of every commit,
/// folded one commit after another, one touch per appearance of a path.
pub open spec fn churn_of_commits(commits: Seq<Seq<Seq<char>>>) -> Map<Seq<char>, u32>
    decreases commits.len(),
{
    if commits.len() == 0 {
        Map::empty()
    } else {
        bump_paths(churn_of_commits(commits.drop_last()), commits.last())
    }
}

/// Every path of one commit's list folded into `m`.
pub open spec fn bump_paths(m: Map<Seq<char>, u32>, paths: Seq<Seq<char>>) -> Map<Seq<char>, u32>
    decreases paths.len(),
{
    if paths.len() == 0 {
        m
    } else {
        bump(bump_paths(m, paths.drop_last()), paths.last())
    }
}

proof fn lemma_entries_map_index(entries: Seq<(String, u32)>, i: int)
    requires
        0 <= i < entries.len(),
        forall|a: int, b: int|
            0 <= a < b < entries.len() ==> entries[a].0@ != entries[b].0@,
    ensures
        entries_map(entries).contains_key(entries[i].0@),
        entries_map(entries)[entries[i].0@] == entries[i].1,
    decreases entries.len(),
{
    if i < entries.len() - 1 {
        lemma_entries_map_index(entries.drop_last(), i);
    }
}

proof fn lemma_entries_map_absent(entries: Seq<(String, u32)>, path: Seq<char>)
    requires
        forall|a: int| 0 <= a < entries.len() ==> (#[trigger] entries[a].0@) != path,
    ensures
        !entries_map(entries).contains_key(path),
    decreases entries.len(),
{
    if entries.len() > 0 {
        lemma_entries_map_absent(entries.drop_last(), path);
    }
}

proof fn lemma_entries_map_update(entries: Seq<(String, u32)>, i: int, e: (String, u32))
    requires
        0 <= i < entries.len(),
        forall|a: int, b: int|
            0 <= a < b < entries.len() ==> entries[a].0@ != entries[b].0@,
        e.0@ == entries[i].0@,
    ensures
        entries_map(entries.update(i, e)) =~= entries_map(entries).insert(e.0@, e.1),
    decreases entries.len(),
{
    let upd = entries.update(i, e);
    if i == entries.len() - 1 {
        assert(upd.drop_last() =~= entries.drop_last());
        assert(upd.last() == e);
    } else {
        assert(upd.drop_last() =~= entries.drop_last().update(i, e));
        assert(upd.last() == entries.last());
        lemma_entries_map_update(entries.drop_last(), i, e);
        assert(entries.last().0@ != e.0@);
    }
}

impl ChurnMap {
    /// Keys unique, counts strictly positive.
    pub open spec fn wf(&self) -> bool {
        &&& forall|a: int, b: int|
            0 <= a < b < self.entries@.len() ==> self.entries@[a].0@ != self.entries@[b].0@
        &&& forall|a: int| 0 <= a < self.entries@.len() ==> (#[trigger] self.entries@[a].1) >= 1
    }

    /// The map this record holds.
    pub open spec fn view_map(&self) -> Map<Seq<char>, u32> {
        entries_map(self.entries@)
    }

    pub fn new() -> (r: ChurnMap)
        ensures
            r.wf(),
            r.view_map() == Map::<Seq<char>, u32>::empty(),
            r.entries@.len() == 0,
    {
        ChurnMap { entries: Vec::new() }
    }

    /// Record one more commit touching `path`.
    pub fn increment(&mut self, path: &String)
        requires
            old(self).wf(),
        ensures
            final(self).wf(),
            final(self).view_map() == bump(old(self).view_map(), path@),
    {
        let n = self.entries.len();
        let mut i: usize = 0;
        while i < n
            invariant
                n == self.entries@.len(),
                self.entries@ == old(self).entries@,
                old(self).wf(),
                0 <= i <= n,
                forall|a: int| 0 <= a < i ==> (#[trigger] self.entries@[a].0@) != path@,
            decreases n - i,
        {
            if self.entries[i].0 == *path {
                let c = self.entries[i].1;
                let nc: u32 = if c < u32::MAX {
                    c + 1
                } else {
                    c
                };
                let key = self.entries[i].0.clone();
                proof {
                    lemma_entries_map_index(self.entries@, i as int);
                }
                let ghost pre = self.entries@;
                self.entries.set(i, (key, nc));
                proof {
                    lemma_entries_map_update(pre, i as int, self.entries@[i as int]);
                    assert(final(self).view_map() =~= bump(old(self).view_map(), path@));
                }
                return ;
            }
            i = i + 1;
        }
        proof {
            lemma_entries_map_absent(self.entries@, path@);
        }
        let ghost pre = self.entries@;
        self.entries.push((path.clone(), 1));
        proof {
            assert(self.entries@.drop_last() =~= pre);
            assert(final(self).view_map() =~= bump(old(self).view_map(), path@));
        }
    }

    /// The recorded count of `path`: zero where history never touched it.
    pub fn count_of(&self, path: &String) -> (r: u32)
        requires
            self.wf(),
        ensures
            r == if self.view_map().contains_key(path@) {
                self.view_map()[path@]
            } else {
                0u32
            },
    {
        let n = self.entries.len();
        let mut i: usize = 0;
        while i < n
            invariant
                n == self.entries@.len(),
                self.wf(),
                0 <= i <= n,
                forall|a: int| 0 <= a < i ==> (#[trigger] self.entries@[a].0@) != path@,
            decreases n - i,
        {
            if self.entries[i].0 == *path {
                proof {
                    lemma_entries_map_index(self.entries@, i as int);
                }
                return self.entries[i].1;
            }
            i = i + 1;
        }
        proof {
            lemma_entries_map_absent(self.entries@, path@);
        }
        0
    }
}

/// The churn record of a history handed over as the touched-path lists of its
/// commits, one list per commit.
pub fn churn_from_commits(commits: &Vec<Vec<String>>) -> (r: ChurnMap)
    ensures
        r.wf(),
        r.view_map() == churn_of_commits(commits.deep_view()),
{
    let mut map = ChurnMap::new();
    let mut i: usize = 0;
    proof {
        assert(commits.deep_view().take(0) =~= Seq::<Seq<Seq<char>>>::empty());
    }
    while i < commits.len()
        invariant
            0 <= i <= commits@.len(),
            commits.deep_view().len() == commits@.len(),
            map.wf(),
            map.view_map() == churn_of_commits(commits.deep_view().take(i as int)),
        decreases commits@.len() - i,
    {
        let commit = &commits[i];
        let mut j: usize = 0;
        proof {
            assert(commit.deep_view().take(0) =~= Seq::<Seq<char>>::empty());
        }
        while j < commit.len()
            invariant
                0 <= j <= commit@.len(),
                commit.deep_view().len() == commit@.len(),
                map.wf(),
                map.view_map() == bump_paths(
                    churn_of_commits(commits.deep_view().take(i as int)),
                    commit.deep_view().take(j as int),
                ),
            decreases commit@.len() - j,
        {
            map.increment(&commit[j]);
            proof {
                let cv = commit.deep_view();
                assert(cv.take(j + 1).drop_last() =~= cv.take(j as int));
                assert(cv.take(j + 1).last() == cv[j as int]);
                assert(cv[j as int] == commit@[j as int]@);
            }
            j = j + 1;
        }
        proof {
            let hv = commits.deep_view();
            assert(commit.deep_view() =~= commit.deep_view().take(commit@.len() as int));
            assert(hv.take(i + 1).drop_last() =~= hv.take(i as int));
            assert(hv.take(i + 1).last() == hv[i as int]);
            assert(hv[i as int] =~= commit.deep_view());
        }
        i = i + 1;
    }
    proof {
        assert(commits.deep_view().take(commits@.len() as int) =~= commits.deep_view());
    }
    map
}

} // verus!
