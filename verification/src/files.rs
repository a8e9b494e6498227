//! A snapshot of the working tree's readable contents, keyed by path. The
//! combinator reads file contents from here; a path with no entry counts as
//! deleted or unreadable and is skipped, never an error.

use vstd::prelude::*;

verus! {

/// Readable file contents by path; keys are unique.
pub struct FileSnapshot {
    pub entries: Vec<(String, String)>,
}

/// The mathematical content of the entry list: path to content.
pub open spec fn files_map(entries: Seq<(String, String)>) -> Map<Seq<char>, Seq<char>>
    decreases entries.len(),
{
    if entries.len() == 0 {
        Map::empty()
    } else {
        files_map(entries.drop_last()).insert(entries.last().0@, entries.last().1@)
    }
}

proof fn lemma_files_map_index(entries: Seq<(String, String)>, i: int)
    requires
        0 <= i < entries.len(),
        forall|a: int, b: int|
            0 <= a < b < entries.len() ==> entries[a].0@ != entries[b].0@,
    ensures
        files_map(entries).contains_key(entries[i].0@),
        files_map(entries)[entries[i].0@] == entries[i].1@,
    decreases entries.len(),
{
    if i < entries.len() - 1 {
        lemma_files_map_index(entries.drop_last(), i);
    }
}

proof fn lemma_files_map_absent(entries: Seq<(String, String)>, path: Seq<char>)
    requires
        forall|a: int| 0 <= a < entries.len() ==> (#[trigger] entries[a].0@) != path,
    ensures
        !files_map(entries).contains_key(path),
    decreases entries.len(),
{
    if entries.len() > 0 {
        lemma_files_map_absent(entries.drop_last(), path);
    }
}

impl FileSnapshot {
    pub open spec fn wf(&self) -> bool {
        forall|a: int, b: int|
            0 <= a < b < self.entries@.len() ==> self.entries@[a].0@ != self.entries@[b].0@
    }

    /// The map this snapshot holds.
    pub open spec fn view_map(&self) -> Map<Seq<char>, Seq<char>> {
        files_map(self.entries@)
    }

    pub fn new() -> (r: FileSnapshot)
        ensures
            r.wf(),
            r.view_map() == Map::<Seq<char>, Seq<char>>::empty(),
    {
        FileSnapshot { entries: Vec::new() }
    }

    /// Record `content` for `path`; a path already present keeps its first
    /// recorded content.
    pub fn insert(&mut self, path: String, content: String)
        requires
            old(self).wf(),
        ensures
            final(self).wf(),
            final(self).view_map() == if old(self).view_map().contains_key(path@) {
                old(self).view_map()
            } else {
                old(self).view_map().insert(path@, content@)
            },
    {
        let n = self.entries.len();
        let mut i: usize = 0;
        while i < n
            invariant
                n == self.entries@.len(),
                self.entries@ == old(self).entries@,
                old(self).wf(),
                0 <= i <= n,
                forall|a: int| 0 <= a < i ==> (#[trigger] self.entries@[a].0@) != path@,
            decreases n - i,
        {
            if self.entries[i].0 == path {
                proof {
                    lemma_files_map_index(self.entries@, i as int);
                }
                return ;
            }
            i = i + 1;
        }
        proof {
            lemma_files_map_absent(self.entries@, path@);
        }
        let ghost pre = self.entries@;
        self.entries.push((path, content));
        proof {
            assert(self.entries@.drop_last() =~= pre);
        }
    }

    /// The content recorded for `path`, where the snapshot holds one.
    pub fn get(&self, path: &String) -> (r: Option<&String>)
        requires
            self.wf(),
        ensures
            match r {
                Some(c) => self.view_map().contains_key(path@) && c@ == self.view_map()[path@],
                None => !self.view_map().contains_key(path@),
            },
    {
        let n = self.entries.len();
        let mut i: usize = 0;
        while i < n
            invariant
                n == self.entries@.len(),
                self.wf(),
                0 <= i <= n,
                forall|a: int| 0 <= a < i ==> (#[trigger] self.entries@[a].0@) != path@,
            decreases n - i,
        {
            if self.entries[i].0 == *path {
                proof {
                    lemma_files_map_index(self.entries@, i as int);
                }
                return Some(&self.entries[i].1);
            }
            i = i + 1;
        }
        proof {
            lemma_files_map_absent(self.entries@, path@);
        }
        None
    }
}

} // verus!
