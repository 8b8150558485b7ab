//! The filesystem snapshot the engine works on: a table from absolute paths
//! to file contents, handed in by the caller. An entry whose lines are absent
//! stands for a file that exists but cannot be read.

use vstd::prelude::*;
use crate::bytes::seq_views;

verus! {

/// One file of the snapshot: its absolute path and, when the file could be
/// read, its lines.
pub struct FsEntry {
    pub path: Vec<u8>,
    pub lines: Option<Vec<Vec<u8>>>,
}

/// Ghost image of an `FsEntry`.
pub ghost struct FsEntryView {
    pub path: Seq<u8>,
    pub lines: Option<Seq<Seq<u8>>>,
}

impl View for FsEntry {
    type V = FsEntryView;

    open spec fn view(&self) -> FsEntryView {
        FsEntryView {
            path: self.path@,
            lines: match self.lines {
                Some(ls) => Some(seq_views(ls@)),
                None => None,
            },
        }
    }
}

/// The snapshot: every file the engine may probe or read.
pub struct FsData {
    pub entries: Vec<FsEntry>,
}

impl View for FsData {
    type V = Seq<FsEntryView>;

    open spec fn view(&self) -> Seq<FsEntryView> {
        seq_views(self.entries@)
    }
}

/// A path exists in the snapshot.
pub open spec fn fs_has(fs: Seq<FsEntryView>, path: Seq<u8>) -> bool {
    exists|i: int| 0 <= i < fs.len() && fs[i].path == path
}

/// The entry of `path` in the snapshot (meaningful under `FsData::wf`,
/// which makes it unique).
pub open spec fn fs_at(fs: Seq<FsEntryView>, path: Seq<u8>) -> FsEntryView {
    fs[choose|i: int| 0 <= i < fs.len() && fs[i].path == path]
}

/// Under distinct paths, `fs_at` agrees with any index that holds the path.
pub proof fn lemma_fs_at(fs: Seq<FsEntryView>, path: Seq<u8>, i: int)
    requires
        forall|a: int, b: int| 0 <= a < b < fs.len() ==> fs[a].path != fs[b].path,
        0 <= i < fs.len(),
        fs[i].path == path,
    ensures
        fs_has(fs, path),
        fs_at(fs, path) == fs[i],
{
    let j = choose|j: int| 0 <= j < fs.len() && fs[j].path == path;
    if j != i {
        if j < i {
            assert(fs[j].path != fs[i].path);
        } else {
            assert(fs[i].path != fs[j].path);
        }
    }
}

impl FsData {
    /// The snapshot is well formed: no path occurs twice.
    pub open spec fn wf(&self) -> bool {
        forall|i: int, j: int| 0 <= i < j < self@.len() ==> self@[i].path != self@[j].path
    }

    /// The index of the entry whose path is `path`, if the path exists.
    pub fn find(&self, path: &Vec<u8>) -> (r: Option<usize>)
        ensures
            match r {
                Some(i) => i < self@.len() && self@[i as int].path == path@,
                None => !fs_has(self@, path@),
            },
    {
        let mut i: usize = 0;
        while i < self.entries.len()
            invariant
                i <= self@.len(),
                self@.len() == self.entries@.len(),
                forall|k: int| 0 <= k < i ==> self@[k].path != path@,
            decreases self@.len() - i,
        {
            assert(self@[i as int].path == self.entries@[i as int].path@);
            if crate::bytes::bytes_eq(&self.entries[i].path, path) {
                return Some(i);
            }
            i += 1;
        }
        proof {
            assert forall|k: int| 0 <= k < self@.len() implies self@[k].path != path@ by {}
        }
        None
    }

    /// Whether `path` exists in the snapshot.
    pub fn probe(&self, path: &Vec<u8>) -> (r: bool)
        ensures
            r == fs_has(self@, path@),
    {
        match self.find(path) {
            Some(_) => true,
            None => false,
        }
    }
}

} // verus!
