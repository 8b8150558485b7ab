//! The cycle report: for each terminus file name, the set of distinct
//! readable paths that closed a cycle ending at that name. It accumulates
//! monotonically during one traversal run and is the run's result.

use vstd::prelude::*;
use crate::bytes::{bytes_eq, lines_eq, seq_views};
use vstd::assert_by_contradiction;

verus! {

/// One terminus name with the readable paths recorded for it.
#[derive(Debug)]
pub struct ReportEntry {
    pub file_name: Vec<u8>,
    pub paths: Vec<Vec<Vec<u8>>>,
}

/// Ghost image of a `ReportEntry`.
#[verifier::ext_equal]
pub ghost struct ReportEntryView {
    pub file_name: Seq<u8>,
    pub paths: Seq<Seq<Seq<u8>>>,
}

impl View for ReportEntry {
    type V = ReportEntryView;

    open spec fn view(&self) -> ReportEntryView {
        ReportEntryView {
            file_name: self.file_name@,
            paths: Seq::new(self.paths@.len(), |i: int| seq_views(self.paths@[i]@)),
        }
    }
}

/// The aggregated result of a traversal run.
#[derive(Debug)]
pub struct CycleReport {
    pub entries: Vec<ReportEntry>,
}

impl View for CycleReport {
    type V = Seq<ReportEntryView>;

    open spec fn view(&self) -> Seq<ReportEntryView> {
        seq_views(self.entries@)
    }
}

/// The report holds `path` under the terminus name `name`.
pub open spec fn has_path(rep: Seq<ReportEntryView>, name: Seq<u8>, path: Seq<Seq<u8>>) -> bool {
    exists|i: int|
        0 <= i < rep.len() && rep[i].file_name == name && rep[i].paths.contains(path)
}

/// The first entry at or after `j` bearing `name`.
pub open spec fn entry_index(rep: Seq<ReportEntryView>, name: Seq<u8>, j: int) -> Option<int>
    decreases rep.len() - j,
{
    if j < 0 || j >= rep.len() {
        None
    } else if rep[j].file_name == name {
        Some(j)
    } else {
        entry_index(rep, name, j + 1)
    }
}

/// What recording `path` under `name` does to the report: a new entry at
/// the end, one more path on the entry bearing the name, or — when that
/// entry already holds the path — nothing.
pub open spec fn report_insert(
    rep: Seq<ReportEntryView>,
    name: Seq<u8>,
    path: Seq<Seq<u8>>,
) -> Seq<ReportEntryView> {
    match entry_index(rep, name, 0) {
        None => rep.push(ReportEntryView { file_name: name, paths: seq![path] }),
        Some(i) => if rep[i].paths.contains(path) {
            rep
        } else {
            rep.update(i, ReportEntryView { file_name: name, paths: rep[i].paths.push(path) })
        },
    }
}

impl CycleReport {
    /// Well formed: no terminus name occurs twice, no entry is empty, and no
    /// entry holds the same path twice — the set semantics of the report.
    pub open spec fn wf(&self) -> bool {
        &&& forall|i: int, j: int|
            0 <= i < j < self@.len() ==> self@[i].file_name != self@[j].file_name
        &&& forall|i: int| 0 <= i < self@.len() ==> self@[i].paths.len() > 0
        &&& forall|i: int, a: int, b: int|
            0 <= i < self@.len() && 0 <= a < b < self@[i].paths.len() ==> self@[i].paths[a]
                != self@[i].paths[b]
    }

    /// An empty report.
    pub fn new() -> (r: CycleReport)
        ensures
            r.wf(),
            r@.len() == 0,
    {
        CycleReport { entries: Vec::new() }
    }

    /// Records `path` under the terminus `name`; a path already recorded
    /// under that name is not recorded twice.
    #[verifier::loop_isolation(false)]
    pub fn insert(&mut self, name: Vec<u8>, path: Vec<Vec<u8>>)
        requires
            old(self).wf(),
        ensures
            final(self).wf(),
            final(self)@ == report_insert(old(self)@, name@, seq_views(path@)),
            forall|n: Seq<u8>, p: Seq<Seq<u8>>|
                has_path(final(self)@, n, p) <==> (has_path(old(self)@, n, p) || (n == name@ && p
                    == seq_views(path@))),
    {
        let ghost pre = self@;
        let mut i: usize = 0;
        while i < self.entries.len()
            invariant
                self@ == pre,
                i <= self.entries@.len(),
                forall|k: int| 0 <= k < i ==> self@[k].file_name != name@,
                entry_index(pre, name@, 0) == entry_index(pre, name@, i as int),
            decreases self.entries@.len() - i,
        {
            assert(self@[i as int] == self.entries@[i as int]@);
            if bytes_eq(&self.entries[i].file_name, &name) {
                assert(entry_index(pre, name@, 0) == Some(i as int));
                let mut j: usize = 0;
                while j < self.entries[i].paths.len()
                    invariant
                        self@ == pre,
                        i < self.entries@.len(),
                        self@[i as int].file_name == name@,
                        j <= self.entries@[i as int].paths@.len(),
                        forall|k: int|
                            0 <= k < j ==> self@[i as int].paths[k] != seq_views(path@),
                    decreases self.entries@[i as int].paths@.len() - j,
                {
                    assert(self@[i as int].paths[j as int] == seq_views(
                        self.entries@[i as int].paths@[j as int]@,
                    ));
                    if lines_eq(&self.entries[i].paths[j], &path) {
                        proof {
                            assert(self@[i as int].paths.contains(seq_views(path@)));
                            assert(has_path(self@, name@, seq_views(path@)));
                            assert(self@ == report_insert(pre, name@, seq_views(path@)));
                        }
                        return ;
                    }
                    j += 1;
                }
                let ghost entry_pre = self@[i as int];
                proof {
                    assert_by_contradiction!(!entry_pre.paths.contains(seq_views(path@)), {
                        let x = choose|x: int|
                            0 <= x < entry_pre.paths.len() && entry_pre.paths[x] == seq_views(
                                path@,
                            );
                    });
                }
                self.entries[i].paths.push(path);
                proof {
                    let post = self@;
                    assert(post[i as int].paths =~= entry_pre.paths.push(seq_views(path@)));
                    assert(post =~~= report_insert(pre, name@, seq_views(path@)));
                    assert forall|k: int| 0 <= k < post.len() && k != i implies post[k] == pre[k]
                    by {}
                    assert(post[i as int].file_name == name@);
                    assert forall|n: Seq<u8>, p: Seq<Seq<u8>>|
                        has_path(post, n, p) implies (has_path(pre, n, p) || (n == name@ && p
                        == seq_views(path@))) by {
                        let w = choose|w: int|
                            0 <= w < post.len() && post[w].file_name == n && post[w].paths.contains(
                                p,
                            );
                        if w != i {
                            assert(has_path(pre, n, p));
                        } else {
                            let x = choose|x: int|
                                0 <= x < post[i as int].paths.len() && post[i as int].paths[x]
                                    == p;
                            if x < entry_pre.paths.len() {
                                assert(pre[i as int].paths.contains(p));
                                assert(has_path(pre, n, p));
                            }
                        }
                    }
                    assert forall|n: Seq<u8>, p: Seq<Seq<u8>>|
                        (has_path(pre, n, p) || (n == name@ && p == seq_views(path@))) implies
                        has_path(post, n, p) by {
                        if has_path(pre, n, p) {
                            let w = choose|w: int|
                                0 <= w < pre.len() && pre[w].file_name == n
                                    && pre[w].paths.contains(p);
                            if w == i {
                                let x = choose|x: int|
                                    0 <= x < pre[i as int].paths.len() && pre[i as int].paths[x]
                                        == p;
                                assert(post[i as int].paths[x] == p);
                            }
                            assert(post[w].paths.contains(p));
                        } else {
                            assert(post[i as int].paths[entry_pre.paths.len() as int]
                                == seq_views(path@));
                            assert(post[i as int].paths.contains(seq_views(path@)));
                        }
                    }
                }
                return ;
            }
            i += 1;
        }
        let entry = ReportEntry { file_name: name, paths: vec![path] };
        proof {
            assert(entry@.paths =~= seq![seq_views(path@)]);
        }
        proof {
            assert(entry_index(pre, name@, i as int) is None);
        }
        self.entries.push(entry);
        proof {
            let post = self@;
            assert(post =~= pre.push(entry@));
            assert(post =~~= report_insert(pre, name@, seq_views(path@)));
            assert(post[pre.len() as int].paths[0] == seq_views(path@));
            assert(post[pre.len() as int].paths.contains(seq_views(path@)));
            assert forall|n: Seq<u8>, p: Seq<Seq<u8>>|
                has_path(post, n, p) implies (has_path(pre, n, p) || (n == entry@.file_name && p
                == seq_views(path@))) by {
                let w = choose|w: int|
                    0 <= w < post.len() && post[w].file_name == n && post[w].paths.contains(p);
                if w < pre.len() {
                    assert(has_path(pre, n, p));
                } else {
                    assert(post[w] == entry@);
                    let x = choose|x: int|
                        0 <= x < entry@.paths.len() && entry@.paths[x] == p;
                    assert(p == seq_views(path@));
                }
            }
            assert forall|n: Seq<u8>, p: Seq<Seq<u8>>|
                (has_path(pre, n, p) || (n == entry@.file_name && p == seq_views(path@)))
                implies has_path(post, n, p) by {
                if has_path(pre, n, p) {
                    let w = choose|w: int|
                        0 <= w < pre.len() && pre[w].file_name == n && pre[w].paths.contains(p);
                    assert(post[w].paths.contains(p));
                }
            }
        }
    }
}

} // verus!
