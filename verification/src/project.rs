//! The module index and the file catalog: the ordered list of modules with
//! their candidate include directories, derived from the build descriptor,
//! and the path-keyed table of parsed files that every part of a run shares.

use vstd::prelude::*;
use crate::bytes::{
    bytes_eq, contains_bytes, contains_seq, copy_bytes, ends_with_seq, find_from, join_path,
    lex_le, rfind_seq, seq_views, without_bytes,
};
use crate::file_info::{module_names, parse_outcome, FileInfo, FileInfoView};
use crate::fsdata::{fs_at, fs_has, lemma_fs_at, FsData, FsEntryView};
use crate::markers::{
    anchor_marker, descriptor_name, includes_marker, intermediate_marker, private_suffix,
    public_suffix, ref_close_marker, ref_open_marker,
};
use crate::{RunError, RunErrorView};

verus! {

/// A logical code unit: its name and its candidate include directories, in
/// the order resolution probes them.
#[derive(Debug)]
pub struct Module {
    pub name: Vec<u8>,
    pub dirs: Vec<Vec<u8>>,
}

/// Ghost image of a `Module`.
pub ghost struct ModuleView {
    pub name: Seq<u8>,
    pub dirs: Seq<Seq<u8>>,
}

impl View for Module {
    type V = ModuleView;

    open spec fn view(&self) -> ModuleView {
        ModuleView { name: self.name@, dirs: seq_views(self.dirs@) }
    }
}

/// The views of a catalog's records.
pub open spec fn catalog_view(files: Seq<FileInfo>) -> Seq<FileInfoView> {
    seq_views(files)
}

/// The first index at or after `j` whose record's path is `path`.
pub open spec fn catalog_index(files: Seq<FileInfoView>, path: Seq<u8>, j: int) -> Option<int>
    decreases files.len() - j,
{
    if j < 0 || j >= files.len() {
        None
    } else if files[j].abs_path == path {
        Some(j)
    } else {
        catalog_index(files, path, j + 1)
    }
}

/// The first candidate directory at or after `k` whose joined path exists in
/// the snapshot, as that joined path.
pub open spec fn hit_in_dirs(
    dirs: Seq<Seq<u8>>,
    token: Seq<u8>,
    fs: Seq<FsEntryView>,
    k: int,
) -> Option<Seq<u8>>
    decreases dirs.len() - k,
{
    if k < 0 || k >= dirs.len() {
        None
    } else {
        let p = dirs[k] + seq![47u8] + token;
        if fs_has(fs, p) {
            Some(p)
        } else {
            hit_in_dirs(dirs, token, fs, k + 1)
        }
    }
}

/// The first hit across the modules at or after `j`, probing every
/// candidate directory of each module in list order and passing over the
/// module at `skip`.
pub open spec fn hit_in_modules(
    ms: Seq<ModuleView>,
    skip: Option<int>,
    token: Seq<u8>,
    fs: Seq<FsEntryView>,
    j: int,
) -> Option<Seq<u8>>
    decreases ms.len() - j,
{
    if j < 0 || j >= ms.len() {
        None
    } else if skip == Some(j) {
        hit_in_modules(ms, skip, token, fs, j + 1)
    } else {
        match hit_in_dirs(ms[j].dirs, token, fs, 0) {
            Some(p) => Some(p),
            None => hit_in_modules(ms, skip, token, fs, j + 1),
        }
    }
}

/// The first index at or after `j` whose module's name is `name`.
pub open spec fn module_index(ms: Seq<ModuleView>, name: Seq<u8>, j: int) -> Option<int>
    decreases ms.len() - j,
{
    if j < 0 || j >= ms.len() {
        None
    } else if ms[j].name == name {
        Some(j)
    } else {
        module_index(ms, name, j + 1)
    }
}

/// The path resolution finds for a raw token included from a module: first
/// every candidate directory of that module in stored order, then every
/// other module in list order — the first existing joined path wins; no hit
/// anywhere is an expected outcome, not an error.
pub open spec fn resolve_path(
    ms: Seq<ModuleView>,
    from: Seq<u8>,
    token: Seq<u8>,
    fs: Seq<FsEntryView>,
) -> Option<Seq<u8>> {
    match module_index(ms, from, 0) {
        None => hit_in_modules(ms, None, token, fs, 0),
        Some(oi) => match hit_in_dirs(ms[oi].dirs, token, fs, 0) {
            Some(p) => Some(p),
            None => hit_in_modules(ms, Some(oi), token, fs, 0),
        },
    }
}

/// What materializing `path` does to the catalog: the cached record's index
/// and the catalog unchanged; or the freshly parsed record appended; or the
/// error that aborts the run.
pub open spec fn materialize_model(
    files: Seq<FileInfoView>,
    ms: Seq<ModuleView>,
    fs: Seq<FsEntryView>,
    path: Seq<u8>,
) -> Result<(Seq<FileInfoView>, int), RunErrorView> {
    match catalog_index(files, path, 0) {
        Some(i) => Ok((files, i)),
        None => if !fs_has(fs, path) {
            Err(RunErrorView::Io(path))
        } else {
            match fs_at(fs, path).lines {
                None => Err(RunErrorView::Io(path)),
                Some(ls) => match parse_outcome(path, ls, module_names(ms)) {
                    Err(e) => Err(e),
                    Ok(f) => Ok((files.push(f), files.len() as int)),
                },
            }
        },
    }
}

/// What one resolution does: the catalog afterwards and the resolved
/// record's index, if the token resolved at all.
pub open spec fn get_file_model(
    files: Seq<FileInfoView>,
    ms: Seq<ModuleView>,
    fs: Seq<FsEntryView>,
    token: Seq<u8>,
    from: Seq<u8>,
) -> Result<(Seq<FileInfoView>, Option<int>), RunErrorView> {
    match resolve_path(ms, from, token, fs) {
        None => Ok((files, None)),
        Some(p) => match materialize_model(files, ms, fs, p) {
            Err(e) => Err(e),
            Ok((f2, i)) => Ok((f2, Some(i))),
        },
    }
}

/// The descriptor path a root line references: the text between the first
/// `include("` and the next `")` of the space-stripped line.
pub open spec fn line_ref(line: Seq<u8>) -> Option<Seq<u8>> {
    let s = without_bytes(line, 32, 32, 32);
    match find_from(s, ref_open_marker(), 0) {
        None => None,
        Some(i) => match find_from(s, ref_close_marker(), i + ref_open_marker().len()) {
            None => None,
            Some(j) => Some(s.subrange(i + ref_open_marker().len(), j)),
        },
    }
}

/// The candidate directory a module-declaration line yields: any line
/// holding a quote, space-stripped, with quotes, tabs and line feeds
/// removed.
pub open spec fn line_candidate(line: Seq<u8>) -> Option<Seq<u8>> {
    let s = without_bytes(line, 32, 32, 32);
    if contains_seq(s, seq![34u8]) {
        Some(without_bytes(s, 34, 9, 10))
    } else {
        None
    }
}

/// A trailing `/Public` or `/Private` removed: the two halves of a module's
/// header split fold into one logical module.
pub open spec fn strip_split(name: Seq<u8>) -> Seq<u8> {
    if ends_with_seq(name, public_suffix()) {
        name.subrange(0, name.len() - public_suffix().len())
    } else if ends_with_seq(name, private_suffix()) {
        name.subrange(0, name.len() - private_suffix().len())
    } else {
        name
    }
}

/// The module a retained candidate directory declares — the suffix from the
/// last occurrence of the anchor segment, split half stripped — or the
/// configuration error when the anchor is missing.
pub open spec fn candidate_module(dir: Seq<u8>) -> Result<Seq<u8>, RunErrorView> {
    match rfind_seq(dir, anchor_marker()) {
        None => Err(RunErrorView::Config(dir)),
        Some(i) => Ok(strip_split(dir.subrange(i, dir.len() as int))),
    }
}

/// The (module name, candidate directory) pairs of one module-declaration
/// file, in line order; a candidate holding `Intermediate` is build noise
/// and dropped.
pub open spec fn pairs_of_lines(lines: Seq<Seq<u8>>) -> Result<
    Seq<(Seq<u8>, Seq<u8>)>,
    RunErrorView,
>
    decreases lines.len(),
{
    if lines.len() == 0 {
        Ok(Seq::empty())
    } else {
        match pairs_of_lines(lines.drop_last()) {
            Err(e) => Err(e),
            Ok(rest) => match line_candidate(lines.last()) {
                None => Ok(rest),
                Some(dir) => if contains_seq(dir, intermediate_marker()) {
                    Ok(rest)
                } else {
                    match candidate_module(dir) {
                        Err(e) => Err(e),
                        Ok(name) => Ok(rest.push((name, dir))),
                    }
                },
            },
        }
    }
}

/// Every pair of the whole descriptor: each root line referencing a
/// module-declaration file — a referenced path holding `includes` —
/// contributes that file's pairs, in line order; a missing or unreadable
/// referenced file is fatal.
pub open spec fn gather_pairs(root_lines: Seq<Seq<u8>>, fs: Seq<FsEntryView>) -> Result<
    Seq<(Seq<u8>, Seq<u8>)>,
    RunErrorView,
>
    decreases root_lines.len(),
{
    if root_lines.len() == 0 {
        Ok(Seq::empty())
    } else {
        match gather_pairs(root_lines.drop_last(), fs) {
            Err(e) => Err(e),
            Ok(rest) => match line_ref(root_lines.last()) {
                None => Ok(rest),
                Some(p) => if !contains_seq(p, includes_marker()) {
                    Ok(rest)
                } else if !fs_has(fs, p) {
                    Err(RunErrorView::Config(p))
                } else {
                    match fs_at(fs, p).lines {
                        None => Err(RunErrorView::Config(p)),
                        Some(ls) => match pairs_of_lines(ls) {
                            Err(e) => Err(e),
                            Ok(ps) => Ok(rest + ps),
                        },
                    }
                },
            },
        }
    }
}

/// One pair folded into the module list: a new module at the end, or one
/// more candidate directory for a known one — each module's directories stay
/// an ordered set, duplicates dropped.
pub open spec fn add_pair(ms: Seq<ModuleView>, name: Seq<u8>, dir: Seq<u8>) -> Seq<ModuleView> {
    match module_index(ms, name, 0) {
        None => ms.push(ModuleView { name, dirs: seq![dir] }),
        Some(i) => if ms[i].dirs.contains(dir) {
            ms
        } else {
            ms.update(i, ModuleView { name, dirs: ms[i].dirs.push(dir) })
        },
    }
}

/// All pairs grouped by module name, modules in first-occurrence order.
pub open spec fn group_pairs(pairs: Seq<(Seq<u8>, Seq<u8>)>) -> Seq<ModuleView>
    decreases pairs.len(),
{
    if pairs.len() == 0 {
        Seq::empty()
    } else {
        add_pair(group_pairs(pairs.drop_last()), pairs.last().0, pairs.last().1)
    }
}

/// The order of the module list: shorter names first, equal lengths broken
/// lexicographically — a total order, so the sorted list is unique.
pub open spec fn name_le(a: Seq<u8>, b: Seq<u8>) -> bool {
    a.len() < b.len() || (a.len() == b.len() && lex_le(a, b))
}

/// `m` placed before the first element it does not follow in `name_le`.
pub open spec fn insert_sorted(ms: Seq<ModuleView>, m: ModuleView) -> Seq<ModuleView>
    decreases ms.len(),
{
    if ms.len() == 0 {
        seq![m]
    } else if name_le(m.name, ms[0].name) {
        seq![m] + ms
    } else {
        seq![ms[0]] + insert_sorted(ms.skip(1), m)
    }
}

/// The module list sorted by `name_le`: an insertion sort, element by
/// element, so the result is pinned exactly.
pub open spec fn sort_modules(ms: Seq<ModuleView>) -> Seq<ModuleView>
    decreases ms.len(),
{
    if ms.len() == 0 {
        ms
    } else {
        insert_sorted(sort_modules(ms.drop_last()), ms.last())
    }
}

/// Ascending by `name_le` throughout.
pub open spec fn modules_sorted(ms: Seq<ModuleView>) -> bool {
    forall|i: int, j: int| 0 <= i < j < ms.len() ==> name_le(ms[i].name, ms[j].name)
}

/// Some module of the list bears this name.
pub open spec fn has_name(ms: Seq<ModuleView>, name: Seq<u8>) -> bool {
    exists|i: int| 0 <= i < ms.len() && ms[i].name == name
}

/// No two modules of the list share a name.
pub open spec fn distinct_names(ms: Seq<ModuleView>) -> bool {
    forall|i: int, j: int| 0 <= i < j < ms.len() ==> ms[i].name != ms[j].name
}

/// What building the module index from the snapshot yields: the modules the
/// descriptor declares, grouped and sorted — or the configuration error.
pub open spec fn modules_model(fs: Seq<FsEntryView>, project_path: Seq<u8>) -> Result<
    Seq<ModuleView>,
    RunErrorView,
> {
    let dpath = project_path + seq![47u8] + descriptor_name();
    if !fs_has(fs, dpath) {
        Err(RunErrorView::Config(dpath))
    } else {
        match fs_at(fs, dpath).lines {
            None => Err(RunErrorView::Config(dpath)),
            Some(ls) => match gather_pairs(ls, fs) {
                Err(e) => Err(e),
                Ok(ps) => Ok(sort_modules(group_pairs(ps))),
            },
        }
    }
}

/// `name_le` relates every pair of names one way or the other.
pub proof fn lemma_name_le_total(a: Seq<u8>, b: Seq<u8>)
    ensures
        name_le(a, b) || name_le(b, a),
{
    crate::bytes::lemma_lex_le_total(a, b);
}

/// `name_le` is transitive.
pub proof fn lemma_name_le_trans(a: Seq<u8>, b: Seq<u8>, c: Seq<u8>)
    requires
        name_le(a, b),
        name_le(b, c),
    ensures
        name_le(a, c),
{
    if a.len() == b.len() && b.len() == c.len() {
        crate::bytes::lemma_lex_le_trans(a, b, c);
    }
}

/// A found module index lies inside the list and bears the name; a missing
/// one means no module at or after `j` bears it.
pub proof fn lemma_module_index(ms: Seq<ModuleView>, name: Seq<u8>, j: int)
    requires
        0 <= j,
    ensures
        module_index(ms, name, j) matches Some(i) ==> j <= i < ms.len() && ms[i].name == name,
        module_index(ms, name, j) is None ==> forall|k: int|
            j <= k < ms.len() ==> ms[k].name != name,
    decreases ms.len() - j,
{
    if 0 <= j < ms.len() && ms[j].name != name {
        lemma_module_index(ms, name, j + 1);
    }
}

/// Folding a pair in keeps names unique, and adds at most the pair's name.
pub proof fn lemma_add_pair_names(ms: Seq<ModuleView>, name: Seq<u8>, dir: Seq<u8>)
    requires
        distinct_names(ms),
    ensures
        distinct_names(add_pair(ms, name, dir)),
        forall|n: Seq<u8>|
            has_name(add_pair(ms, name, dir), n) <==> (has_name(ms, n) || n == name),
{
    lemma_module_index(ms, name, 0);
    let out = add_pair(ms, name, dir);
    match module_index(ms, name, 0) {
        None => {
            assert(out[ms.len() as int].name == name);
            assert forall|n: Seq<u8>| has_name(out, n) implies (has_name(ms, n) || n == name) by {
                let i = choose|i: int| 0 <= i < out.len() && out[i].name == n;
                if i < ms.len() {
                    assert(ms[i].name == n);
                }
            }
            assert forall|n: Seq<u8>| has_name(ms, n) || n == name implies has_name(out, n) by {
                if has_name(ms, n) {
                    let i = choose|i: int| 0 <= i < ms.len() && ms[i].name == n;
                    assert(out[i].name == n);
                }
            }
        },
        Some(i) => {
            assert(ms[i].name == name);
            assert forall|n: Seq<u8>| has_name(out, n) implies (has_name(ms, n) || n == name) by {
                let w = choose|w: int| 0 <= w < out.len() && out[w].name == n;
                assert(ms[w].name == n);
            }
            assert forall|n: Seq<u8>| has_name(ms, n) || n == name implies has_name(out, n) by {
                if has_name(ms, n) {
                    let w = choose|w: int| 0 <= w < ms.len() && ms[w].name == n;
                    assert(out[w].name == n);
                } else {
                    assert(out[i].name == name);
                }
            }
            assert forall|a: int, b: int|
                0 <= a < b < out.len() implies out[a].name != out[b].name by {
                assert(out[a].name == ms[a].name);
                assert(out[b].name == ms[b].name);
            }
        },
    }
}

/// Grouping yields unique module names.
pub proof fn lemma_group_distinct(pairs: Seq<(Seq<u8>, Seq<u8>)>)
    ensures
        distinct_names(group_pairs(pairs)),
    decreases pairs.len(),
{
    if pairs.len() > 0 {
        lemma_group_distinct(pairs.drop_last());
        lemma_add_pair_names(group_pairs(pairs.drop_last()), pairs.last().0, pairs.last().1);
    }
}

/// Placing an element keeps the list's names plus the new one, every
/// element is an old one or the new one, and order and uniqueness survive.
pub proof fn lemma_insert_sorted_props(ms: Seq<ModuleView>, m: ModuleView)
    requires
        modules_sorted(ms),
    ensures
        insert_sorted(ms, m).len() == ms.len() + 1,
        modules_sorted(insert_sorted(ms, m)),
        forall|k: int|
            0 <= k < insert_sorted(ms, m).len() ==> (#[trigger] insert_sorted(ms, m)[k] == m
                || ms.contains(insert_sorted(ms, m)[k])),
        forall|n: Seq<u8>| has_name(insert_sorted(ms, m), n) <==> (has_name(ms, n) || n == m.name),
        !has_name(ms, m.name) && distinct_names(ms) ==> distinct_names(insert_sorted(ms, m)),
    decreases ms.len(),
{
    let out = insert_sorted(ms, m);
    if ms.len() == 0 {
        assert forall|n: Seq<u8>| has_name(out, n) implies (has_name(ms, n) || n == m.name) by {
            let i = choose|i: int| 0 <= i < out.len() && out[i].name == n;
        }
        assert(out[0].name == m.name);
        assert(has_name(out, m.name));
    } else if name_le(m.name, ms[0].name) {
        assert(out == seq![m] + ms);
        assert forall|i: int, j: int|
            0 <= i < j < out.len() implies name_le(out[i].name, out[j].name) by {
            if i == 0 {
                assert(out[j] == ms[j - 1]);
                if j == 1 {
                } else {
                    assert(name_le(ms[0].name, ms[j - 1].name));
                    lemma_name_le_trans(m.name, ms[0].name, ms[j - 1].name);
                }
            }
        }
        assert forall|k: int| 0 <= k < out.len() implies (#[trigger] out[k] == m || ms.contains(
            out[k],
        )) by {
            if k > 0 {
                assert(out[k] == ms[k - 1]);
            }
        }
        assert forall|n: Seq<u8>| has_name(out, n) implies (has_name(ms, n) || n == m.name) by {
            let i = choose|i: int| 0 <= i < out.len() && out[i].name == n;
            if i > 0 {
                assert(ms[i - 1].name == n);
            }
        }
        assert forall|n: Seq<u8>| has_name(ms, n) || n == m.name implies has_name(out, n) by {
            if has_name(ms, n) {
                let i = choose|i: int| 0 <= i < ms.len() && ms[i].name == n;
                assert(out[i + 1].name == n);
            } else {
                assert(out[0].name == m.name);
            }
        }
        if !has_name(ms, m.name) && distinct_names(ms) {
            assert forall|a: int, b: int|
                0 <= a < b < out.len() implies out[a].name != out[b].name by {
                if a == 0 {
                    assert(out[b] == ms[b - 1]);
                    if out[0].name == out[b].name {
                        assert(has_name(ms, m.name));
                    }
                } else {
                    assert(out[a] == ms[a - 1]);
                    assert(out[b] == ms[b - 1]);
                }
            }
        }
    } else {
        lemma_name_le_total(m.name, ms[0].name);
        assert forall|i: int, j: int|
            0 <= i < j < ms.skip(1).len() implies name_le(ms.skip(1)[i].name, ms.skip(1)[j].name) by {
            assert(ms.skip(1)[i] == ms[i + 1]);
            assert(ms.skip(1)[j] == ms[j + 1]);
        }
        lemma_insert_sorted_props(ms.skip(1), m);
        let rec = insert_sorted(ms.skip(1), m);
        assert(out == seq![ms[0]] + rec);
        assert forall|i: int, j: int|
            0 <= i < j < out.len() implies name_le(out[i].name, out[j].name) by {
            if i == 0 {
                assert(out[j] == rec[j - 1]);
                if rec[j - 1] == m {
                    assert(name_le(ms[0].name, m.name));
                } else {
                    assert(ms.skip(1).contains(rec[j - 1]));
                    let w = choose|w: int|
                        0 <= w < ms.skip(1).len() && ms.skip(1)[w] == rec[j - 1];
                    assert(ms[w + 1] == rec[j - 1]);
                    assert(name_le(ms[0].name, ms[w + 1].name));
                }
            } else {
                assert(out[i] == rec[i - 1]);
                assert(out[j] == rec[j - 1]);
            }
        }
        assert forall|k: int| 0 <= k < out.len() implies (#[trigger] out[k] == m || ms.contains(
            out[k],
        )) by {
            if k == 0 {
                assert(ms[0] == out[0]);
                assert(ms.contains(ms[0]));
            } else {
                assert(out[k] == rec[k - 1]);
                if rec[k - 1] != m {
                    assert(ms.skip(1).contains(rec[k - 1]));
                    let w = choose|w: int|
                        0 <= w < ms.skip(1).len() && ms.skip(1)[w] == rec[k - 1];
                    assert(ms[w + 1] == rec[k - 1]);
                    assert(ms.contains(ms[w + 1]));
                }
            }
        }
        assert forall|n: Seq<u8>| has_name(out, n) implies (has_name(ms, n) || n == m.name) by {
            let i = choose|i: int| 0 <= i < out.len() && out[i].name == n;
            if i == 0 {
                assert(ms[0].name == n);
            } else {
                assert(rec[i - 1].name == n);
                assert(has_name(rec, n));
                if has_name(ms.skip(1), n) {
                    let w = choose|w: int| 0 <= w < ms.skip(1).len() && ms.skip(1)[w].name == n;
                    assert(ms[w + 1].name == n);
                }
            }
        }
        assert forall|n: Seq<u8>| has_name(ms, n) || n == m.name implies has_name(out, n) by {
            if n == m.name {
                assert(has_name(rec, n));
                let w = choose|w: int| 0 <= w < rec.len() && rec[w].name == n;
                assert(out[w + 1].name == n);
            } else {
                let i = choose|i: int| 0 <= i < ms.len() && ms[i].name == n;
                if i == 0 {
                    assert(out[0].name == n);
                } else {
                    assert(ms.skip(1)[i - 1].name == n);
                    assert(has_name(ms.skip(1), n));
                    assert(has_name(rec, n));
                    let w = choose|w: int| 0 <= w < rec.len() && rec[w].name == n;
                    assert(out[w + 1].name == n);
                }
            }
        }
        if !has_name(ms, m.name) && distinct_names(ms) {
            assert forall|n: Seq<u8>| has_name(ms.skip(1), n) implies has_name(ms, n) by {
                let w = choose|w: int| 0 <= w < ms.skip(1).len() && ms.skip(1)[w].name == n;
                assert(ms[w + 1].name == n);
            }
            assert forall|a: int, b: int|
                0 <= a < b < ms.skip(1).len() implies ms.skip(1)[a].name != ms.skip(1)[b].name by {
                assert(ms.skip(1)[a] == ms[a + 1]);
                assert(ms.skip(1)[b] == ms[b + 1]);
            }
            assert forall|a: int, b: int|
                0 <= a < b < out.len() implies out[a].name != out[b].name by {
                if a == 0 {
                    assert(out[b] == rec[b - 1]);
                    assert(has_name(rec, rec[b - 1].name)) by {
                        assert(rec[b - 1].name == rec[b - 1].name);
                    }
                    if out[0].name == out[b].name {
                        assert(has_name(rec, ms[0].name));
                        if has_name(ms.skip(1), ms[0].name) {
                            let w = choose|w: int|
                                0 <= w < ms.skip(1).len() && ms.skip(1)[w].name == ms[0].name;
                            assert(ms[w + 1].name == ms[0].name);
                        } else {
                            assert(ms[0].name == m.name);
                            assert(has_name(ms, m.name));
                        }
                    }
                } else {
                    assert(out[a] == rec[a - 1]);
                    assert(out[b] == rec[b - 1]);
                }
            }
        }
    }
}

/// A failure on a prefix of the lines is the failure of the whole file.
pub proof fn lemma_pairs_prefix_err(lines: Seq<Seq<u8>>, t: int)
    requires
        0 <= t <= lines.len(),
        pairs_of_lines(lines.subrange(0, t)) is Err,
    ensures
        pairs_of_lines(lines) == pairs_of_lines(lines.subrange(0, t)),
    decreases lines.len(),
{
    if t == lines.len() {
        assert(lines.subrange(0, t) =~= lines);
    } else {
        assert(lines.drop_last().subrange(0, t) =~= lines.subrange(0, t));
        lemma_pairs_prefix_err(lines.drop_last(), t);
    }
}

/// A failure on a prefix of the root lines is the failure of the whole
/// descriptor.
pub proof fn lemma_gather_prefix_err(root_lines: Seq<Seq<u8>>, fs: Seq<FsEntryView>, t: int)
    requires
        0 <= t <= root_lines.len(),
        gather_pairs(root_lines.subrange(0, t), fs) is Err,
    ensures
        gather_pairs(root_lines, fs) == gather_pairs(root_lines.subrange(0, t), fs),
    decreases root_lines.len(),
{
    if t == root_lines.len() {
        assert(root_lines.subrange(0, t) =~= root_lines);
    } else {
        assert(root_lines.drop_last().subrange(0, t) =~= root_lines.subrange(0, t));
        lemma_gather_prefix_err(root_lines.drop_last(), fs, t);
    }
}

/// Placing at the first position the element does not follow is exactly the
/// specified insertion.
pub proof fn lemma_insert_sorted_at(ms: Seq<ModuleView>, m: ModuleView, p: int)
    requires
        0 <= p <= ms.len(),
        forall|k: int| 0 <= k < p ==> !name_le(m.name, #[trigger] ms[k].name),
        p == ms.len() || name_le(m.name, ms[p].name),
    ensures
        insert_sorted(ms, m) == ms.insert(p, m),
    decreases ms.len(),
{
    if ms.len() == 0 {
        assert(insert_sorted(ms, m) =~= ms.insert(0, m));
    } else if p == 0 {
        assert(seq![m] + ms =~= ms.insert(0, m));
    } else {
        assert(!name_le(m.name, ms[0].name));
        assert forall|k: int| 0 <= k < p - 1 implies !name_le(m.name, #[trigger] ms.skip(1)[k].name) by {
            assert(ms.skip(1)[k] == ms[k + 1]);
        }
        if p - 1 < ms.skip(1).len() {
            assert(ms.skip(1)[p - 1] == ms[p as int]);
        }
        lemma_insert_sorted_at(ms.skip(1), m, p - 1);
        assert(seq![ms[0]] + ms.skip(1).insert(p - 1, m) =~= ms.insert(p, m));
    }
}

/// Sorting keeps the names, orders the list, and keeps unique names unique.
pub proof fn lemma_sort_modules_props(ms: Seq<ModuleView>)
    ensures
        sort_modules(ms).len() == ms.len(),
        modules_sorted(sort_modules(ms)),
        forall|n: Seq<u8>| has_name(sort_modules(ms), n) <==> has_name(ms, n),
        distinct_names(ms) ==> distinct_names(sort_modules(ms)),
    decreases ms.len(),
{
    if ms.len() > 0 {
        lemma_sort_modules_props(ms.drop_last());
        let s = sort_modules(ms.drop_last());
        lemma_insert_sorted_props(s, ms.last());
        assert forall|n: Seq<u8>| has_name(ms.drop_last(), n) implies has_name(ms, n) by {
            let w = choose|w: int| 0 <= w < ms.drop_last().len() && ms.drop_last()[w].name == n;
            assert(ms[w].name == n);
        }
        assert forall|n: Seq<u8>| has_name(ms, n) implies has_name(
            sort_modules(ms),
            n,
        ) by {
            let w = choose|w: int| 0 <= w < ms.len() && ms[w].name == n;
            if w < ms.len() - 1 {
                assert(ms.drop_last()[w].name == n);
                assert(has_name(ms.drop_last(), n));
            }
        }
        if distinct_names(ms) {
            assert forall|a: int, b: int|
                0 <= a < b < ms.drop_last().len() implies ms.drop_last()[a].name
                != ms.drop_last()[b].name by {
                assert(ms.drop_last()[a] == ms[a]);
                assert(ms.drop_last()[b] == ms[b]);
            }
            if has_name(s, ms.last().name) {
                assert(has_name(ms.drop_last(), ms.last().name));
                let w = choose|w: int|
                    0 <= w < ms.drop_last().len() && ms.drop_last()[w].name == ms.last().name;
                assert(ms[w].name == ms[ms.len() - 1].name);
                assert(false);
            }
        }
    }
}

/// The number of processed records in a catalog. Each record's flag flips
/// from false to true at most once, so this count drives termination of the
/// traversal.
pub open spec fn count_processed(files: Seq<FileInfoView>) -> int
    decreases files.len(),
{
    if files.len() == 0 {
        0
    } else {
        count_processed(files.drop_last()) + if files.last().processed {
            1int
        } else {
            0int
        }
    }
}

/// The processed count lies between zero and the catalog's size.
pub proof fn lemma_count_bounds(files: Seq<FileInfoView>)
    ensures
        0 <= count_processed(files) <= files.len(),
    decreases files.len(),
{
    if files.len() > 0 {
        lemma_count_bounds(files.drop_last());
    }
}

/// Appending only unprocessed records leaves the processed count unchanged.
pub proof fn lemma_count_extend(f1: Seq<FileInfoView>, f2: Seq<FileInfoView>)
    requires
        f1.len() <= f2.len(),
        forall|k: int| 0 <= k < f1.len() ==> f2[k] == f1[k],
        forall|k: int| f1.len() <= k < f2.len() ==> !f2[k].processed,
    ensures
        count_processed(f2) == count_processed(f1),
    decreases f2.len(),
{
    if f2.len() > f1.len() {
        lemma_count_extend(f1, f2.drop_last());
    } else {
        assert(f2 =~= f1);
    }
}

/// Flipping one unprocessed record to processed raises the count by one.
pub proof fn lemma_count_mark(files: Seq<FileInfoView>, i: int, v: FileInfoView)
    requires
        0 <= i < files.len(),
        !files[i].processed,
        v.processed,
    ensures
        count_processed(files.update(i, v)) == count_processed(files) + 1,
    decreases files.len(),
{
    if i == files.len() - 1 {
        assert(files.update(i, v).drop_last() =~= files.drop_last());
        assert(files.update(i, v).last() == v);
    } else {
        assert(files.update(i, v).drop_last() =~= files.drop_last().update(i, v));
        assert(files.update(i, v).last() == files.last());
        lemma_count_mark(files.drop_last(), i, v);
    }
}

/// A catalog whose paths are unique keys, each existing in the snapshot, can
/// never outgrow the snapshot.
pub proof fn lemma_catalog_bound(files: Seq<FileInfoView>, fs: Seq<FsEntryView>)
    requires
        forall|i: int, j: int| 0 <= i < j < files.len() ==> files[i].abs_path != files[j].abs_path,
        forall|i: int| 0 <= i < files.len() ==> fs_has(fs, #[trigger] files[i].abs_path),
    ensures
        files.len() <= fs.len(),
{
    broadcast use vstd::seq_lib::seq_to_set_is_finite;

    let paths = Seq::new(files.len(), |i: int| files[i].abs_path);
    let fs_paths = Seq::new(fs.len(), |i: int| fs[i].path);
    assert(paths.no_duplicates());
    paths.unique_seq_to_set();
    fs_paths.lemma_cardinality_of_set();
    assert forall|p: Seq<u8>| paths.to_set().contains(p) implies fs_paths.to_set().contains(p) by {
        let i = choose|i: int| 0 <= i < paths.len() && paths[i] == p;
        assert(fs_has(fs, files[i].abs_path));
        let k = choose|k: int| 0 <= k < fs.len() && fs[k].path == p;
        assert(fs_paths[k] == p);
    }
    vstd::set_lib::lemma_len_subset(paths.to_set(), fs_paths.to_set());
}

/// A list of valid indices with pairwise distinct values cannot be longer
/// than the range it draws from.
pub proof fn lemma_distinct_indices_bound(path: Seq<usize>, n: int)
    requires
        forall|k: int| 0 <= k < path.len() ==> path[k] < n,
        forall|a: int, b: int| 0 <= a < b < path.len() ==> path[a] != path[b],
        0 <= n,
    ensures
        path.len() <= n,
{
    broadcast use vstd::seq_lib::seq_to_set_is_finite;

    let ipath = Seq::new(path.len(), |k: int| path[k] as int);
    assert(ipath.no_duplicates());
    ipath.unique_seq_to_set();
    let range = vstd::set_lib::set_int_range(0, n);
    vstd::set_lib::lemma_int_range(0, n);
    assert forall|x: int| ipath.to_set().contains(x) implies range.contains(x) by {
        let k = choose|k: int| 0 <= k < ipath.len() && ipath[k] == x;
        assert(path[k] < n);
    }
    vstd::set_lib::lemma_len_subset(ipath.to_set(), range);
}

/// A resolution hit is a path that exists in the snapshot.
pub proof fn lemma_hit_exists(
    ms: Seq<ModuleView>,
    skip: Option<int>,
    token: Seq<u8>,
    fs: Seq<FsEntryView>,
    j: int,
)
    ensures
        hit_in_modules(ms, skip, token, fs, j) matches Some(p) ==> fs_has(fs, p),
    decreases ms.len() - j,
{
    if 0 <= j < ms.len() {
        lemma_hit_exists(ms, skip, token, fs, j + 1);
        lemma_hit_in_dirs_exists(ms[j].dirs, token, fs, 0);
    }
}

/// A per-directory hit is a path that exists in the snapshot.
pub proof fn lemma_hit_in_dirs_exists(
    dirs: Seq<Seq<u8>>,
    token: Seq<u8>,
    fs: Seq<FsEntryView>,
    k: int,
)
    ensures
        hit_in_dirs(dirs, token, fs, k) matches Some(p) ==> fs_has(fs, p),
    decreases dirs.len() - k,
{
    if 0 <= k < dirs.len() {
        lemma_hit_in_dirs_exists(dirs, token, fs, k + 1);
    }
}

/// What resolution finds exists in the snapshot.
pub proof fn lemma_resolve_exists(
    ms: Seq<ModuleView>,
    from: Seq<u8>,
    token: Seq<u8>,
    fs: Seq<FsEntryView>,
)
    ensures
        resolve_path(ms, from, token, fs) matches Some(p) ==> fs_has(fs, p),
{
    lemma_hit_exists(ms, None, token, fs, 0);
    match module_index(ms, from, 0) {
        Some(oi) => {
            lemma_hit_exists(ms, Some(oi), token, fs, 0);
            lemma_hit_in_dirs_exists(ms[oi].dirs, token, fs, 0);
        },
        None => {},
    }
}

/// One resolution only appends to the catalog, and appends only unprocessed
/// records; a failing one names a snapshot entry that cannot be parsed.
pub proof fn lemma_get_file_model_frame(
    files: Seq<FileInfoView>,
    ms: Seq<ModuleView>,
    fs: Seq<FsEntryView>,
    token: Seq<u8>,
    from: Seq<u8>,
)
    ensures
        match get_file_model(files, ms, fs, token, from) {
            Ok((f2, oi)) => files.len() <= f2.len() && (forall|k: int|
                0 <= k < files.len() ==> f2[k] == files[k]) && (forall|k: int|
                files.len() <= k < f2.len() ==> !f2[k].processed) && match oi {
                Some(i) => 0 <= i < f2.len(),
                None => f2 == files,
            },
            Err(_) => !crate::file_info::fs_parseable(fs, module_names(ms)),
        },
{
    lemma_resolve_exists(ms, from, token, fs);
    match resolve_path(ms, from, token, fs) {
        None => {},
        Some(p) => {
            match catalog_index(files, p, 0) {
                Some(i) => {
                    lemma_catalog_index_in_range(files, p, 0);
                },
                None => {
                    let e = choose|i: int| 0 <= i < fs.len() && fs[i].path == p;
                    let entry = fs_at(fs, p);
                    assert(fs[e].path == p);
                    assert(fs.contains(fs[e]));
                    match entry.lines {
                        None => {
                            let w = choose|i: int|
                                0 <= i < fs.len() && fs[i].path == p;
                            assert(!crate::file_info::entry_parseable(fs[w], module_names(ms)));
                        },
                        Some(ls) => {
                            match parse_outcome(p, ls, module_names(ms)) {
                                Err(_) => {
                                    let w = choose|i: int|
                                        0 <= i < fs.len() && fs[i].path == p;
                                    assert(!crate::file_info::entry_parseable(
                                        fs[w],
                                        module_names(ms),
                                    ));
                                },
                                Ok(f) => {},
                            }
                        },
                    }
                },
            }
        },
    }
}

/// A found catalog index lies inside the catalog.
pub proof fn lemma_catalog_index_in_range(files: Seq<FileInfoView>, path: Seq<u8>, j: int)
    ensures
        catalog_index(files, path, j) matches Some(i) ==> j <= i < files.len() && files[i].abs_path
            == path,
    decreases files.len() - j,
{
    if 0 <= j < files.len() && files[j].abs_path != path {
        lemma_catalog_index_in_range(files, path, j + 1);
    }
}

/// The whole state of one run over one source tree: the module index, built
/// once, and the shared file catalog, grown on demand.
#[derive(Debug)]
pub struct Project {
    pub root_path: Vec<u8>,
    pub modules: Vec<Module>,
    pub files: Vec<FileInfo>,
}

/// Whether `a` comes at or before `b` in the module order.
fn name_le_exec(a: &Vec<u8>, b: &Vec<u8>) -> (r: bool)
    ensures
        r == name_le(a@, b@),
{
    if a.len() < b.len() {
        true
    } else if a.len() == b.len() {
        crate::bytes::lex_le_bytes(a, b)
    } else {
        false
    }
}

impl Project {
    /// Builds the module index from the build descriptor at the project
    /// root: each referenced module-declaration file is read, its quoted
    /// candidate directories are grouped by derived module name, and the
    /// modules are sorted ascending by name length, ties broken
    /// lexicographically. The catalog starts empty.
    #[verifier::loop_isolation(false)]
    #[verifier::rlimit(30)]
    pub fn create(project_path: &Vec<u8>, fs: &FsData) -> (r: Result<Project, RunError>)
        requires
            fs.wf(),
        ensures
            match modules_model(fs@, project_path@) {
                Ok(msv) => r matches Ok(p) && p.root_path@ == project_path@ && seq_views(
                    p.modules@,
                ) == msv && p.files@.len() == 0 && p.wf(fs@) && modules_sorted(
                    seq_views(p.modules@),
                ),
                Err(e) => r matches Err(er) && er@ == e,
            },
    {
        let dpath = join_path(project_path, &crate::markers::descriptor_name_vec());
        let di = match fs.find(&dpath) {
            Some(i) => i,
            None => {
                return Err(RunError::Config(dpath));
            },
        };
        proof {
            lemma_fs_at(fs@, dpath@, di as int);
        }
        let root_lines = match &fs.entries[di].lines {
            Some(ls) => ls,
            None => {
                return Err(RunError::Config(dpath));
            },
        };
        let ghost rl = seq_views(root_lines@);
        proof {
            assert(fs_at(fs@, dpath@).lines == Some(rl));
            assert(rl.subrange(0, 0) =~= Seq::<Seq<u8>>::empty());
        }

        let open_marker = crate::markers::ref_open_marker_vec();
        let close_marker = crate::markers::ref_close_marker_vec();
        let includes_m = crate::markers::includes_marker_vec();
        let intermediate_m = crate::markers::intermediate_marker_vec();
        let anchor = crate::markers::anchor_marker_vec();
        let pub_suffix = crate::markers::public_suffix_vec();
        let priv_suffix = crate::markers::private_suffix_vec();
        let quote: Vec<u8> = vec![34];
        proof {
            assert(quote@ =~= seq![34u8]);
        }

        let mut grouped: Vec<Module> = Vec::new();
        let ghost mut pairs: Seq<(Seq<u8>, Seq<u8>)> = Seq::empty();
        let mut li: usize = 0;
        while li < root_lines.len()
            invariant
                li <= rl.len(),
                rl.len() == root_lines@.len(),
                gather_pairs(rl.subrange(0, li as int), fs@) == Ok::<
                    Seq<(Seq<u8>, Seq<u8>)>,
                    RunErrorView,
                >(pairs),
                seq_views(grouped@) == group_pairs(pairs),
            decreases rl.len() - li,
        {
            proof {
                assert(rl.subrange(0, li + 1).drop_last() =~= rl.subrange(0, li as int));
                assert(rl.subrange(0, li + 1).last() == root_lines@[li as int]@);
            }
            let line = &root_lines[li];
            let s = crate::bytes::strip_bytes(line, 32, 32, 32);
            let slen = s.len();
            let mut refpath_opt: Option<Vec<u8>> = None;
            match crate::bytes::find_bytes_from(&s, &open_marker, 0) {
                None => {},
                Some(i) => {
                    assert(i + open_marker@.len() <= slen);
                    let start = i + open_marker.len();
                    match crate::bytes::find_bytes_from(&s, &close_marker, start) {
                        None => {},
                        Some(j) => {
                            refpath_opt = Some(crate::bytes::subrange_vec(&s, start, j));
                        },
                    }
                },
            }
            match refpath_opt {
                None => {
                    assert(line_ref(rl[li as int]) is None);
                },
                Some(refpath) => {
                    assert(line_ref(rl[li as int]) == Some(refpath@));
                    if contains_bytes(&refpath, &includes_m) {
                        let si_entry = match fs.find(&refpath) {
                            Some(e) => e,
                            None => {
                                proof {
                                    lemma_gather_prefix_err(rl, fs@, li + 1);
                                }
                                return Err(RunError::Config(refpath));
                            },
                        };
                        proof {
                            lemma_fs_at(fs@, refpath@, si_entry as int);
                        }
                        let sec_lines = match &fs.entries[si_entry].lines {
                            Some(ls) => ls,
                            None => {
                                proof {
                                    lemma_gather_prefix_err(rl, fs@, li + 1);
                                }
                                return Err(RunError::Config(refpath));
                            },
                        };
                        let ghost sl = seq_views(sec_lines@);
                        proof {
                            assert(fs_at(fs@, refpath@).lines == Some(sl));
                            assert(sl.subrange(0, 0) =~= Seq::<Seq<u8>>::empty());
                        }
                        let ghost mut sec_pairs: Seq<(Seq<u8>, Seq<u8>)> = Seq::empty();
                        let mut si: usize = 0;
                        while si < sec_lines.len()
                            invariant
                                si <= sl.len(),
                                sl.len() == sec_lines@.len(),
                                pairs_of_lines(sl.subrange(0, si as int)) == Ok::<
                                    Seq<(Seq<u8>, Seq<u8>)>,
                                    RunErrorView,
                                >(sec_pairs),
                                seq_views(grouped@) == group_pairs(pairs + sec_pairs),
                            decreases sl.len() - si,
                        {
                            proof {
                                assert(sl.subrange(0, si + 1).drop_last() =~= sl.subrange(
                                    0,
                                    si as int,
                                ));
                                assert(sl.subrange(0, si + 1).last() == sec_lines@[si as int]@);
                            }
                            let sline = &sec_lines[si];
                            let ss = crate::bytes::strip_bytes(sline, 32, 32, 32);
                            if contains_bytes(&ss, &quote) {
                                let cand = crate::bytes::strip_bytes(&ss, 34, 9, 10);
                                assert(line_candidate(sl[si as int]) == Some(cand@));
                                if !contains_bytes(&cand, &intermediate_m) {
                                    let anchor_at = match crate::bytes::rfind_bytes(&cand, &anchor) {
                                        Some(i) => i,
                                        None => {
                                            proof {
                                                lemma_pairs_prefix_err(sl, si + 1);
                                                lemma_gather_prefix_err(rl, fs@, li + 1);
                                            }
                                            return Err(RunError::Config(cand));
                                        },
                                    };
                                    let name0 = crate::bytes::subrange_vec(
                                        &cand,
                                        anchor_at,
                                        cand.len(),
                                    );
                                    let name: Vec<u8>;
                                    if crate::bytes::ends_with(&name0, &pub_suffix) {
                                        name = crate::bytes::subrange_vec(
                                            &name0,
                                            0,
                                            name0.len() - pub_suffix.len(),
                                        );
                                    } else if crate::bytes::ends_with(&name0, &priv_suffix) {
                                        name = crate::bytes::subrange_vec(
                                            &name0,
                                            0,
                                            name0.len() - priv_suffix.len(),
                                        );
                                    } else {
                                        name = name0;
                                    }
                                    assert(candidate_module(cand@) == Ok::<Seq<u8>, RunErrorView>(
                                        name@,
                                    ));

                                    // Fold the pair into the grouped modules.
                                    let ghost grouped0 = seq_views(grouped@);
                                    let mut mi: Option<usize> = None;
                                    let mut gj: usize = 0;
                                    while gj < grouped.len() && mi.is_none()
                                        invariant
                                            gj <= grouped0.len(),
                                            grouped0.len() == grouped@.len(),
                                            seq_views(grouped@) == grouped0,
                                            match mi {
                                                None => module_index(grouped0, name@, 0)
                                                    == module_index(grouped0, name@, gj as int),
                                                Some(g) => g < grouped0.len() && module_index(
                                                    grouped0,
                                                    name@,
                                                    0,
                                                ) == Some(g as int),
                                            },
                                        decreases grouped0.len() - gj,
                                    {
                                        assert(grouped0[gj as int] == grouped@[gj as int]@);
                                        if bytes_eq(&grouped[gj].name, &name) {
                                            mi = Some(gj);
                                        }
                                        gj += 1;
                                    }
                                    match mi {
                                        None => {
                                            assert(module_index(grouped0, name@, 0) is None);
                                            let dirs: Vec<Vec<u8>> = vec![cand];
                                            let m = Module { name, dirs };
                                            proof {
                                                assert(m@.dirs =~= seq![
                                                    line_candidate(sl[si as int]).unwrap(),
                                                ]);
                                                crate::bytes::lemma_seq_views_push(grouped@, m);
                                            }
                                            grouped.push(m);
                                        },
                                        Some(g) => {
                                            proof {
                                                lemma_module_index(grouped0, name@, 0);
                                            }
                                            assert(grouped0[g as int].name == name@);
                                            let mut have_dir = false;
                                            let mut dk: usize = 0;
                                            let ghost dirs0 = grouped0[g as int].dirs;
                                            while dk < grouped[g].dirs.len() && !have_dir
                                                invariant
                                                    g < grouped@.len(),
                                                    seq_views(grouped@) == grouped0,
                                                    dirs0 == grouped0[g as int].dirs,
                                                    dk <= dirs0.len(),
                                                    dirs0.len() == grouped@[g as int].dirs@.len(),
                                                    have_dir ==> dirs0.contains(cand@),
                                                    !have_dir ==> forall|w: int|
                                                        0 <= w < dk ==> dirs0[w] != cand@,
                                                decreases
                                                        dirs0.len() - dk + (if have_dir {
                                                            0int
                                                        } else {
                                                            1int
                                                        }),
                                            {
                                                assert(dirs0[dk as int] == grouped@[g as int].dirs@[dk as int]@);
                                                if bytes_eq(&grouped[g].dirs[dk], &cand) {
                                                    have_dir = true;
                                                } else {
                                                    dk += 1;
                                                }
                                            }
                                            if !have_dir {
                                                assert(!dirs0.contains(cand@));
                                                let ghost gpre = grouped@;
                                                proof {
                                                    crate::bytes::lemma_seq_views_push(
                                                        grouped@[g as int].dirs@,
                                                        cand,
                                                    );
                                                }
                                                grouped[g].dirs.push(cand);
                                                proof {
                                                    assert(seq_views(grouped@) =~= grouped0.update(
                                                        g as int,
                                                        ModuleView {
                                                            name: grouped0[g as int].name,
                                                            dirs: grouped0[g as int].dirs.push(
                                                                cand@,
                                                            ),
                                                        },
                                                    ));
                                                }
                                            } else {
                                                assert(dirs0.contains(cand@));
                                                assert(seq_views(grouped@) =~= add_pair(
                                                    grouped0,
                                                    name@,
                                                    cand@,
                                                ));
                                            }
                                        },
                                    }
                                    proof {
                                        assert(seq_views(grouped@) == add_pair(
                                            grouped0,
                                            name@,
                                            cand@,
                                        ));
                                        let ghost old_sec = sec_pairs;
                                        sec_pairs = sec_pairs.push((name@, cand@));
                                        assert((pairs + sec_pairs).drop_last() =~= pairs
                                            + old_sec);
                                        assert((pairs + sec_pairs).last() == (name@, cand@));
                                        assert(seq_views(grouped@) == group_pairs(
                                            pairs + sec_pairs,
                                        ));
                                    }
                                }
                            } else {
                                assert(line_candidate(sl[si as int]) is None);
                            }
                            si += 1;
                        }
                        proof {
                            assert(sl.subrange(0, sl.len() as int) =~= sl);
                            pairs = pairs + sec_pairs;
                        }
                    }
                },
            }
            li += 1;
        }
        proof {
            assert(rl.subrange(0, rl.len() as int) =~= rl);
        }

        // Sort the grouped modules: shortest names first, the precedence
        // the file-to-module lookup and the resolver fallback rely on.
        let ghost gview = seq_views(grouped@);
        proof {
            lemma_group_distinct(pairs);
            assert(gview.subrange(0, 0) =~= Seq::<ModuleView>::empty());
        }
        let mut sorted_ms: Vec<Module> = Vec::new();
        let ghost mut done: int = 0;
        while grouped.len() > 0
            invariant
                0 <= done <= gview.len(),
                done + grouped@.len() == gview.len(),
                seq_views(grouped@) =~= gview.subrange(done, gview.len() as int),
                seq_views(sorted_ms@) == sort_modules(gview.subrange(0, done)),
            decreases grouped@.len(),
        {
            proof {
                lemma_sort_modules_props(gview.subrange(0, done));
            }
            let ghost sview = seq_views(sorted_ms@);
            let ghost gpre = grouped@;
            let m = grouped.remove(0);
            proof {
                assert(m@ == seq_views(gpre)[0]);
                assert(m@ == gview[done]);
                assert forall|k: int| 0 <= k < grouped@.len() implies seq_views(grouped@)[k]
                    == gview.subrange(done + 1, gview.len() as int)[k] by {
                    assert(grouped@[k] == gpre[k + 1]);
                    assert(seq_views(gpre)[k + 1] == gpre[k + 1]@);
                }
                assert(seq_views(grouped@) =~= gview.subrange(done + 1, gview.len() as int));
            }
            let mut p: usize = 0;
            while p < sorted_ms.len() && !name_le_exec(&m.name, &sorted_ms[p].name)
                invariant
                    seq_views(sorted_ms@) == sview,
                    p <= sview.len(),
                    sview.len() == sorted_ms@.len(),
                    forall|k: int| 0 <= k < p ==> !name_le(m@.name, #[trigger] sview[k].name),
                decreases sview.len() - p,
            {
                assert(sview[p as int] == sorted_ms@[p as int]@);
                p += 1;
            }
            proof {
                if p < sview.len() {
                    assert(sview[p as int] == sorted_ms@[p as int]@);
                }
                lemma_insert_sorted_at(sview, m@, p as int);
            }
            sorted_ms.insert(p, m);
            proof {
                assert(seq_views(sorted_ms@) =~= sview.insert(p as int, m@));
                assert(gview.subrange(0, done + 1).drop_last() =~= gview.subrange(0, done));
                assert(gview.subrange(0, done + 1).last() == gview[done]);
                done = done + 1;
            }
        }
        proof {
            assert(gview.subrange(0, done) =~= gview);
            lemma_sort_modules_props(gview);
        }

        let result = Project {
            root_path: copy_bytes(project_path),
            modules: sorted_ms,
            files: Vec::new(),
        };
        proof {
            assert forall|i: int, j: int|
                0 <= i < j < result.modules@.len() implies result.modules@[i]@.name
                != result.modules@[j]@.name by {
                assert(seq_views(result.modules@)[i] == result.modules@[i]@);
                assert(seq_views(result.modules@)[j] == result.modules@[j]@);
            }
        }
        Ok(result)
    }

    /// The catalog is sound against the snapshot: paths are unique keys,
    /// every record's path exists in the snapshot, and every record's file
    /// name is derived from its path. Module names are unique.
    pub open spec fn wf(&self, fs: Seq<FsEntryView>) -> bool {
        &&& forall|i: int, j: int|
            0 <= i < j < self.modules@.len() ==> self.modules@[i]@.name != self.modules@[j]@.name
        &&& forall|i: int, j: int|
            0 <= i < j < self.files@.len() ==> self.files@[i]@.abs_path != self.files@[j]@.abs_path
        &&& forall|i: int| 0 <= i < self.files@.len() ==> fs_has(fs, self.files@[i]@.abs_path)
        &&& forall|i: int|
            0 <= i < self.files@.len() ==> self.files@[i]@.file_name == crate::bytes::after_last_byte(
                self.files@[i]@.abs_path,
                47,
            )
    }

    /// Returns the shared record of `abs_path`: the cached one when the path
    /// is already in the catalog, else the file is parsed, cached and
    /// returned — or the run's fatal error.
    #[verifier::loop_isolation(false)]
    pub fn create_file_info(&mut self, abs_path: &Vec<u8>, fs: &FsData) -> (r: Result<
        usize,
        RunError,
    >)
        requires
            fs.wf(),
            old(self).wf(fs@),
        ensures
            final(self).wf(fs@),
            final(self).root_path@ == old(self).root_path@,
            final(self).modules@ == old(self).modules@,
            match materialize_model(
                catalog_view(old(self).files@),
                seq_views(old(self).modules@),
                fs@,
                abs_path@,
            ) {
                Ok((f2, i)) => r matches Ok(idx) && idx == i && catalog_view(final(self).files@)
                    == f2,
                Err(e) => r matches Err(er) && er@ == e && final(self).files@ == old(self).files@,
            },
    {
        let ghost files0 = catalog_view(self.files@);
        let mut i: usize = 0;
        while i < self.files.len()
            invariant
                self.files@ == old(self).files@,
                i <= self.files@.len(),
                catalog_index(files0, abs_path@, 0) == catalog_index(files0, abs_path@, i as int),
                forall|k: int| 0 <= k < i ==> files0[k].abs_path != abs_path@,
            decreases self.files@.len() - i,
        {
            assert(files0[i as int] == self.files@[i as int]@);
            if bytes_eq(&self.files[i].abs_path, abs_path) {
                return Ok(i);
            }
            i += 1;
        }
        match fs.find(abs_path) {
            None => Err(RunError::Io(copy_bytes(abs_path))),
            Some(ei) => {
                proof {
                    lemma_fs_at(fs@, abs_path@, ei as int);
                }
                match &fs.entries[ei].lines {
                    None => {
                        assert(fs_at(fs@, abs_path@).lines is None);
                        Err(RunError::Io(copy_bytes(abs_path)))
                    },
                    Some(ls) => {
                        assert(fs_at(fs@, abs_path@).lines == Some(seq_views(ls@)));
                        match FileInfo::create(abs_path, ls, &self.modules) {
                            Err(e) => Err(e),
                            Ok(record) => {
                                let idx = self.files.len();
                                proof {
                                    crate::bytes::lemma_seq_views_push(self.files@, record);
                                    assert(record@.abs_path == abs_path@);
                                    assert(forall|k: int|
                                        0 <= k < files0.len() ==> files0[k] == self.files@[k]@);
                                }
                                self.files.push(record);
                                proof {
                                    assert(catalog_view(self.files@) == files0.push(record@));
                                    assert forall|a: int, b: int|
                                        0 <= a < b < self.files@.len() implies self.files@[a]@.abs_path
                                        != self.files@[b]@.abs_path by {
                                        if b == self.files@.len() - 1 {
                                            assert(self.files@[a]@.abs_path == files0[a].abs_path);
                                        }
                                    }
                                }
                                Ok(idx)
                            },
                        }
                    },
                }
            },
        }
    }

    /// Flips the record at `i` to processed — the one mutation a record ever
    /// sees, and the memoization that keeps the traversal finite.
    pub fn mark_processed(&mut self, i: usize)
        requires
            i < old(self).files@.len(),
        ensures
            final(self).root_path@ == old(self).root_path@,
            final(self).modules@ == old(self).modules@,
            catalog_view(final(self).files@) == catalog_view(old(self).files@).update(
                i as int,
                FileInfoView { processed: true, ..catalog_view(old(self).files@)[i as int] },
            ),
            forall|fsv: Seq<FsEntryView>| old(self).wf(fsv) ==> final(self).wf(fsv),
    {
        self.files[i].processed = true;
        proof {
            assert(catalog_view(self.files@) =~= catalog_view(old(self).files@).update(
                i as int,
                FileInfoView { processed: true, ..catalog_view(old(self).files@)[i as int] },
            ));
            assert forall|fsv: Seq<FsEntryView>| old(self).wf(fsv) implies self.wf(fsv) by {
                assert forall|k: int| 0 <= k < self.files@.len() implies self.files@[k]@.abs_path
                    == old(self).files@[k]@.abs_path && self.files@[k]@.file_name == old(
                    self,
                ).files@[k]@.file_name by {}
            }
        }
    }

    /// Probes every candidate directory of the module at `modl`, in stored
    /// order, for `partial_path`; the first existing joined path is
    /// materialized through the catalog. No hit is an expected outcome.
    #[verifier::loop_isolation(false)]
    pub fn get_file_in_module(&mut self, modl: usize, partial_path: &Vec<u8>, fs: &FsData) -> (r:
        Result<Option<usize>, RunError>)
        requires
            fs.wf(),
            old(self).wf(fs@),
            modl < old(self).modules@.len(),
        ensures
            final(self).wf(fs@),
            final(self).root_path@ == old(self).root_path@,
            final(self).modules@ == old(self).modules@,
            match hit_in_dirs(old(self).modules@[modl as int]@.dirs, partial_path@, fs@, 0) {
                None => r matches Ok(oi) && oi is None && final(self).files@ == old(self).files@,
                Some(p) => match materialize_model(
                    catalog_view(old(self).files@),
                    seq_views(old(self).modules@),
                    fs@,
                    p,
                ) {
                    Ok((f2, i)) => r matches Ok(oi) && oi == Some(i as usize) && catalog_view(
                        final(self).files@,
                    ) == f2,
                    Err(e) => r matches Err(er) && er@ == e && final(self).files@ == old(
                        self,
                    ).files@,
                },
            },
    {
        let ghost dirs = self.modules@[modl as int]@.dirs;
        let mut k: usize = 0;
        while k < self.modules[modl].dirs.len()
            invariant
                self.files@ == old(self).files@,
                self.modules@ == old(self).modules@,
                self.root_path@ == old(self).root_path@,
                k <= dirs.len(),
                hit_in_dirs(dirs, partial_path@, fs@, 0) == hit_in_dirs(
                    dirs,
                    partial_path@,
                    fs@,
                    k as int,
                ),
            decreases dirs.len() - k,
        {
            let path_to_file = join_path(&self.modules[modl].dirs[k], partial_path);
            assert(path_to_file@ == dirs[k as int] + seq![47u8] + partial_path@);
            if fs.probe(&path_to_file) {
                match self.create_file_info(&path_to_file, fs) {
                    Ok(idx) => {
                        return Ok(Some(idx));
                    },
                    Err(e) => {
                        return Err(e);
                    },
                }
            }
            k += 1;
        }
        Ok(None)
    }

    /// Resolves a raw token included from `entry_module`: first that
    /// module's own candidate directories, then every other module in list
    /// order; the first filesystem hit wins. `Ok(None)` — nothing resolved —
    /// is an expected outcome and the caller omits the edge.
    #[verifier::loop_isolation(false)]
    pub fn get_file(&mut self, partial_path: &Vec<u8>, entry_module: &Vec<u8>, fs: &FsData) -> (r:
        Result<Option<usize>, RunError>)
        requires
            fs.wf(),
            old(self).wf(fs@),
        ensures
            final(self).wf(fs@),
            final(self).root_path@ == old(self).root_path@,
            final(self).modules@ == old(self).modules@,
            match get_file_model(
                catalog_view(old(self).files@),
                seq_views(old(self).modules@),
                fs@,
                partial_path@,
                entry_module@,
            ) {
                Ok((f2, oi)) => r matches Ok(ri) && catalog_view(final(self).files@) == f2 && match oi {
                    Some(i) => ri == Some(i as usize),
                    None => ri is None,
                },
                Err(e) => r matches Err(er) && er@ == e && final(self).files@ == old(self).files@,
            },
    {
        let ghost ms = seq_views(self.modules@);

        // The module the token is included from, when it is indexed at all.
        let mut root_module: Option<usize> = None;
        let mut j: usize = 0;
        while j < self.modules.len() && root_module.is_none()
            invariant
                self.files@ == old(self).files@,
                self.modules@ == old(self).modules@,
                self.root_path@ == old(self).root_path@,
                j <= ms.len(),
                match root_module {
                    None => module_index(ms, entry_module@, 0) == module_index(
                        ms,
                        entry_module@,
                        j as int,
                    ),
                    Some(oi) => oi < ms.len() && module_index(ms, entry_module@, 0) == Some(
                        oi as int,
                    ),
                },
            decreases ms.len() - j,
        {
            assert(ms[j as int] == self.modules@[j as int]@);
            if bytes_eq(&self.modules[j].name, entry_module) {
                root_module = Some(j);
            }
            j += 1;
        }

        match root_module {
            Some(oi) => {
                assert(module_index(ms, entry_module@, 0) == Some(oi as int));
                match self.get_file_in_module(oi, partial_path, fs) {
                    Err(e) => {
                        return Err(e);
                    },
                    Ok(Some(idx)) => {
                        return Ok(Some(idx));
                    },
                    Ok(None) => {},
                }
            },
            None => {
                assert(module_index(ms, entry_module@, 0) is None);
            },
        }

        let ghost skip: Option<int> = match root_module {
            Some(oi) => Some(oi as int),
            None => None,
        };
        let mut m: usize = 0;
        while m < self.modules.len()
            invariant
                fs.wf(),
                self.wf(fs@),
                self.root_path@ == old(self).root_path@,
                self.files@ == old(self).files@,
                self.modules@ == old(self).modules@,
                m <= ms.len(),
                hit_in_modules(ms, skip, partial_path@, fs@, 0) == hit_in_modules(
                    ms,
                    skip,
                    partial_path@,
                    fs@,
                    m as int,
                ),
                match root_module {
                    Some(oi) => skip == Some(oi as int) && oi < ms.len(),
                    None => skip is None,
                },
            decreases ms.len() - m,
        {
            let skip_here = match root_module {
                Some(oi) => m == oi,
                None => false,
            };
            if !skip_here {
                match self.get_file_in_module(m, partial_path, fs) {
                    Err(e) => {
                        return Err(e);
                    },
                    Ok(Some(idx)) => {
                        return Ok(Some(idx));
                    },
                    Ok(None) => {},
                }
            }
            m += 1;
        }
        Ok(None)
    }
}

} // verus!
