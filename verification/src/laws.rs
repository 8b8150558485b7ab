//! Laws of the engine: properties that relate several operations, stated
//! over the same models the operations' contracts use, and proved once for
//! all inputs.

use vstd::prelude::*;
use crate::bytes::contains_seq;
use crate::file_info::{line_token, owner_from, owner_module, tokens_of, FileInfoView};
use crate::fsdata::FsEntryView;
use crate::markers::{gen_marker, generated_marker};
use crate::project::{
    catalog_index, get_file_model, hit_in_dirs, hit_in_modules, lemma_catalog_index_in_range,
    resolve_path, ModuleView,
};
use crate::RunErrorView;

verus! {

/// After a record enters the catalog under a path not seen before, a lookup
/// finds it exactly there.
proof fn lemma_catalog_index_push(files: Seq<FileInfoView>, f: FileInfoView, path: Seq<u8>, j: int)
    requires
        0 <= j <= files.len(),
        catalog_index(files, path, j) is None,
        f.abs_path == path,
    ensures
        catalog_index(files.push(f), path, j) == Some(files.len() as int),
    decreases files.len() - j,
{
    if j < files.len() {
        assert(files.push(f)[j] == files[j]);
        lemma_catalog_index_push(files, f, path, j + 1);
    } else {
        assert(files.push(f)[j] == f);
    }
}

/// Resolving the same raw token against the same module twice returns the
/// identical cached record: the second resolution finds the first one's
/// record in the catalog and leaves the catalog unchanged, so one absolute
/// path never has two catalog entries.
pub proof fn lemma_resolution_cached(
    files: Seq<FileInfoView>,
    ms: Seq<ModuleView>,
    fs: Seq<FsEntryView>,
    token: Seq<u8>,
    from: Seq<u8>,
)
    ensures
        match get_file_model(files, ms, fs, token, from) {
            Ok((f1, oi)) => get_file_model(f1, ms, fs, token, from) == Ok::<
                (Seq<FileInfoView>, Option<int>),
                RunErrorView,
            >((f1, oi)),
            Err(_) => true,
        },
{
    match resolve_path(ms, from, token, fs) {
        None => {},
        Some(p) => {
            match catalog_index(files, p, 0) {
                Some(i) => {
                    lemma_catalog_index_in_range(files, p, 0);
                },
                None => {
                    if crate::fsdata::fs_has(fs, p) {
                        match crate::fsdata::fs_at(fs, p).lines {
                            None => {},
                            Some(ls) => {
                                match crate::file_info::parse_outcome(
                                    p,
                                    ls,
                                    crate::file_info::module_names(ms),
                                ) {
                                    Err(_) => {},
                                    Ok(f) => {
                                        lemma_catalog_index_push(files, f, p, 0);
                                    },
                                }
                            },
                        }
                    }
                },
            }
        },
    }
}

/// The owner lookup finds the longest matching module name: scanning the
/// length-ordered list from the end, any other module whose name occurs in
/// the path has a name no longer than the one found.
pub proof fn lemma_owner_longest(names: Seq<Seq<u8>>, path: Seq<u8>)
    requires
        forall|i: int, j: int| 0 <= i < j < names.len() ==> names[i].len() <= names[j].len(),
    ensures
        owner_module(names, path) matches Some(i) ==> 0 <= i < names.len() && contains_seq(
            path,
            names[i],
        ) && (forall|j: int|
            0 <= j < names.len() && contains_seq(path, #[trigger] names[j]) ==> names[j].len()
                <= names[i].len()),
        owner_module(names, path) is None ==> forall|j: int|
            0 <= j < names.len() ==> !contains_seq(path, #[trigger] names[j]),
{
    lemma_owner_from(names, path, names.len() - 1);
    match owner_module(names, path) {
        Some(i) => {
            assert forall|j: int|
                0 <= j < names.len() && contains_seq(path, #[trigger] names[j]) implies names[j].len()
                <= names[i].len() by {
                if j > i {
                    assert(!contains_seq(path, names[j]));
                }
            }
        },
        None => {},
    }
}

proof fn lemma_owner_from(names: Seq<Seq<u8>>, path: Seq<u8>, i: int)
    requires
        i < names.len(),
    ensures
        owner_from(names, path, i) matches Some(w) ==> 0 <= w <= i && w < names.len()
            && contains_seq(path, names[w]) && (forall|j: int|
            w < j <= i ==> !contains_seq(path, #[trigger] names[j])),
        owner_from(names, path, i) is None ==> forall|j: int|
            0 <= j <= i ==> !contains_seq(path, #[trigger] names[j]),
    decreases i + 1,
{
    if i >= 0 && !contains_seq(path, names[i]) {
        lemma_owner_from(names, path, i - 1);
    }
}

/// There is a hit at `k`: the joined path exists and no earlier candidate
/// directory's joined path does.
pub open spec fn first_dir_hit(
    dirs: Seq<Seq<u8>>,
    token: Seq<u8>,
    fs: Seq<FsEntryView>,
    k: int,
) -> bool {
    &&& 0 <= k < dirs.len()
    &&& crate::fsdata::fs_has(fs, dirs[k] + seq![47u8] + token)
    &&& forall|w: int|
        0 <= w < k ==> !crate::fsdata::fs_has(fs, #[trigger] dirs[w] + seq![47u8] + token)
}

/// Probing a module's candidate directories takes them in stored order: the
/// hit is the first existing joined path, and no hit means none exists.
pub proof fn lemma_dir_order(dirs: Seq<Seq<u8>>, token: Seq<u8>, fs: Seq<FsEntryView>)
    ensures
        hit_in_dirs(dirs, token, fs, 0) matches Some(p) ==> exists|k: int|
            first_dir_hit(dirs, token, fs, k) && p == dirs[k] + seq![47u8] + token,
        hit_in_dirs(dirs, token, fs, 0) is None ==> forall|k: int|
            0 <= k < dirs.len() ==> !crate::fsdata::fs_has(
                fs,
                #[trigger] dirs[k] + seq![47u8] + token,
            ),
{
    lemma_dir_order_from(dirs, token, fs, 0);
    match hit_in_dirs(dirs, token, fs, 0) {
        Some(p) => {
            let k = choose|k: int|
                0 <= k < dirs.len() && crate::fsdata::fs_has(fs, dirs[k] + seq![47u8] + token) && p
                    == dirs[k] + seq![47u8] + token && (forall|w: int|
                    0 <= w < k ==> !crate::fsdata::fs_has(
                        fs,
                        #[trigger] dirs[w] + seq![47u8] + token,
                    ));
            assert(first_dir_hit(dirs, token, fs, k) && p == dirs[k] + seq![47u8] + token);
        },
        None => {},
    }
}

proof fn lemma_dir_order_from(dirs: Seq<Seq<u8>>, token: Seq<u8>, fs: Seq<FsEntryView>, j: int)
    requires
        0 <= j,
    ensures
        hit_in_dirs(dirs, token, fs, j) matches Some(p) ==> exists|k: int|
            j <= k < dirs.len() && crate::fsdata::fs_has(fs, dirs[k] + seq![47u8] + token) && p
                == dirs[k] + seq![47u8] + token && (forall|w: int|
                j <= w < k ==> !crate::fsdata::fs_has(fs, #[trigger] dirs[w] + seq![47u8] + token)),
        hit_in_dirs(dirs, token, fs, j) is None ==> forall|k: int|
            j <= k < dirs.len() ==> !crate::fsdata::fs_has(
                fs,
                #[trigger] dirs[k] + seq![47u8] + token,
            ),
    decreases dirs.len() - j,
{
    if j < dirs.len() && !crate::fsdata::fs_has(fs, dirs[j] + seq![47u8] + token) {
        lemma_dir_order_from(dirs, token, fs, j + 1);
    }
}

/// An include unresolved in its own module falls back to every other module
/// in list order — ascending name length, the list's order — and the first
/// module with any filesystem hit wins; only when every module misses is
/// the token unresolved.
pub proof fn lemma_fallback_order(
    ms: Seq<ModuleView>,
    skip: Option<int>,
    token: Seq<u8>,
    fs: Seq<FsEntryView>,
)
    ensures
        hit_in_modules(ms, skip, token, fs, 0) matches Some(p) ==> exists|j: int|
            0 <= j < ms.len() && skip != Some(j) && hit_in_dirs(ms[j].dirs, token, fs, 0) == Some(
                p,
            ) && (forall|w: int|
                0 <= w < j && skip != Some(w) ==> hit_in_dirs(
                    #[trigger] ms[w].dirs,
                    token,
                    fs,
                    0,
                ) is None),
        hit_in_modules(ms, skip, token, fs, 0) is None ==> forall|j: int|
            0 <= j < ms.len() && skip != Some(j) ==> hit_in_dirs(
                #[trigger] ms[j].dirs,
                token,
                fs,
                0,
            ) is None,
{
    lemma_fallback_order_from(ms, skip, token, fs, 0);
}

#[verifier::rlimit(50)]
proof fn lemma_fallback_order_from(
    ms: Seq<ModuleView>,
    skip: Option<int>,
    token: Seq<u8>,
    fs: Seq<FsEntryView>,
    j: int,
)
    requires
        0 <= j,
    ensures
        hit_in_modules(ms, skip, token, fs, j) matches Some(p) ==> exists|k: int|
            j <= k < ms.len() && skip != Some(k) && hit_in_dirs(ms[k].dirs, token, fs, 0) == Some(
                p,
            ) && (forall|w: int|
                j <= w < k && skip != Some(w) ==> hit_in_dirs(
                    #[trigger] ms[w].dirs,
                    token,
                    fs,
                    0,
                ) is None),
        hit_in_modules(ms, skip, token, fs, j) is None ==> forall|k: int|
            j <= k < ms.len() && skip != Some(k) ==> hit_in_dirs(
                #[trigger] ms[k].dirs,
                token,
                fs,
                0,
            ) is None,
    decreases ms.len() - j,
{
    if j < ms.len() {
        if skip == Some(j) || hit_in_dirs(ms[j].dirs, token, fs, 0) is None {
            lemma_fallback_order_from(ms, skip, token, fs, j + 1);
        }
    }
}

/// A resolved token's record bears exactly the first existing joined path
/// of the search order: what resolution returns is the file the probe hit.
pub proof fn lemma_resolved_record_path(
    files: Seq<FileInfoView>,
    ms: Seq<ModuleView>,
    fs: Seq<FsEntryView>,
    token: Seq<u8>,
    from: Seq<u8>,
)
    ensures
        match get_file_model(files, ms, fs, token, from) {
            Ok((f2, oi)) => match oi {
                Some(i) => 0 <= i < f2.len() && Some(f2[i].abs_path) == resolve_path(
                    ms,
                    from,
                    token,
                    fs,
                ),
                None => resolve_path(ms, from, token, fs) is None && f2 == files,
            },
            Err(_) => true,
        },
{
    crate::project::lemma_get_file_model_frame(files, ms, fs, token, from);
    match resolve_path(ms, from, token, fs) {
        None => {},
        Some(p) => {
            match catalog_index(files, p, 0) {
                Some(i) => {
                    lemma_catalog_index_in_range(files, p, 0);
                },
                None => {},
            }
        },
    }
}

/// A line naming a generated header — in either spelling — never yields an
/// include token.
pub proof fn lemma_generated_line_skipped(line: Seq<u8>)
    requires
        contains_seq(line, generated_marker()) || contains_seq(line, gen_marker()),
    ensures
        line_token(line) is None,
{
}

/// Dropping a tokenless line leaves a file's extracted includes unchanged:
/// what a skipped line says never appears among them.
pub proof fn lemma_tokenless_line_dropped(lines: Seq<Seq<u8>>, i: int)
    requires
        0 <= i < lines.len(),
        line_token(lines[i]) is None,
    ensures
        tokens_of(lines) == tokens_of(lines.remove(i)),
    decreases lines.len(),
{
    if i == lines.len() - 1 {
        assert(lines.remove(i) =~= lines.drop_last());
    } else {
        assert(lines.remove(i).drop_last() =~= lines.drop_last().remove(i));
        assert(lines.remove(i).last() == lines.last());
        lemma_tokenless_line_dropped(lines.drop_last(), i);
    }
}

} // verus!
