//! One file of the source tree as the engine sees it: its identity, kind,
//! owning module and the raw tokens of its inclusion directives, together
//! with the one mutable bit of the run, the `processed` flag.

use vstd::prelude::*;
use crate::bytes::{
    after_last_byte, after_last_ws, after_last_ws_vec, contains_bytes, contains_seq, copy_bytes,
    seq_views, strip_bytes, trim, trimmed, without_bytes,
};
use crate::markers::{
    directive_marker, directive_marker_vec, ext_c, ext_c_vec, ext_cpp, ext_cpp_vec, ext_h,
    ext_h_vec, ext_hpp, ext_hpp_vec, ext_inl, ext_inl_vec, gen_marker, gen_marker_vec,
    generated_marker, generated_marker_vec,
};
use crate::project::Module;
use crate::{RunError, RunErrorView};

verus! {

/// The kind of a file, derived from its extension.
#[derive(Debug, Clone, Copy, PartialEq, Eq, Hash, Structural)]
pub enum FileType {
    Header,
    Source,
    Inline,
}

/// One parsed file: identity, derived names, kind, raw tokens and the
/// monotonic `processed` flag of the traversal.
#[derive(Debug)]
pub struct FileInfo {
    pub abs_path: Vec<u8>,
    pub file_name: Vec<u8>,
    pub module: Vec<u8>,
    pub file_type: FileType,
    pub includes: Vec<Vec<u8>>,
    pub processed: bool,
}

/// Ghost image of a `FileInfo`.
pub ghost struct FileInfoView {
    pub abs_path: Seq<u8>,
    pub file_name: Seq<u8>,
    pub module: Seq<u8>,
    pub file_type: FileType,
    pub includes: Seq<Seq<u8>>,
    pub processed: bool,
}

impl View for FileInfo {
    type V = FileInfoView;

    open spec fn view(&self) -> FileInfoView {
        FileInfoView {
            abs_path: self.abs_path@,
            file_name: self.file_name@,
            module: self.module@,
            file_type: self.file_type,
            includes: seq_views(self.includes@),
            processed: self.processed,
        }
    }
}

/// The kind a file of the given extension has, when the extension is
/// supported.
pub open spec fn kind_of_ext(ext: Seq<u8>) -> Option<FileType> {
    if ext == ext_h() || ext == ext_hpp() {
        Some(FileType::Header)
    } else if ext == ext_c() || ext == ext_cpp() {
        Some(FileType::Source)
    } else if ext == ext_inl() {
        Some(FileType::Inline)
    } else {
        None
    }
}

/// The raw token a line yields: the last whitespace-separated field of the
/// trimmed line, quotes removed — for a line that carries the directive
/// marker and does not name a generated header. Other lines yield none.
pub open spec fn line_token(line: Seq<u8>) -> Option<Seq<u8>> {
    if contains_seq(line, directive_marker()) && !contains_seq(line, generated_marker())
        && !contains_seq(line, gen_marker()) {
        Some(without_bytes(after_last_ws(trimmed(line)), 34, 34, 34))
    } else {
        None
    }
}

/// The raw tokens of a file's lines, in line order.
pub open spec fn tokens_of(lines: Seq<Seq<u8>>) -> Seq<Seq<u8>>
    decreases lines.len(),
{
    if lines.len() == 0 {
        Seq::empty()
    } else {
        let rest = tokens_of(lines.drop_last());
        match line_token(lines.last()) {
            Some(t) => rest.push(t),
            None => rest,
        }
    }
}

/// The last index at or below `i` whose name occurs in `path`.
pub open spec fn owner_from(names: Seq<Seq<u8>>, path: Seq<u8>, i: int) -> Option<int>
    decreases i + 1,
{
    if i < 0 {
        None
    } else if contains_seq(path, names[i]) {
        Some(i)
    } else {
        owner_from(names, path, i - 1)
    }
}

/// The owning module of a file: scanning the length-ordered module list from
/// the end, the first module whose name occurs in the file's path — so the
/// longest matching name wins.
pub open spec fn owner_module(names: Seq<Seq<u8>>, path: Seq<u8>) -> Option<int> {
    owner_from(names, path, names.len() - 1)
}

/// Everything `create` derives from a path, the file's lines and the module
/// names, or the error that aborts the run.
pub open spec fn parse_outcome(path: Seq<u8>, lines: Seq<Seq<u8>>, names: Seq<Seq<u8>>) -> Result<
    FileInfoView,
    RunErrorView,
> {
    let file_name = after_last_byte(path, 47);
    let ext = after_last_byte(file_name, 46);
    match kind_of_ext(ext) {
        None => Err(RunErrorView::UnsupportedFileType(path)),
        Some(kind) => match owner_module(names, path) {
            None => Err(RunErrorView::ModuleResolution(path)),
            Some(m) => Ok(
                FileInfoView {
                    abs_path: path,
                    file_name,
                    module: names[m],
                    file_type: kind,
                    includes: tokens_of(lines),
                    processed: false,
                },
            ),
        },
    }
}

/// A snapshot entry the catalog can always materialize: readable, with a
/// supported extension and an owning module.
pub open spec fn entry_parseable(e: crate::fsdata::FsEntryView, names: Seq<Seq<u8>>) -> bool {
    e.lines is Some && parse_outcome(e.path, e.lines.unwrap(), names) is Ok
}

/// Every file of the snapshot can be materialized: under this, no traversal
/// step can fail.
pub open spec fn fs_parseable(fs: Seq<crate::fsdata::FsEntryView>, names: Seq<Seq<u8>>) -> bool {
    forall|i: int| 0 <= i < fs.len() ==> entry_parseable(#[trigger] fs[i], names)
}

/// The names of the modules, in list order.
pub open spec fn module_names(modules: Seq<crate::project::ModuleView>) -> Seq<Seq<u8>> {
    Seq::new(modules.len(), |i: int| modules[i].name)
}

impl FileInfo {
    /// Parses one file: derives its name and kind from the path, extracts
    /// the raw tokens of its inclusion lines, and finds its owning module by
    /// the longest-match rule. The record starts unprocessed.
    #[verifier::loop_isolation(false)]
    pub fn create(abs_path: &Vec<u8>, lines: &Vec<Vec<u8>>, modules: &Vec<Module>) -> (r: Result<
        FileInfo,
        RunError,
    >)
        ensures
            ({
                let outcome = parse_outcome(
                    abs_path@,
                    seq_views(lines@),
                    module_names(seq_views(modules@)),
                );
                match r {
                    Ok(fi) => outcome == Ok::<FileInfoView, RunErrorView>(fi@),
                    Err(e) => outcome == Err::<FileInfoView, RunErrorView>(e@),
                }
            }),
    {
        let file_name = crate::bytes::after_last(abs_path, 47);
        let ext = crate::bytes::after_last(&file_name, 46);

        let file_type: FileType;
        if crate::bytes::bytes_eq(&ext, &ext_h_vec()) || crate::bytes::bytes_eq(
            &ext,
            &ext_hpp_vec(),
        ) {
            file_type = FileType::Header;
        } else if crate::bytes::bytes_eq(&ext, &ext_c_vec()) || crate::bytes::bytes_eq(
            &ext,
            &ext_cpp_vec(),
        ) {
            file_type = FileType::Source;
        } else if crate::bytes::bytes_eq(&ext, &ext_inl_vec()) {
            file_type = FileType::Inline;
        } else {
            return Err(RunError::UnsupportedFileType(copy_bytes(abs_path)));
        }

        let directive = directive_marker_vec();
        let generated = generated_marker_vec();
        let gen_short = gen_marker_vec();

        let mut includes: Vec<Vec<u8>> = Vec::new();
        let mut i: usize = 0;
        while i < lines.len()
            invariant
                i <= lines@.len(),
                seq_views(includes@) == tokens_of(seq_views(lines@).subrange(0, i as int)),
                directive@ == directive_marker(),
                generated@ == generated_marker(),
                gen_short@ == gen_marker(),
            decreases lines@.len() - i,
        {
            let line = &lines[i];
            proof {
                assert(seq_views(lines@).subrange(0, i + 1).drop_last() =~= seq_views(
                    lines@,
                ).subrange(0, i as int));
                assert(seq_views(lines@).subrange(0, i + 1).last() == lines@[i as int]@);
            }
            if contains_bytes(line, &directive) && !contains_bytes(line, &generated)
                && !contains_bytes(line, &gen_short) {
                let token = strip_bytes(&after_last_ws_vec(&trim(line)), 34, 34, 34);
                proof {
                    crate::bytes::lemma_seq_views_push(includes@, token);
                }
                includes.push(token);
            }
            i += 1;
        }
        proof {
            assert(seq_views(lines@).subrange(0, lines@.len() as int) =~= seq_views(lines@));
        }

        let ghost names = module_names(seq_views(modules@));
        let mut m: usize = modules.len();
        loop
            invariant
                m <= modules@.len(),
                names == module_names(seq_views(modules@)),
                owner_module(names, abs_path@) == owner_from(names, abs_path@, m - 1),
            decreases m,
        {
            if m == 0 {
                return Err(RunError::ModuleResolution(copy_bytes(abs_path)));
            }
            m -= 1;
            assert(names[m as int] == modules@[m as int]@.name);
            if contains_bytes(abs_path, &modules[m].name) {
                return Ok(
                    FileInfo {
                        abs_path: copy_bytes(abs_path),
                        file_name,
                        module: copy_bytes(&modules[m].name),
                        file_type,
                        includes,
                        processed: false,
                    },
                );
            }
            proof {
                assert(owner_from(names, abs_path@, m as int) == owner_from(
                    names,
                    abs_path@,
                    m - 1,
                ));
            }
        }
    }
}

} // verus!
