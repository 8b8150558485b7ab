//! Finds circular `#include` chains in a multi-module C/C++ source tree.
//!
//! The tree's module layout is declared in a root build-descriptor file.
//! The engine derives a module index from the descriptor, lazily parses
//! source files into a cached catalog, resolves raw tokens of inclusion
//! directives to concrete files across modules, and walks the lazily
//! materialized graph with an iterative, stack-bounded search that detects
//! and reports cycles.
//!
//! The filesystem is handed in as data (`FsData`): the caller reads the
//! descriptor and the reachable sources and the engine works on that
//! snapshot, so every rule of the engine is verified.

use vstd::prelude::*;

pub mod bytes;
pub mod file_info;
pub mod fsdata;
pub mod laws;
pub mod markers;
pub mod node;
pub mod project;
pub mod report;

use crate::bytes::seq_views;
use crate::file_info::{fs_parseable, module_names, FileInfoView};
use crate::fsdata::{fs_has, FsData};
use crate::node::{cycle_path, init_walk_state, walk_reaches, Node, WalkState};
use crate::project::{catalog_view, materialize_model, modules_model, Project};
use crate::report::{has_path, CycleReport};

verus! {

/// A fatal failure of a run, naming the offending path or value.
#[derive(Debug)]
pub enum RunError {
    /// The build descriptor or a file it references is missing or unreadable,
    /// or a candidate directory lacks the anchor segment.
    Config(Vec<u8>),
    /// A graph-reachable source file cannot be read.
    Io(Vec<u8>),
    /// A graph-reachable file has an extension the engine does not support.
    UnsupportedFileType(Vec<u8>),
    /// A file's path matches no indexed module.
    ModuleResolution(Vec<u8>),
}

/// Ghost image of a `RunError`: the variant with the payload as a sequence.
pub ghost enum RunErrorView {
    Config(Seq<u8>),
    Io(Seq<u8>),
    UnsupportedFileType(Seq<u8>),
    ModuleResolution(Seq<u8>),
}

impl View for RunError {
    type V = RunErrorView;

    open spec fn view(&self) -> RunErrorView {
        match self {
            RunError::Config(p) => RunErrorView::Config(p@),
            RunError::Io(p) => RunErrorView::Io(p@),
            RunError::UnsupportedFileType(p) => RunErrorView::UnsupportedFileType(p@),
            RunError::ModuleResolution(p) => RunErrorView::ModuleResolution(p@),
        }
    }
}

impl RunError {
    /// True for the variant that reports an unreadable descriptor file.
    pub fn is_config(&self) -> (r: bool)
        ensures
            r == (self@ is Config),
    {
        match self {
            RunError::Config(_) => true,
            _ => false,
        }
    }

    /// True for the variant that reports an unreadable source file.
    pub fn is_io(&self) -> (r: bool)
        ensures
            r == (self@ is Io),
    {
        match self {
            RunError::Io(_) => true,
            _ => false,
        }
    }

    /// True for the variant that reports an unsupported file extension.
    pub fn is_unsupported_file_type(&self) -> (r: bool)
        ensures
            r == (self@ is UnsupportedFileType),
    {
        match self {
            RunError::UnsupportedFileType(_) => true,
            _ => false,
        }
    }

    /// True for the variant that reports a file outside every indexed module.
    pub fn is_module_resolution(&self) -> (r: bool)
        ensures
            r == (self@ is ModuleResolution),
    {
        match self {
            RunError::ModuleResolution(_) => true,
            _ => false,
        }
    }
}

/// One whole run: builds the module index from the descriptor under
/// `project_path`, materializes the entry-point file, and walks the include
/// tree from it, returning the accumulated cycle report — or the first
/// fatal error, with no partial report.
pub fn find_rec_deps(fs: &FsData, project_path: &Vec<u8>, entry_point: &Vec<u8>) -> (r: Result<
    CycleReport,
    RunError,
>)
    requires
        fs.wf(),
    ensures
        modules_model(fs@, project_path@) matches Err(e) ==> (r matches Err(er) && er@ == e),
        modules_model(fs@, project_path@) matches Ok(msv) ==> match materialize_model(
            Seq::<FileInfoView>::empty(),
            msv,
            fs@,
            entry_point@,
        ) {
            Err(e) => r matches Err(er) && er@ == e,
            Ok((f1, i)) => (f1[i].includes.len() == 0 ==> (r matches Ok(rep) && rep@.len() == 0))
                && match r {
                Ok(rep) => exists|s: WalkState|
                    #[trigger] walk_reaches(init_walk_state(f1, i), msv, fs@, Ok(s)) && s.report
                        == rep@,
                Err(e) => walk_reaches(
                    init_walk_state(f1, i),
                    msv,
                    fs@,
                    Err::<WalkState, RunErrorView>(e@),
                ),
            },
        },
        modules_model(fs@, project_path@) matches Ok(msv) && fs_has(fs@, entry_point@)
            && fs_parseable(fs@, module_names(msv)) ==> r is Ok,
        r matches Ok(rep) ==> rep.wf() && (forall|n: Seq<u8>, p: Seq<Seq<u8>>|
            has_path(rep@, n, p) ==> cycle_path(n, p)),
{
    let mut project = match Project::create(project_path, fs) {
        Ok(p) => p,
        Err(e) => {
            return Err(e);
        },
    };
    let entry_idx = match project.create_file_info(entry_point, fs) {
        Ok(i) => i,
        Err(e) => {
            return Err(e);
        },
    };
    proof {
        assert(crate::project::catalog_index(Seq::<FileInfoView>::empty(), entry_point@, 0)
            is None);
        assert(catalog_view(project.files@).len() == project.files@.len());
        assert(entry_idx < project.files@.len());
        match modules_model(fs@, project_path@) {
            Err(_) => {
                assert(false);
            },
            Ok(msv) => {
                assert(seq_views(project.modules@) == msv);
                match materialize_model(Seq::<FileInfoView>::empty(), msv, fs@, entry_point@) {
                    Err(_) => {
                        assert(false);
                    },
                    Ok((f1, i)) => {
                        assert(catalog_view(project.files@) == f1);
                        assert(entry_idx == i);
                    },
                }
            },
        }
    }
    let empty_nodes: Vec<Node> = Vec::new();
    let root = Node::create(entry_idx, None, &empty_nodes);
    Node::traverse(root, &mut project, fs)
}

} // verus!
