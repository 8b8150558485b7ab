//! Traversal scenarios: cycles, the diamond, leaves, and fatal errors.

use ue_rec_deps_seeker::fsdata::{FsData, FsEntry};
use ue_rec_deps_seeker::node::Node;
use ue_rec_deps_seeker::project::{Module, Project};

fn entry(path: &str, lines: &[&str]) -> FsEntry {
    FsEntry {
        path: path.as_bytes().to_vec(),
        lines: Some(lines.iter().map(|l| l.as_bytes().to_vec()).collect()),
    }
}

fn one_module_project() -> Project {
    Project {
        root_path: b"/p".to_vec(),
        modules: vec![Module {
            name: b"Engine/Src".to_vec(),
            dirs: vec![b"/p/Engine/Src".to_vec()],
        }],
        files: vec![],
    }
}

fn run(project: &mut Project, fs: &FsData, entry_path: &str) -> Result<
    ue_rec_deps_seeker::report::CycleReport,
    ue_rec_deps_seeker::RunError,
> {
    let path = entry_path.as_bytes().to_vec();
    let idx = project.create_file_info(&path, fs)?;
    let arena: Vec<Node> = Vec::new();
    let root = Node::create(idx, None, &arena);
    Node::traverse(root, project, fs)
}

fn names(path: &[Vec<u8>]) -> Vec<String> {
    path.iter().map(|n| String::from_utf8(n.clone()).unwrap()).collect()
}

#[test]
fn chain_cycle_three_files() {
    let fs = FsData {
        entries: vec![
            entry("/p/Engine/Src/A.h", &["#include \"B.h\""]),
            entry("/p/Engine/Src/B.h", &["#include \"C.h\""]),
            entry("/p/Engine/Src/C.h", &["#include \"A.h\""]),
        ],
    };
    let mut project = one_module_project();
    let report = run(&mut project, &fs, "/p/Engine/Src/A.h").unwrap();
    assert_eq!(report.entries.len(), 1);
    assert_eq!(report.entries[0].file_name, b"A.h".to_vec());
    assert_eq!(report.entries[0].paths.len(), 1);
    assert_eq!(names(&report.entries[0].paths[0]), vec!["A.h", "B.h", "C.h", "A.h"]);
}

#[test]
fn self_inclusion() {
    let fs = FsData {
        entries: vec![entry("/p/Engine/Src/A.h", &["#include \"A.h\""])],
    };
    let mut project = one_module_project();
    let report = run(&mut project, &fs, "/p/Engine/Src/A.h").unwrap();
    assert_eq!(report.entries.len(), 1);
    assert_eq!(report.entries[0].file_name, b"A.h".to_vec());
    assert_eq!(report.entries[0].paths.len(), 1);
    assert_eq!(names(&report.entries[0].paths[0]), vec!["A.h", "A.h"]);
}

#[test]
fn diamond_shares_one_record() {
    let fs = FsData {
        entries: vec![
            entry("/p/Engine/Src/A.h", &["#include \"B.h\"", "#include \"C.h\""]),
            entry("/p/Engine/Src/B.h", &["#include \"D.h\""]),
            entry("/p/Engine/Src/C.h", &["#include \"D.h\""]),
            entry("/p/Engine/Src/D.h", &[]),
        ],
    };
    let mut project = one_module_project();
    let report = run(&mut project, &fs, "/p/Engine/Src/A.h").unwrap();
    assert_eq!(report.entries.len(), 0);
    // D is parsed exactly once: four files, four records, no duplicates.
    assert_eq!(project.files.len(), 4);
    let d_records = project
        .files
        .iter()
        .filter(|f| f.abs_path == b"/p/Engine/Src/D.h".to_vec())
        .count();
    assert_eq!(d_records, 1);
}

#[test]
fn leaf_is_processed_without_children_or_entries() {
    let fs = FsData {
        entries: vec![entry("/p/Engine/Src/A.h", &["int x;", "// nothing to pull in"])],
    };
    let mut project = one_module_project();
    let report = run(&mut project, &fs, "/p/Engine/Src/A.h").unwrap();
    assert_eq!(report.entries.len(), 0);
    assert_eq!(project.files.len(), 1);
    assert!(project.files[0].processed);
    assert!(project.files[0].includes.is_empty());
}

#[test]
fn two_cycles_same_terminus_collapse_as_set() {
    // A includes B twice; both edges close the same readable path, and the
    // report keeps it once.
    let fs = FsData {
        entries: vec![
            entry("/p/Engine/Src/A.h", &["#include \"B.h\"", "#include \"B.h\""]),
            entry("/p/Engine/Src/B.h", &["#include \"A.h\""]),
        ],
    };
    let mut project = one_module_project();
    let report = run(&mut project, &fs, "/p/Engine/Src/A.h").unwrap();
    assert_eq!(report.entries.len(), 1);
    assert_eq!(report.entries[0].file_name, b"A.h".to_vec());
    assert_eq!(report.entries[0].paths.len(), 1);
    assert_eq!(names(&report.entries[0].paths[0]), vec!["A.h", "B.h", "A.h"]);
}

#[test]
fn unresolved_tokens_drop_the_edge() {
    let fs = FsData {
        entries: vec![
            entry("/p/Engine/Src/A.h", &["#include <vector>", "#include \"B.h\""]),
            entry("/p/Engine/Src/B.h", &[]),
        ],
    };
    let mut project = one_module_project();
    let report = run(&mut project, &fs, "/p/Engine/Src/A.h").unwrap();
    assert_eq!(report.entries.len(), 0);
    // The system header never resolves, so only A and B are cataloged.
    assert_eq!(project.files.len(), 2);
}

#[test]
fn reachable_unsupported_extension_aborts() {
    let fs = FsData {
        entries: vec![
            entry("/p/Engine/Src/A.h", &["#include \"Foo.txt\""]),
            entry("/p/Engine/Src/Foo.txt", &["just text"]),
        ],
    };
    let mut project = one_module_project();
    let err = run(&mut project, &fs, "/p/Engine/Src/A.h").unwrap_err();
    assert!(err.is_unsupported_file_type());
}

#[test]
fn reachable_unreadable_file_aborts() {
    let fs = FsData {
        entries: vec![
            entry("/p/Engine/Src/A.h", &["#include \"B.h\""]),
            FsEntry { path: b"/p/Engine/Src/B.h".to_vec(), lines: None },
        ],
    };
    let mut project = one_module_project();
    let err = run(&mut project, &fs, "/p/Engine/Src/A.h").unwrap_err();
    assert!(err.is_io());
}

#[test]
fn missing_entry_point_aborts() {
    let fs = FsData { entries: vec![] };
    let mut project = one_module_project();
    let path = b"/p/Engine/Src/A.h".to_vec();
    let err = project.create_file_info(&path, &fs).unwrap_err();
    assert!(err.is_io());
}

#[test]
fn reachable_file_outside_every_module_aborts() {
    let mut project = Project {
        root_path: b"/p".to_vec(),
        modules: vec![Module {
            name: b"Engine/Src".to_vec(),
            dirs: vec![b"/elsewhere".to_vec()],
        }],
        files: vec![],
    };
    let fs = FsData {
        entries: vec![entry("/elsewhere/A.h", &[])],
    };
    let path = b"/elsewhere/A.h".to_vec();
    let err = project.create_file_info(&path, &fs).unwrap_err();
    assert!(err.is_module_resolution());
}

#[test]
fn nested_cycle_below_the_root() {
    // The root is not part of the cycle: B and C cycle below A.
    let fs = FsData {
        entries: vec![
            entry("/p/Engine/Src/A.cpp", &["#include \"B.h\""]),
            entry("/p/Engine/Src/B.h", &["#include \"C.h\""]),
            entry("/p/Engine/Src/C.h", &["#include \"B.h\""]),
        ],
    };
    let mut project = one_module_project();
    let report = run(&mut project, &fs, "/p/Engine/Src/A.cpp").unwrap();
    assert_eq!(report.entries.len(), 1);
    assert_eq!(report.entries[0].file_name, b"B.h".to_vec());
    assert_eq!(names(&report.entries[0].paths[0]), vec!["A.cpp", "B.h", "C.h", "B.h"]);
}
