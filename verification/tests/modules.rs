//! The module index, the file parser and the resolver: descriptor-driven
//! construction, token extraction, longest-name matching and fallback
//! precedence.

use ue_rec_deps_seeker::file_info::{FileInfo, FileType};
use ue_rec_deps_seeker::fsdata::{FsData, FsEntry};
use ue_rec_deps_seeker::project::{Module, Project};
use ue_rec_deps_seeker::find_rec_deps;

fn entry(path: &str, lines: &[&str]) -> FsEntry {
    FsEntry {
        path: path.as_bytes().to_vec(),
        lines: Some(lines.iter().map(|l| l.as_bytes().to_vec()).collect()),
    }
}

fn module(name: &str, dirs: &[&str]) -> Module {
    Module {
        name: name.as_bytes().to_vec(),
        dirs: dirs.iter().map(|d| d.as_bytes().to_vec()).collect(),
    }
}

fn text(b: &[u8]) -> String {
    String::from_utf8(b.to_vec()).unwrap()
}

#[test]
fn descriptor_builds_grouped_sorted_modules() {
    let fs = FsData {
        entries: vec![
            entry(
                "/p/CMakeLists.txt",
                &[
                    "cmake_minimum_required(VERSION 3.0)",
                    "include(\"/p/module_includes.cmake\")",
                    "include(\"/p/other.cmake\")",
                ],
            ),
            entry(
                "/p/module_includes.cmake",
                &[
                    "set(DIRS",
                    "\t\"/ue/Engine/Source/Runtime/Core/Public\"",
                    "  \"/ue/Engine/Source/Runtime/Public\"",
                    "  \"/ue/Engine/Source/Runtime/Private\"",
                    "  \"/ue/Intermediate/Build/Something\"",
                    ")",
                ],
            ),
        ],
    };
    let path = b"/p".to_vec();
    let project = Project::create(&path, &fs).unwrap();
    assert_eq!(project.root_path, b"/p".to_vec());
    assert!(project.files.is_empty());
    // Two modules, the public/private split folded into one, the
    // intermediate candidate dropped, shorter name first.
    assert_eq!(project.modules.len(), 2);
    assert_eq!(text(&project.modules[0].name), "Engine/Source/Runtime");
    assert_eq!(
        project.modules[0]
            .dirs
            .iter()
            .map(|d| text(d))
            .collect::<Vec<_>>(),
        vec![
            "/ue/Engine/Source/Runtime/Public",
            "/ue/Engine/Source/Runtime/Private",
        ],
    );
    assert_eq!(text(&project.modules[1].name), "Engine/Source/Runtime/Core");
    assert_eq!(
        project.modules[1]
            .dirs
            .iter()
            .map(|d| text(d))
            .collect::<Vec<_>>(),
        vec!["/ue/Engine/Source/Runtime/Core/Public"],
    );
}

#[test]
fn missing_descriptor_is_a_configuration_error() {
    let fs = FsData { entries: vec![] };
    let path = b"/p".to_vec();
    let err = Project::create(&path, &fs).unwrap_err();
    assert!(err.is_config());
}

#[test]
fn missing_referenced_file_is_a_configuration_error() {
    let fs = FsData {
        entries: vec![entry(
            "/p/CMakeLists.txt",
            &["include(\"/p/module_includes.cmake\")"],
        )],
    };
    let path = b"/p".to_vec();
    let err = Project::create(&path, &fs).unwrap_err();
    assert!(err.is_config());
}

#[test]
fn candidate_without_anchor_is_a_configuration_error() {
    let fs = FsData {
        entries: vec![
            entry("/p/CMakeLists.txt", &["include(\"/p/module_includes.cmake\")"]),
            entry("/p/module_includes.cmake", &["\"/somewhere/else/Public\""]),
        ],
    };
    let path = b"/p".to_vec();
    let err = Project::create(&path, &fs).unwrap_err();
    assert!(err.is_config());
}

#[test]
fn parse_extracts_tokens_and_kind() {
    let path = b"/p/Engine/Src/A.cpp".to_vec();
    let lines: Vec<Vec<u8>> = vec![
        b"// header".to_vec(),
        b"  #include \"First.h\"  ".to_vec(),
        b"#include <system/thing.h>".to_vec(),
        b"int main() { return 0; }".to_vec(),
    ];
    let modules = vec![module("Engine/Src", &["/p/Engine/Src"])];
    let info = FileInfo::create(&path, &lines, &modules).unwrap();
    assert_eq!(info.file_name, b"A.cpp".to_vec());
    assert_eq!(info.file_type, FileType::Source);
    assert_eq!(info.module, b"Engine/Src".to_vec());
    assert!(!info.processed);
    assert_eq!(
        info.includes.iter().map(|t| text(t)).collect::<Vec<_>>(),
        vec!["First.h", "<system/thing.h>"],
    );
}

#[test]
fn generated_headers_never_appear_among_includes() {
    let path = b"/p/Engine/Src/A.h".to_vec();
    let lines: Vec<Vec<u8>> = vec![
        b"#include \"Foo.generated.h\"".to_vec(),
        b"#include \"Bar.gen.h\"".to_vec(),
        b"#include \"Real.h\"".to_vec(),
    ];
    let modules = vec![module("Engine/Src", &["/p/Engine/Src"])];
    let info = FileInfo::create(&path, &lines, &modules).unwrap();
    assert_eq!(
        info.includes.iter().map(|t| text(t)).collect::<Vec<_>>(),
        vec!["Real.h"],
    );
}

#[test]
fn extension_decides_the_kind() {
    let modules = vec![module("Engine/Src", &["/p/Engine/Src"])];
    let cases: Vec<(&str, FileType)> = vec![
        ("/p/Engine/Src/a.h", FileType::Header),
        ("/p/Engine/Src/a.hpp", FileType::Header),
        ("/p/Engine/Src/a.c", FileType::Source),
        ("/p/Engine/Src/a.cpp", FileType::Source),
        ("/p/Engine/Src/a.inl", FileType::Inline),
    ];
    for (p, want) in cases {
        let path = p.as_bytes().to_vec();
        let info = FileInfo::create(&path, &vec![], &modules).unwrap();
        assert_eq!(info.file_type, want);
    }
    let bad = b"/p/Engine/Src/a.txt".to_vec();
    let err = FileInfo::create(&bad, &vec![], &modules).unwrap_err();
    assert!(err.is_unsupported_file_type());
}

#[test]
fn longest_module_name_wins() {
    // Both names occur in the path; the more specific module owns the file.
    let modules = vec![
        module("Engine/Source/Runtime", &["/ue/Engine/Source/Runtime/Public"]),
        module(
            "Engine/Source/Runtime/Core",
            &["/ue/Engine/Source/Runtime/Core/Public"],
        ),
    ];
    let path = b"/ue/Engine/Source/Runtime/Core/Public/Math.h".to_vec();
    let info = FileInfo::create(&path, &vec![], &modules).unwrap();
    assert_eq!(text(&info.module), "Engine/Source/Runtime/Core");
}

#[test]
fn resolver_prefers_the_including_module() {
    // The same file name exists in both modules; the including module's own
    // candidate directory wins.
    let mut project = Project {
        root_path: b"/p".to_vec(),
        modules: vec![
            module("Engine/A", &["/p/Engine/A"]),
            module("Engine/Bb", &["/p/Engine/Bb"]),
        ],
        files: vec![],
    };
    let fs = FsData {
        entries: vec![
            entry("/p/Engine/A/X.h", &[]),
            entry("/p/Engine/Bb/X.h", &[]),
        ],
    };
    let token = b"X.h".to_vec();
    let from = b"Engine/Bb".to_vec();
    let idx = project.get_file(&token, &from, &fs).unwrap().unwrap();
    assert_eq!(text(&project.files[idx].abs_path), "/p/Engine/Bb/X.h");
}

#[test]
fn resolver_falls_back_in_list_order() {
    // Unresolved in its own module, the token is tried against the other
    // modules in ascending-name-length order; the first hit wins even
    // though a longer-named module also holds the file.
    let mut project = Project {
        root_path: b"/p".to_vec(),
        modules: vec![
            module("Engine/A", &["/p/Engine/A"]),
            module("Engine/Bb", &["/p/Engine/Bb"]),
            module("Engine/Ccc", &["/p/Engine/Ccc"]),
        ],
        files: vec![],
    };
    let fs = FsData {
        entries: vec![
            entry("/p/Engine/Bb/X.h", &[]),
            entry("/p/Engine/Ccc/X.h", &[]),
        ],
    };
    let token = b"X.h".to_vec();
    let from = b"Engine/A".to_vec();
    let idx = project.get_file(&token, &from, &fs).unwrap().unwrap();
    assert_eq!(text(&project.files[idx].abs_path), "/p/Engine/Bb/X.h");
}

#[test]
fn resolving_twice_returns_the_cached_record() {
    let mut project = Project {
        root_path: b"/p".to_vec(),
        modules: vec![module("Engine/A", &["/p/Engine/A"])],
        files: vec![],
    };
    let fs = FsData {
        entries: vec![entry("/p/Engine/A/X.h", &[])],
    };
    let token = b"X.h".to_vec();
    let from = b"Engine/A".to_vec();
    let first = project.get_file(&token, &from, &fs).unwrap().unwrap();
    assert_eq!(project.files.len(), 1);
    let second = project.get_file(&token, &from, &fs).unwrap().unwrap();
    assert_eq!(first, second);
    assert_eq!(project.files.len(), 1);
}

#[test]
fn unresolved_token_is_no_error() {
    let mut project = Project {
        root_path: b"/p".to_vec(),
        modules: vec![module("Engine/A", &["/p/Engine/A"])],
        files: vec![],
    };
    let fs = FsData { entries: vec![] };
    let token = b"NotThere.h".to_vec();
    let from = b"Engine/A".to_vec();
    assert!(project.get_file(&token, &from, &fs).unwrap().is_none());
}

#[test]
fn whole_run_from_descriptor_to_report() {
    let fs = FsData {
        entries: vec![
            entry("/p/CMakeLists.txt", &["include(\"/p/module_includes.cmake\")"]),
            entry("/p/module_includes.cmake", &["\"/p/Engine/Core/Public\""]),
            entry("/p/Engine/Core/Public/A.h", &["#include \"B.h\""]),
            entry("/p/Engine/Core/Public/B.h", &["#include \"A.h\""]),
        ],
    };
    let root = b"/p".to_vec();
    let entry_point = b"/p/Engine/Core/Public/A.h".to_vec();
    let report = find_rec_deps(&fs, &root, &entry_point).unwrap();
    assert_eq!(report.entries.len(), 1);
    assert_eq!(report.entries[0].file_name, b"A.h".to_vec());
    assert_eq!(report.entries[0].paths.len(), 1);
    let path_names: Vec<String> = report.entries[0].paths[0]
        .iter()
        .map(|n| text(n))
        .collect();
    assert_eq!(path_names, vec!["A.h", "B.h", "A.h"]);
}

#[test]
fn equal_length_module_names_sort_lexicographically() {
    let fs = FsData {
        entries: vec![
            entry("/p/CMakeLists.txt", &["include(\"/p/module_includes.cmake\")"]),
            entry(
                "/p/module_includes.cmake",
                &["\"/x/Engine/Bb\"", "\"/x/Engine/Aa\""],
            ),
        ],
    };
    let path = b"/p".to_vec();
    let project = Project::create(&path, &fs).unwrap();
    assert_eq!(project.modules.len(), 2);
    assert_eq!(text(&project.modules[0].name), "Engine/Aa");
    assert_eq!(text(&project.modules[1].name), "Engine/Bb");
}

#[test]
fn tab_separated_directive_still_yields_the_token() {
    let path = b"/p/Engine/Src/A.h".to_vec();
    let lines: Vec<Vec<u8>> = vec![b"#include\t\"Tabbed.h\"".to_vec()];
    let modules = vec![module("Engine/Src", &["/p/Engine/Src"])];
    let info = FileInfo::create(&path, &lines, &modules).unwrap();
    assert_eq!(
        info.includes.iter().map(|t| text(t)).collect::<Vec<_>>(),
        vec!["Tabbed.h"],
    );
}

#[test]
fn duplicate_candidate_directories_collapse() {
    let fs = FsData {
        entries: vec![
            entry("/p/CMakeLists.txt", &["include(\"/p/module_includes.cmake\")"]),
            entry(
                "/p/module_includes.cmake",
                &[
                    "\"/x/Engine/Core/Public\"",
                    "\"/x/Engine/Core/Public\"",
                ],
            ),
        ],
    };
    let path = b"/p".to_vec();
    let project = Project::create(&path, &fs).unwrap();
    assert_eq!(project.modules.len(), 1);
    assert_eq!(project.modules[0].dirs.len(), 1);
}

#[test]
fn inline_files_take_part_in_cycles() {
    let mut project = Project {
        root_path: b"/p".to_vec(),
        modules: vec![module("Engine/Src", &["/p/Engine/Src"])],
        files: vec![],
    };
    let fs = FsData {
        entries: vec![
            entry("/p/Engine/Src/A.hpp", &["#include \"B.inl\""]),
            entry("/p/Engine/Src/B.inl", &["#include \"A.hpp\""]),
        ],
    };
    let entry_path = b"/p/Engine/Src/A.hpp".to_vec();
    let idx = project.create_file_info(&entry_path, &fs).unwrap();
    let arena: Vec<ue_rec_deps_seeker::node::Node> = Vec::new();
    let root = ue_rec_deps_seeker::node::Node::create(idx, None, &arena);
    let report = ue_rec_deps_seeker::node::Node::traverse(root, &mut project, &fs).unwrap();
    assert_eq!(report.entries.len(), 1);
    assert_eq!(report.entries[0].file_name, b"A.hpp".to_vec());
}

#[test]
fn whole_run_without_descriptor_fails_before_any_parse() {
    let fs = FsData {
        entries: vec![entry("/p/Engine/Core/Public/A.h", &[])],
    };
    let root = b"/p".to_vec();
    let entry_point = b"/p/Engine/Core/Public/A.h".to_vec();
    let err = find_rec_deps(&fs, &root, &entry_point).unwrap_err();
    assert!(err.is_config());
}
