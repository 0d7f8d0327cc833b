use cbuild::commands::{collect_compiled_objects, compile_invocation, link_invocation, CompileOutcome};
use cbuild::includes::{update_library_list, SourceText};
use cbuild::kinds::ArtifactKind;
use cbuild::paths::{extract_unique_file_names, extract_unique_paths};
use cbuild::pipeline::{next_stage, PipelineStage};
use cbuild::reconcile::{check_all_files, split_files_by_extension};
use cbuild::walker::{collect_files, explore_directory, FsTree};

fn b(s: &str) -> Vec<u8> {
    s.as_bytes().to_vec()
}

fn bs(items: &[&str]) -> Vec<Vec<u8>> {
    items.iter().map(|s| b(s)).collect()
}

fn file(path: &str) -> FsTree {
    FsTree::File { path: b(path) }
}

fn sample_tree() -> FsTree {
    FsTree::Dir {
        entries: vec![
            file("root/a.c"),
            file("root/B.C"),
            file("root/a.h"),
            FsTree::Dir {
                entries: vec![file("root/sub/c.c"), file("root/sub/d.dll"), file("root/sub/e.txt")],
            },
            file("root/noext"),
        ],
    }
}

#[test]
fn discovery_matches_extension_case_insensitively() {
    let tree = sample_tree();
    let sources = explore_directory(&tree, ArtifactKind::Source);
    assert_eq!(sources, bs(&["root/a.c", "root/B.C", "root/sub/c.c"]));
    let headers = explore_directory(&tree, ArtifactKind::Header);
    assert_eq!(headers, bs(&["root/a.h"]));
    let dlls = explore_directory(&tree, ArtifactKind::SharedLib);
    assert_eq!(dlls, bs(&["root/sub/d.dll"]));
    let objects = explore_directory(&tree, ArtifactKind::Object);
    assert!(objects.is_empty());
}

#[test]
fn discovery_of_empty_root_is_valid() {
    let tree = FsTree::Dir { entries: vec![] };
    assert!(explore_directory(&tree, ArtifactKind::Source).is_empty());
}

#[test]
fn discovery_yields_no_duplicates() {
    let tree = sample_tree();
    let sources = explore_directory(&tree, ArtifactKind::Source);
    for i in 0..sources.len() {
        for j in 0..sources.len() {
            if i != j {
                assert_ne!(sources[i], sources[j]);
            }
        }
    }
}

#[test]
fn collect_files_extends_the_collection() {
    let tree = sample_tree();
    let mut collected = bs(&["prior.c"]);
    collect_files(&tree, ArtifactKind::Source, &mut collected);
    assert_eq!(collected, bs(&["prior.c", "root/a.c", "root/B.C", "root/sub/c.c"]));
}

fn text(lines: &[&str]) -> SourceText {
    SourceText { lines: lines.iter().map(|l| b(l)).collect() }
}

fn sorted_items(set: &cbuild::includes::IncludeSet) -> Vec<Vec<u8>> {
    let mut items = set.items.clone();
    items.sort();
    items
}

#[test]
fn extraction_is_idempotent() {
    let files = vec![
        text(&["#include \"a.h\"", "int main() {}", "#include <m.dll>"]),
        text(&["#include \"a.h\"", "no directive here"]),
    ];
    let first = update_library_list(&files);
    let second = update_library_list(&files);
    assert_eq!(sorted_items(&first), sorted_items(&second));
    assert_eq!(sorted_items(&first), bs(&["a.h", "m.dll"]));
}

#[test]
fn extraction_is_order_independent() {
    let f1 = text(&["#include \"a.h\""]);
    let f2 = text(&["#include <b.h>", "#include \"c.dll\""]);
    let f3 = text(&["plain line"]);
    let one = update_library_list(&vec![
        text(&["#include \"a.h\""]),
        text(&["#include <b.h>", "#include \"c.dll\""]),
        text(&["plain line"]),
    ]);
    let other = update_library_list(&vec![f2, f3, f1]);
    assert_eq!(sorted_items(&one), sorted_items(&other));
}

#[test]
fn extraction_needs_the_marker() {
    let files = vec![text(&["\"quoted.h\" without directive", "#include \"real.h\""])];
    let set = update_library_list(&files);
    assert_eq!(set.items, bs(&["real.h"]));
}

#[test]
fn link_arguments_in_exact_order() {
    let inv = link_invocation(
        &b("tgt"),
        &bs(&["o1.o", "o2.o"]),
        &bs(&["incA"]),
        &bs(&["libA"]),
        &bs(&["m.dll"]),
    );
    assert_eq!(inv.program, b("gcc"));
    assert_eq!(
        inv.args,
        bs(&[
            "-o",
            "tgt/executable/main",
            "o1.o",
            "o2.o",
            "-I",
            "incA",
            "-L",
            "libA",
            "-l",
            "m",
            "-lm",
            "-Wall",
        ])
    );
}

#[test]
fn link_still_runs_after_one_compile_failure() {
    let results = vec![
        CompileOutcome { object_path: b("out/a.o"), success: true },
        CompileOutcome { object_path: b("out/b.o"), success: false },
        CompileOutcome { object_path: b("out/c.o"), success: true },
    ];
    let objects = collect_compiled_objects(&results);
    assert_eq!(objects, bs(&["out/a.o", "out/c.o"]));
    // a per-unit failure does not keep the pipeline from linking
    let after_compile = next_stage(PipelineStage::Compiling, false);
    assert_eq!(after_compile, PipelineStage::Linking);
    let inv = link_invocation(&b("tgt"), &objects, &bs(&[]), &bs(&[]), &bs(&[]));
    assert_eq!(
        inv.args,
        bs(&["-o", "tgt/executable/main", "out/a.o", "out/c.o", "-lm", "-Wall"])
    );
}

#[test]
fn stage_machine_runs_the_linear_pipeline() {
    let mut stage = PipelineStage::Idle;
    for expected in [
        PipelineStage::Discovering,
        PipelineStage::Extracting,
        PipelineStage::Reconciling,
        PipelineStage::Compiling,
        PipelineStage::Linking,
        PipelineStage::Launching,
        PipelineStage::Done,
    ] {
        stage = next_stage(stage, true);
        assert_eq!(stage, expected);
    }
    assert_eq!(next_stage(PipelineStage::Done, false), PipelineStage::Done);
}

#[test]
fn link_failure_skips_launching() {
    assert_eq!(next_stage(PipelineStage::Linking, false), PipelineStage::Failed);
    assert_eq!(next_stage(PipelineStage::Launching, false), PipelineStage::Failed);
    assert_eq!(next_stage(PipelineStage::Failed, true), PipelineStage::Failed);
}

#[test]
fn end_to_end_single_unit_project() {
    // a root holding a.c (which includes a.h) and a.h
    let tree = FsTree::Dir { entries: vec![file("a.c"), file("a.h")] };
    let c_files = explore_directory(&tree, ArtifactKind::Source);
    let h_files = explore_directory(&tree, ArtifactKind::Header);
    assert_eq!(c_files, bs(&["a.c"]));
    assert_eq!(h_files, bs(&["a.h"]));

    // extraction over the one translation unit
    let contents = vec![text(&["#include \"a.h\"", "int main() { return 0; }"])];
    let declared = update_library_list(&contents);
    let (_, expected_h, _, _, _) = split_files_by_extension(&declared);
    assert_eq!(expected_h, bs(&["a.h"]));

    // reconciliation: the declared header is present, so nothing is missing
    let missing = check_all_files(&h_files, &expected_h);
    assert!(missing.is_empty());

    // one compile invocation, one object
    let inv = compile_invocation(&b("tgt"), &c_files[0]);
    assert_eq!(inv.args, bs(&["a.c", "-c", "-o", "tgt/output/a.o"]));
    let results = vec![CompileOutcome { object_path: b("tgt/output/a.o"), success: true }];
    let objects = collect_compiled_objects(&results);
    assert_eq!(objects, bs(&["tgt/output/a.o"]));

    // linking over the object set, include paths from the headers
    let include_paths = extract_unique_paths(&h_files);
    let dlls = explore_directory(&tree, ArtifactKind::SharedLib);
    let library_paths = extract_unique_paths(&dlls);
    let libraries = extract_unique_file_names(&dlls);
    let link = link_invocation(&b("tgt"), &objects, &include_paths, &library_paths, &libraries);
    assert_eq!(
        link.args,
        bs(&["-o", "tgt/executable/main", "tgt/output/a.o", "-I", "", "-lm", "-Wall"])
    );

    // the run reaches the launch when linking succeeds
    let mut stage = PipelineStage::Compiling;
    stage = next_stage(stage, true);
    assert_eq!(stage, PipelineStage::Linking);
    stage = next_stage(stage, true);
    assert_eq!(stage, PipelineStage::Launching);
    stage = next_stage(stage, true);
    assert_eq!(stage, PipelineStage::Done);
}
