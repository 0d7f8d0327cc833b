use cbuild::commands::{
    collect_compiled_objects, compile_invocation, strip_library_name, CompileOutcome,
};
use cbuild::context::{extract_seconds_and_millis, ElapsedTime, RunContext};
use cbuild::includes::{
    extract_include_ref, get_exclude_list, put_library, trim_bytes, IncludeSet, SourceText,
};
use cbuild::kinds::{file_type_to_extension, ArtifactKind};
use cbuild::paths::{extract_unique_file_names, extract_unique_paths};
use cbuild::reconcile::{check_all_files, classify_reference, split_files_by_extension};

fn b(s: &str) -> Vec<u8> {
    s.as_bytes().to_vec()
}

fn bs(items: &[&str]) -> Vec<Vec<u8>> {
    items.iter().map(|s| b(s)).collect()
}

#[test]
fn extension_mapping_is_fixed() {
    assert_eq!(file_type_to_extension(ArtifactKind::Source), b("c"));
    assert_eq!(file_type_to_extension(ArtifactKind::Header), b("h"));
    assert_eq!(file_type_to_extension(ArtifactKind::SharedLib), b("dll"));
    assert_eq!(file_type_to_extension(ArtifactKind::StaticLib), b("a"));
    assert_eq!(file_type_to_extension(ArtifactKind::Object), b("o"));
}

#[test]
fn quoted_include_yields_reference() {
    let r = extract_include_ref(&b("#include \"foo.h\""));
    assert_eq!(r, Some(b("foo.h")));
}

#[test]
fn bracketed_include_yields_reference() {
    let r = extract_include_ref(&b("#include <stdio.h>"));
    assert_eq!(r, Some(b("stdio.h")));
}

#[test]
fn include_without_delimiters_yields_nothing() {
    let r = extract_include_ref(&b("#include bar"));
    assert_eq!(r, None);
}

#[test]
fn unbalanced_quote_is_skipped() {
    assert_eq!(extract_include_ref(&b("#include \"foo.h")), None);
}

#[test]
fn unbalanced_brackets_are_skipped() {
    assert_eq!(extract_include_ref(&b("#include <foo.h")), None);
    assert_eq!(extract_include_ref(&b("#include >foo.h<")), None);
}

#[test]
fn quotes_win_over_brackets() {
    let r = extract_include_ref(&b("#include \"a.h\" <b.h>"));
    assert_eq!(r, Some(b("a.h")));
}

#[test]
fn put_library_deduplicates() {
    let mut set = IncludeSet::new();
    put_library(&b("#include \"foo.h\""), &mut set);
    put_library(&b("#include \"foo.h\""), &mut set);
    put_library(&b("#include <m.dll>"), &mut set);
    assert_eq!(set.items, bs(&["foo.h", "m.dll"]));
}

#[test]
fn reconciler_reports_missing_header() {
    let discovered = bs(&["a/x.h"]);
    let declared = bs(&["a/y.h", "a/x.h"]);
    let missing = check_all_files(&discovered, &declared);
    assert_eq!(missing, bs(&["a/y.h"]));
}

#[test]
fn reconciler_is_empty_when_all_present() {
    let discovered = bs(&["a/x.h", "a/y.h"]);
    let declared = bs(&["a/y.h"]);
    let missing = check_all_files(&discovered, &declared);
    assert!(missing.is_empty());
}

#[test]
fn reconciler_compares_full_paths_not_basenames() {
    let discovered = bs(&["root/a.h"]);
    let declared = bs(&["a.h"]);
    let missing = check_all_files(&discovered, &declared);
    assert_eq!(missing, bs(&["a.h"]));
}

#[test]
fn classify_by_extension() {
    assert_eq!(classify_reference(&b("x.c")), Some(ArtifactKind::Source));
    assert_eq!(classify_reference(&b("x.H")), Some(ArtifactKind::Header));
    assert_eq!(classify_reference(&b("x.dll")), Some(ArtifactKind::SharedLib));
    assert_eq!(classify_reference(&b("x.a")), Some(ArtifactKind::StaticLib));
    assert_eq!(classify_reference(&b("x.o")), Some(ArtifactKind::Object));
    assert_eq!(classify_reference(&b("x.txt")), None);
    assert_eq!(classify_reference(&b("noext")), None);
}

#[test]
fn split_partitions_by_inferred_kind() {
    let mut set = IncludeSet::new();
    for s in ["u.c", "v.h", "w.dll", "x.a", "y.o", "z.txt", "plain"] {
        set.insert(b(s));
    }
    let (c, h, dll, a, o) = split_files_by_extension(&set);
    assert_eq!(c, bs(&["u.c"]));
    assert_eq!(h, bs(&["v.h"]));
    assert_eq!(dll, bs(&["w.dll"]));
    assert_eq!(a, bs(&["x.a"]));
    assert_eq!(o, bs(&["y.o"]));
}

#[test]
fn unique_parents_in_first_occurrence_order() {
    let paths = bs(&["incA/x.h", "incA/y.h", "incB/z.h", "x.h", "/top.h"]);
    let parents = extract_unique_paths(&paths);
    assert_eq!(parents, bs(&["incA", "incB", "", "/"]));
}

#[test]
fn unique_file_names_deduplicated() {
    let paths = bs(&["a/m.dll", "b/m.dll", "b/n.dll"]);
    let names = extract_unique_file_names(&paths);
    assert_eq!(names, bs(&["m.dll", "n.dll"]));
}

#[test]
fn library_decoration_is_stripped() {
    assert_eq!(strip_library_name(&b("m.dll")), b("m"));
    assert_eq!(strip_library_name(&b("libm.dll")), b("m"));
    assert_eq!(strip_library_name(&b("libfoo")), b("foo"));
    assert_eq!(strip_library_name(&b("plain")), b("plain"));
    assert_eq!(strip_library_name(&b("lib.dll")), b(""));
}

#[test]
fn compile_invocation_replaces_extension_and_normalizes() {
    let inv = compile_invocation(&b("tgt\\proj"), &b("src/dir/a.c"));
    assert_eq!(inv.program, b("gcc"));
    assert_eq!(
        inv.args,
        bs(&["src/dir/a.c", "-c", "-o", "tgt/proj/output/a.o"])
    );
    // a backslash is an ordinary byte in a path; only the rendered
    // invocation normalizes it
    let inv = compile_invocation(&b("t"), &b("win\\a.c"));
    assert_eq!(inv.args, bs(&["win/a.c", "-c", "-o", "t/output/win/a.o"]));
}

#[test]
fn compile_invocation_without_extension_gains_object_extension() {
    let inv = compile_invocation(&b("tgt"), &b("dir/main"));
    assert_eq!(inv.args, bs(&["dir/main", "-c", "-o", "tgt/output/main.o"]));
}

#[test]
fn objects_of_failed_compiles_are_absent() {
    let results = vec![
        CompileOutcome { object_path: b("out/o1.o"), success: true },
        CompileOutcome { object_path: b("out/o2.o"), success: false },
        CompileOutcome { object_path: b("out/o3.o"), success: true },
    ];
    let objects = collect_compiled_objects(&results);
    assert_eq!(objects, bs(&["out/o1.o", "out/o3.o"]));
}

#[test]
fn elapsed_time_splits_into_seconds_and_millis() {
    let t = ElapsedTime { secs: 3, subsec_nanos: 7_654_321 };
    assert_eq!(extract_seconds_and_millis(&t), (3, 7));
    let t = ElapsedTime { secs: 0, subsec_nanos: 999_999_999 };
    assert_eq!(extract_seconds_and_millis(&t), (0, 999));
}

#[test]
fn run_context_derives_its_paths() {
    let ctx = RunContext::with_time(b("work/proj"), b("target"), b("2024-01-31"));
    assert_eq!(ctx.get_project_path(), b("work/proj"));
    assert_eq!(ctx.get_target_path(), b("target/proj"));
    assert_eq!(ctx.get_log_path(), b("target/proj/logs/"));
    assert_eq!(ctx.get_log_file(), b("proj_2024-01-31.log"));
    assert_eq!(ctx.get_formatted_time(), b("2024-01-31"));
    assert_eq!(ctx.executable_launch_path(), b("target/proj/executable/main"));
    let dirs = ctx.directory_paths();
    assert_eq!(
        dirs,
        bs(&[
            "target/proj/executable",
            "target/proj/source",
            "target/proj/output",
            "target/proj/dll",
            "target/proj/a",
            "target/proj/logs/",
        ])
    );
    assert_eq!(ctx.destination_path(&b("source"), &b("work/proj/a.c")), b("target/proj/source/a.c"));
}

#[test]
fn run_context_stamps_a_date() {
    let ctx = RunContext::new(b("work/proj"), b("target"));
    let name = b("proj_");
    assert!(ctx.get_log_file().starts_with(&name[..]));
    assert!(ctx.get_log_file().ends_with(b".log"));
}

#[test]
fn exclude_entries_are_stripped_and_trimmed() {
    let files = vec![SourceText {
        lines: vec![b("// EXCLUDE: foo.c "), b("int x;"), b("// EXCLUDE:bar.c")],
    }];
    assert_eq!(get_exclude_list(&files), bs(&["foo.c", "bar.c"]));
}

#[test]
fn trim_removes_ascii_whitespace() {
    assert_eq!(trim_bytes(&b("  foo.c\t")), b("foo.c"));
    assert_eq!(trim_bytes(&b("   ")), b(""));
    assert_eq!(trim_bytes(&b("")), b(""));
    assert_eq!(trim_bytes(&b("x")), b("x"));
}
