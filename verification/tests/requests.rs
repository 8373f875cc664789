use refac::drivers::rust::module_graph::parse_module_path;
use refac::drivers::rust::planner::full_line_range;
use refac::drivers::rust::references::{desired_reference_path, simple_segments};
use refac::drivers::rust::validation::validate_paths;
use refac::drivers::rust::apply::{append_replacement, apply_file_edits};
use refac::drivers::rust::layout::{child_module_directory, physical_moves, track_missing_directories};
use refac::drivers::lsp_client::OffsetTextEdit;
use refac::logic::{
    BatchEvent, DispatchAction, Language, capitalize, dispatch_step, get_driver_by_lang, is_typescript_or_javascript, language_for_path,
    plan_batches, refactor_report, rel_display,
};
use refac::validation::initial_sanity_check;

fn strings(v: &[&str]) -> Vec<String> {
    v.iter().map(|s| s.to_string()).collect()
}

#[test]
fn test_valid_move_operation() {
    let source = strings(&["/tmp/dir/source.txt"]);
    let target = strings(&["target.txt"]);
    assert!(initial_sanity_check(&source, "move", Some(&target), None, &vec![true]).is_ok());
}

#[test]
fn test_invalid_operation() {
    let source = strings(&["any.txt"]);
    let result = initial_sanity_check(&source, "delete", None, None, &vec![false]);
    assert!(result.is_err());
    assert_eq!(
        result.err().unwrap().message(),
        "Operation 'delete' is not supported. Only 'move' is currently implemented."
    );
}

#[test]
fn test_missing_source_file() {
    let source = strings(&["non_existent.txt"]);
    let result = initial_sanity_check(&source, "move", None, None, &vec![false]);
    assert!(result.is_err());
    assert!(result.err().unwrap().message().contains("Source path does not exist"));
}

#[test]
fn test_mismatched_target_count() {
    let source = strings(&["/tmp/dir/source.txt"]);
    let target = strings(&["t1.txt", "t2.txt"]);
    let result = initial_sanity_check(&source, "move", Some(&target), None, &vec![true]);
    assert!(result.is_err());
    assert!(result.err().unwrap().message().contains("Mismatch check"));
}

#[test]
fn test_directory_source_passes_validation() {
    let source = strings(&["/tmp/some_dir"]);
    let target = strings(&["anywhere/foo"]);
    let result = initial_sanity_check(&source, "move", Some(&target), None, &vec![true]);
    assert!(result.is_ok(), "directory source should pass validation");
}

#[test]
fn test_relative_path_resolved_against_project_path() {
    let source = strings(&["sub/file.ts"]);
    let target = strings(&["sub/renamed.ts"]);
    assert!(initial_sanity_check(&source, "move", Some(&target), Some("/tmp/proj"), &vec![true]).is_ok());
    let err = initial_sanity_check(&source, "move", Some(&target), Some("/tmp/proj"), &vec![false])
        .err()
        .unwrap();
    assert_eq!(
        err.message(),
        "Source path does not exist: sub/file.ts (Resolved to: \"/tmp/proj/sub/file.ts\")"
    );
}

#[test]
fn test_duplicate_source_path_is_rejected() {
    let result = initial_sanity_check(
        &strings(&["/t/a.ts", "/t/a.ts"]),
        "move",
        Some(&strings(&["b.ts", "c.ts"])),
        None,
        &vec![true, true],
    );
    assert!(result.is_err());
    assert!(result.err().unwrap().message().contains("Duplicate source path"));
}

#[test]
fn test_duplicate_target_path_is_rejected() {
    let result = initial_sanity_check(
        &strings(&["/t/a.ts", "/t/b.ts"]),
        "move",
        Some(&strings(&["out.ts", "out.ts"])),
        None,
        &vec![true, true],
    );
    assert!(result.is_err());
    assert!(result.err().unwrap().message().contains("Duplicate target path"));
}

#[test]
fn test_source_equals_target_is_rejected() {
    let result = initial_sanity_check(
        &strings(&["/t/a.ts"]),
        "move",
        Some(&strings(&["/t/a.ts"])),
        None,
        &vec![true],
    );
    assert!(result.is_err());
    assert!(result.err().unwrap().message().contains("identical"));
}

#[test]
fn sanity_check_message_of_count_mismatch() {
    let err = initial_sanity_check(&strings(&["a"]), "move", Some(&strings(&[])), None, &vec![true])
        .err()
        .unwrap();
    assert_eq!(err.message(), "Mismatch check: Source count (1) != Target count (0)");
}

#[test]
fn languages_by_extension() {
    assert_eq!(language_for_path("a/b.md"), Some(Language::Markdown));
    assert_eq!(language_for_path("x.tsx"), Some(Language::TypeScript));
    assert_eq!(language_for_path("x.rs"), Some(Language::Rust));
    assert_eq!(language_for_path("x.txt"), None);
    assert_eq!(language_for_path(".md"), None);
    assert!(is_typescript_or_javascript("a.jsx"));
    assert_eq!(get_driver_by_lang("go").ok(), Some(Language::Go));
    assert_eq!(
        get_driver_by_lang("cobol").err().unwrap().message(),
        "Unsupported language: cobol"
    );
    assert_eq!(capitalize("typescript"), "Typescript");
    assert_eq!(capitalize(""), "");
    assert_eq!(rel_display("/p/src/a.ts", Some("/p")), "src/a.ts");
    assert_eq!(rel_display("/q/a.ts", Some("/p")), "/q/a.ts");
    assert_eq!(rel_display("/q/a.ts", None), "/q/a.ts");
}

#[test]
fn batches_group_by_language_in_name_order() {
    let b = plan_batches(
        &strings(&["a.ts", "b.md", "c.txt", "dir", "e.md"]),
        &strings(&["a2.ts", "b2.md", "c2.txt", "dir2", "e2.md"]),
        &vec![false, false, false, true, false],
        &vec![false, false, false, true, false],
    )
    .ok()
    .unwrap();
    assert_eq!(b.batches.len(), 2);
    assert_eq!(b.batches[0].0, Language::Markdown);
    assert_eq!(b.batches[0].1.len(), 2);
    assert_eq!(b.batches[1].0, Language::TypeScript);
    assert_eq!(b.batches[1].1, vec![("a.ts".to_string(), "a2.ts".to_string()), ("dir".to_string(), "dir2".to_string())]);
    assert_eq!(b.skipped, strings(&["c.txt"]));
    let err = plan_batches(&strings(&["d"]), &strings(&["e"]), &vec![true], &vec![false]).err().unwrap();
    assert_eq!(
        err.message(),
        "Directory moves are only supported for TypeScript/JavaScript projects. 'd' does not appear to contain TypeScript or JavaScript files."
    );
}

#[test]
fn refactor_report_text() {
    let done = vec![(Language::Go, vec![("/p/a.go".to_string(), "/p/b/a.go".to_string())])];
    let failed = vec![(Language::Rust, vec![("x.rs".to_string(), "y.rs".to_string())], "boom".to_string())];
    let report = refactor_report(&done, &failed, &strings(&["z.txt"]), Some("/p"), &strings(&["/p/b/c.go"]))
        .err()
        .unwrap();
    assert_eq!(
        report,
        "// Alhamdulillah 1 file was successfully refactored:\n\n// Go results:\n\na.go -> b/a.go  \n\n// Note — Go moves entire packages. The following files were also relocated as part of the package rename:  \n\nb/c.go  \n\n// Failed:\n\n// Rust — boom\n\nx.rs -> y.rs  \n\n// Skipped (unsupported extension):  \n\nz.txt  \n"
    );
    let err = refactor_report(&vec![], &failed, &vec![], None, &vec![]).err().unwrap();
    assert_eq!(err, "Rust: boom\n  x.rs -> y.rs");
    let none = refactor_report(&vec![], &vec![], &vec![], None, &vec![]).ok().unwrap();
    let all_done = refactor_report(&done, &vec![], &vec![], Some("/p"), &vec![]).ok().unwrap();
    assert_eq!(all_done, "// Alhamdulillah 1 file was successfully refactored:\n\n// Go results:\n\na.go -> b/a.go  \n");
    assert_eq!(none, "// Alhamdulillah 0 file were successfully refactored:\n");
}

#[test]
fn module_paths_parse() {
    assert_eq!(parse_module_path("crate::a::b").ok().unwrap(), strings(&["a", "b"]));
    assert_eq!(
        parse_module_path("self::a").err().unwrap().message(),
        "Rust module path must start with `crate::`: self::a"
    );
    assert_eq!(
        parse_module_path("crate").err().unwrap().message(),
        "The crate root cannot be moved; provide a child module path"
    );
    assert_eq!(
        parse_module_path("crate::a::9b").err().unwrap().message(),
        "Unsupported Rust module segment `9b` in `crate::a::9b`"
    );
    assert!(parse_module_path("crate::").is_err());
}

#[test]
fn module_moves_are_validated() {
    assert_eq!(
        validate_paths(&strings(&["a"]), &strings(&["a"])).err().unwrap().message(),
        "Source and target Rust module paths are identical"
    );
    assert_eq!(
        validate_paths(&strings(&["a"]), &strings(&["a", "b"])).err().unwrap().message(),
        "Cannot move `crate::a` into its own subtree `crate::a::b`"
    );
    assert!(validate_paths(&strings(&["a", "b"]), &strings(&["a"])).is_ok());
}

#[test]
fn references_and_segments() {
    let full = strings(&["dep", "a", "b"]);
    let r = desired_reference_path(&full, &strings(&["a", "b"]), &strings(&["c"]), false).ok().unwrap();
    assert_eq!(r, Some(strings(&["dep", "c"])));
    let r = desired_reference_path(&full, &strings(&["a", "b"]), &strings(&["c"]), true).ok().unwrap();
    assert_eq!(r, Some(strings(&["crate", "c"])));
    let r = desired_reference_path(&strings(&["a", "b"]), &strings(&["a", "b"]), &strings(&["c"]), false)
        .ok()
        .unwrap();
    assert_eq!(r, None);
    assert_eq!(simple_segments(" a :: b_1 ").ok().unwrap(), strings(&["a", "b_1"]));
    assert_eq!(
        simple_segments("a::<T>").err().unwrap().message(),
        "Unsupported complex Rust path `a::<T>` in move-module v1"
    );
    let t: Vec<char> = "ab\ncd mod x;\nef".chars().collect();
    assert_eq!(full_line_range(&t, 6, 11), (3, 13));
}

#[test]
fn planned_file_edits() {
    let path = "/p/src/lib.rs".to_string();
    let content = "mod a;\nmod b;\n".to_string();
    let edits = vec![
        OffsetTextEdit { start: 4, end: 5, text: "x".to_string() },
        OffsetTextEdit { start: 11, end: 12, text: "y".to_string() },
        OffsetTextEdit { start: 4, end: 5, text: "x".to_string() },
    ];
    assert_eq!(apply_file_edits(&path, &content, &edits).ok().unwrap(), "mod x;\nmod y;\n");
    let overlapping = vec![
        OffsetTextEdit { start: 0, end: 5, text: "".to_string() },
        OffsetTextEdit { start: 4, end: 6, text: "".to_string() },
    ];
    assert_eq!(
        apply_file_edits(&path, &content, &overlapping).err().unwrap().message(),
        "Overlapping semantic edits were planned for /p/src/lib.rs; no files were changed"
    );
    let outside = vec![OffsetTextEdit { start: 20, end: 30, text: "".to_string() }];
    assert_eq!(
        apply_file_edits(&path, &content, &outside).err().unwrap().message(),
        "Planned edit is outside /p/src/lib.rs"
    );
    let r = append_replacement("/p/a.rs", "x", "mod y;");
    assert_eq!((r.start, r.end, r.replacement.as_str()), (1, 1, "\nmod y;\n"));
}

#[test]
fn module_layout() {
    assert_eq!(child_module_directory("/p/src/lib.rs"), "/p/src");
    assert_eq!(child_module_directory("/p/src/engine.rs"), "/p/src/engine");
    let moves = physical_moves("/p/src/a.rs", false, true, "/p/src/lib.rs", "b").ok().unwrap();
    assert_eq!(moves.len(), 2);
    assert_eq!((moves[0].source.as_str(), moves[0].target.as_str()), ("/p/src/a.rs", "/p/src/b.rs"));
    assert_eq!((moves[1].source.as_str(), moves[1].target.as_str()), ("/p/src/a", "/p/src/b"));
    let mut created = Vec::new();
    track_missing_directories("/p", "/p/a/b", &vec![false, false, true, true], &mut created).ok().unwrap();
    assert_eq!(created, strings(&["/p/a/b", "/p/a"]));
    track_missing_directories("/p", "/p/a/c", &vec![false, false, true], &mut created).ok().unwrap();
    assert_eq!(created, strings(&["/p/a/b", "/p/a", "/p/a/c"]));
    let err = track_missing_directories("/p", "/q/a", &vec![false, false, true], &mut created).err().unwrap();
    assert_eq!(err.message(), "Refusing to create a Rust module directory outside /p");
    assert_eq!(created, strings(&["/p/a/b", "/p/a", "/p/a/c"]));
}

#[test]
fn a_failed_batch_does_not_stop_the_others() {
    let go = vec![("/p/a.go".to_string(), "/p/b/a.go".to_string())];
    let md = vec![("/p/a.md".to_string(), "/p/b.md".to_string())];
    let rs = vec![("/p/m.rs".to_string(), "/p/n.rs".to_string())];
    let (done, failed, action) =
        dispatch_step(&vec![], &vec![], Language::Go, &go, BatchEvent::Unavailable("no gopls".to_string()));
    assert!(matches!(action, DispatchAction::Next));
    assert!(done.is_empty());
    assert_eq!(failed.len(), 1);
    assert!(failed[0].0 == Language::Go && failed[0].1 == go && failed[0].2 == "no gopls");
    let (done, failed, action) = dispatch_step(&done, &failed, Language::Markdown, &md, BatchEvent::Moved);
    assert!(matches!(action, DispatchAction::Next));
    assert_eq!(done.len(), 1);
    assert!(done[0].0 == Language::Markdown && done[0].1 == md);
    assert_eq!(failed.len(), 1);
    let (done, failed, action) =
        dispatch_step(&done, &failed, Language::Rust, &rs, BatchEvent::MoveFailed("boom".to_string()));
    assert!(matches!(action, DispatchAction::Next));
    assert_eq!(done.len(), 1);
    assert_eq!(failed.len(), 2);
    assert!(failed[1].0 == Language::Rust && failed[1].1 == rs && failed[1].2 == "boom");
}

#[test]
fn missing_source_is_reported_as_joined_and_quoted() {
    let source = strings(&["./a b\"c\\d.ts"]);
    let target = strings(&["x.ts"]);
    let err = initial_sanity_check(&source, "move", Some(&target), Some("/p/"), &vec![false]).err().unwrap();
    assert_eq!(
        err.message(),
        "Source path does not exist: ./a b\"c\\d.ts (Resolved to: \"/p/./a b\\\"c\\\\d.ts\")"
    );
    let err = initial_sanity_check(&strings(&["tab\there.ts"]), "move", None, None, &vec![false]).err().unwrap();
    assert_eq!(err.message(), "Source path does not exist: tab\there.ts (Resolved to: \"tab\\there.ts\")");
    let err = initial_sanity_check(&strings(&["it's.ts"]), "move", None, None, &vec![false]).err().unwrap();
    assert_eq!(err.message(), "Source path does not exist: it's.ts (Resolved to: \"it's.ts\")");
}
