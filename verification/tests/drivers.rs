use refac::drivers::go::{
    build_go_package_rename_request, build_go_post_lsp_source_path, build_go_target_package_path,
    find_go_package_name_position, go_identifier_end, parse_go_module_path,
};
use refac::drivers::lsp_client::{
    LspErrorInfo, Position, Range, RenameStep, TextEdit, apply_text_edits, ensure_response_ok,
    frame_message, is_content_modified_response, line_start_offsets, rename_step,
    should_skip_workspace_dir, try_apply_text_edits,
};
use refac::drivers::python::{PythonBackend, choose_python_backend};
use refac::drivers::rust::rename::module_name_position;
use refac::drivers::rust::{
    append_rust_line, crate_root_file, dedupe_existing, diff_paths, find_rust_module_declaration_line,
    find_rust_module_name_position, has_trimmed_line, is_valid_rust_identifier, replace_char_range,
    rust_alias_line, rust_module_candidates, rust_module_path, rust_path_declaration,
    rust_rename_names,
};
use refac::drivers::RefactorDriver;
use refac::drivers::dart::DartDriver;
use refac::drivers::markdown::MarkdownDriver;

fn edit(sl: u32, sc: u32, el: u32, ec: u32, text: &str) -> TextEdit {
    TextEdit {
        range: Range {
            start: Position { line: sl, character: sc },
            end: Position { line: el, character: ec },
        },
        new_text: text.to_string(),
    }
}

#[test]
fn test_parse_go_module_path() {
    let go_mod = "module example.com/demo\n\ngo 1.22\n";
    assert_eq!(parse_go_module_path(go_mod).as_deref(), Some("example.com/demo"));
}

#[test]
fn test_find_go_package_name_position() {
    let position =
        find_go_package_name_position("package util\n\nfunc Value() int { return 1 }\n").unwrap();
    assert_eq!(position.line, 0);
    assert_eq!(position.character, 8);
}

#[test]
fn go_module_path_skips_comments_and_quotes() {
    let go_mod = "// comment\n\n  module \"example.com/x\"  \r\n";
    assert_eq!(parse_go_module_path(go_mod).as_deref(), Some("example.com/x"));
    assert_eq!(parse_go_module_path("go 1.22\n"), None);
}

#[test]
fn go_package_position_counts_utf16_units() {
    let p = find_go_package_name_position("// x\n\u{3000}package main\n").unwrap();
    assert_eq!(p.line, 1);
    assert_eq!(p.character, 9);
    assert!(find_go_package_name_position("package \n").is_none());
    assert_eq!(go_identifier_end("abc_9-x", 0), 5);
}

#[test]
fn go_target_package_path() {
    let ok = build_go_target_package_path("/p", "/p/util2/x.go", Some("module ex.com/d\n")).ok().unwrap();
    assert_eq!(ok, "ex.com/d/util2");
    let ok = build_go_target_package_path("/p", "/p/x.go", Some("module ex.com/d\n")).ok().unwrap();
    assert_eq!(ok, "ex.com/d");
    let err = build_go_target_package_path("/p", "/q/x.go", Some("module ex.com/d\n")).err().unwrap();
    assert_eq!(err.message(), "Go target directory \"/q\" is outside project root");
    let err = build_go_target_package_path("/p", "/p/x.go", None).err().unwrap();
    assert_eq!(
        err.message(),
        "Go refactors that move files across directories require go.mod at project root"
    );
}

#[test]
fn go_package_rename_and_post_move_path() {
    let r = build_go_package_rename_request(
        "/p",
        "/p/util/util.go",
        "/p/util2/util.go",
        "package util\n",
        Some("module ex.com/d\n"),
    )
    .ok()
    .unwrap()
    .unwrap();
    assert_eq!(r.new_name, "ex.com/d/util2");
    assert_eq!(r.position.character, 8);
    assert!(build_go_package_rename_request("/p", "/p/a.go", "/p/b.go", "", None).ok().unwrap().is_none());
    assert_eq!(
        build_go_post_lsp_source_path("/p/util/a.go", "/p/util2/b.go", true).as_deref(),
        Some("/p/util2/a.go")
    );
    assert!(build_go_post_lsp_source_path("/p/util/a.go", "/p/util2/b.go", false).is_none());
}

#[test]
fn test_find_rust_module_name_position() {
    let content = "pub(crate) mod alpha;\nuse crate::alpha::value;\n";
    let position = find_rust_module_name_position(content, "alpha").unwrap();
    assert_eq!(position.line, 0);
    assert_eq!(position.character, 15);
}

#[test]
fn finds_utf16_module_position() {
    let position = module_name_position("pub(crate) mod alpha;\n", "alpha").unwrap();
    assert_eq!(position.line, 0);
    assert_eq!(position.character, 15);
}

#[test]
fn rust_module_positions_skip_comments_and_other_names() {
    let content = "// mod alpha;\nmod alphabet;\n/* é */ mod alpha;\n";
    let p = find_rust_module_name_position(content, "alpha").unwrap();
    assert_eq!(p.line, 2);
    assert_eq!(p.character, 12);
    let d = find_rust_module_declaration_line(content, "alpha").unwrap();
    assert_eq!(d.0, 28);
    assert_eq!(d.1, 47);
    assert_eq!(d.2, "/* é */ ");
    assert!(find_rust_module_declaration_line("mod alpha {}\n", "alpha").is_none());
}

#[test]
fn rust_identifiers_and_module_paths() {
    assert!(is_valid_rust_identifier("_x1"));
    assert!(!is_valid_rust_identifier("1x"));
    assert!(!is_valid_rust_identifier(""));
    let segs = rust_module_path("/p", "/p/src/a/b.rs").ok().unwrap();
    assert_eq!(segs, vec!["a".to_string(), "b".to_string()]);
    let segs = rust_module_path("/p", "/p/src/a/mod.rs").ok().unwrap();
    assert_eq!(segs, vec!["a".to_string()]);
    let err = rust_module_path("/p", "/q/src/a.rs").err().unwrap();
    assert_eq!(err.message(), "\"/q/src/a.rs\" is outside \"/p/src\"");
    assert_eq!(crate_root_file("/p", false, true).ok().unwrap(), "/p/src/main.rs");
    assert!(crate_root_file("/p", false, false).is_err());
}

#[test]
fn rust_candidates_and_relative_paths() {
    let c = rust_module_candidates("/p", "/p/src/a.rs");
    assert_eq!(c, vec!["/p/src/lib.rs", "/p/src/main.rs", "/p/src/mod.rs"]);
    let c = rust_module_candidates("/p", "/p/src/x/a.rs");
    assert_eq!(c, vec!["/p/src/x.rs", "/p/src/x/mod.rs"]);
    let d = dedupe_existing(
        &vec!["/a".to_string(), "/b".to_string(), "/a/".to_string()],
        &vec![true, false, true],
    );
    assert_eq!(d, vec!["/a".to_string()]);
    assert_eq!(diff_paths("/p/src/physics.rs", "/p/src/engine"), "../physics.rs");
    assert_eq!(diff_paths("/p/a", "/p/a"), "");
    assert_eq!(diff_paths("/x/y", "z"), "/x/y");
    assert_eq!(diff_paths("a/b", "c"), "../a/b");
}

#[test]
fn rust_edit_texts() {
    assert_eq!(append_rust_line("a", "b"), "a\nb\n");
    assert_eq!(append_rust_line("", "b"), "b\n");
    assert!(has_trimmed_line("x\n  use a;  \n", "use a;"));
    assert!(!has_trimmed_line("use ab;\n", "use a;"));
    assert_eq!(
        rust_path_declaration("../physics.rs", "pub ", "physics"),
        "#[path = \"../physics.rs\"]\npub mod physics;"
    );
    let old = vec!["engine".to_string(), "physics".to_string()];
    assert_eq!(rust_alias_line("pub ", &old, "physics", "physics"), "pub use crate::engine::physics;");
    assert_eq!(rust_alias_line("", &old, "physics", "phys"), "use crate::engine::physics as phys;");
    assert_eq!(replace_char_range("aé mod x;\nb", 0, 10, "y"), "y\nb");
}

#[test]
fn rust_rename_names_of_a_move() {
    let n = rust_rename_names("/p/src/a.rs", "/p/src/b.rs").ok().unwrap().unwrap();
    assert_eq!(n, ("a".to_string(), "b".to_string()));
    assert!(rust_rename_names("/p/src/a.rs", "/p/x/b.rs").ok().unwrap().is_none());
    assert!(rust_rename_names("/p/src/mod.rs", "/p/src/b.rs").ok().unwrap().is_none());
}

#[test]
fn test_apply_text_edits_rewrites_ascii_content() {
    let content = "mod a;\nfn main() { a::value(); }\n";
    let edits = vec![edit(0, 4, 0, 5, "b"), edit(1, 12, 1, 13, "b")];
    let updated = apply_text_edits(content, &edits).ok().unwrap();
    assert_eq!(updated, "mod b;\nfn main() { b::value(); }\n");
}

#[test]
fn test_apply_text_edits_handles_utf16_positions() {
    let content = "🙂value\n";
    let edits = vec![edit(0, 2, 0, 7, "name")];
    let updated = apply_text_edits(content, &edits).ok().unwrap();
    assert_eq!(updated, "🙂name\n");
}

#[test]
fn text_edits_refuse_bad_positions() {
    let err = try_apply_text_edits("a\n", &vec![edit(5, 0, 5, 0, "x")]).err().unwrap();
    assert_eq!(err.message(), "LSP edit line 5 is out of bounds for document with 2 lines");
    let err = try_apply_text_edits("abc\n", &vec![edit(0, 2, 0, 1, "x")]).err().unwrap();
    assert_eq!(err.message(), "Invalid edit range: start 2 is after end 1");
    let ok = try_apply_text_edits("ab\r\ncd", &vec![edit(0, 9, 0, 9, "!")]).ok().unwrap().unwrap();
    assert_eq!(ok, "ab!\r\ncd");
    assert_eq!(line_start_offsets("a\nbc\n"), vec![0, 2, 5]);
}

#[test]
fn lsp_reply_checks() {
    let err = Some(LspErrorInfo { code: Some(-32602), message: Some("bad".to_string()) });
    assert_eq!(ensure_response_ok(&err, "initialize").err().unwrap(), "initialize failed (-32602): bad");
    let err = Some(LspErrorInfo { code: None, message: None });
    assert_eq!(ensure_response_ok(&err, "m").err().unwrap(), "m failed (0): Unknown LSP error");
    assert!(ensure_response_ok(&None, "m").is_ok());
    assert!(is_content_modified_response(&Some(LspErrorInfo { code: Some(-32801), message: None })));
    assert!(is_content_modified_response(&Some(LspErrorInfo {
        code: Some(1),
        message: Some("Content Modified".to_string()),
    })));
    assert!(!is_content_modified_response(&None));
    assert!(should_skip_workspace_dir("/p/node_modules"));
    assert!(!should_skip_workspace_dir("/p/src"));
    assert_eq!(frame_message("{\"é\":1}"), "Content-Length: 8\r\n\r\n{\"é\":1}");
}

#[test]
fn rename_steps() {
    let modified = Some(LspErrorInfo { code: Some(-32801), message: None });
    assert!(matches!(rename_step(0, &modified, false, "textDocument/rename"), RenameStep::Retry));
    match rename_step(4, &modified, false, "textDocument/rename") {
        RenameStep::Fail(m) => assert_eq!(m, "textDocument/rename failed (-32801): Unknown LSP error"),
        _ => panic!("expected a failure"),
    }
    assert!(matches!(rename_step(0, &None, true, "textDocument/rename"), RenameStep::Apply));
    match rename_step(0, &None, false, "textDocument/rename") {
        RenameStep::Fail(m) => assert_eq!(m, "textDocument/rename returned no workspace edit"),
        _ => panic!("expected a failure"),
    }
}

#[test]
fn driver_languages() {
    assert_eq!(MarkdownDriver::new().lang(), "markdown");
    let d = DartDriver::new();
    assert_eq!(d.lang(), "dart");
    assert_eq!(d.client.binary_path(), "dart");
    assert_eq!(choose_python_backend(false, true), Some(PythonBackend::Pyrefly));
    assert_eq!(choose_python_backend(true, true), Some(PythonBackend::Rope));
    assert_eq!(choose_python_backend(false, false), None);
}
