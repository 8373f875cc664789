use refac::drivers::go::{build_go_package_rename_request, build_go_target_package_path};
use refac::drivers::lsp_client::{Position, Range, TextEdit, try_apply_text_edits};
use refac::drivers::markdown::check_markdown_sources;
use refac::drivers::markdown::rewrite::pathing::relative_link_text;
use refac::drivers::rust::layout::{physical_moves, track_missing_directories};
use refac::drivers::rust::rename::symbol_rename_names;
use refac::drivers::rust::{crate_root_file, rust_module_path, rust_rename_names};
use refac::logic::LogicError;
use refac::validation::initial_sanity_check;

fn strings(v: &[&str]) -> Vec<String> {
    v.iter().map(|s| s.to_string()).collect()
}

#[test]
fn a_source_that_is_its_own_target_is_refused() {
    let err = initial_sanity_check(&strings(&["a.md"]), "move", Some(&strings(&["a.md"])), None, &vec![true]);
    assert_eq!(err.err().unwrap().message(), "Source and target are identical: a.md");
}

#[test]
fn a_move_without_targets_is_refused() {
    assert_eq!(LogicError::MissingTargets.message(), "Target path required for move");
}

#[test]
fn markdown_refuses_directories_and_missing_relative_paths() {
    assert!(check_markdown_sources(&vec![false, false]).is_ok());
    assert_eq!(
        check_markdown_sources(&vec![false, true]).err().unwrap().message(),
        "Markdown driver only supports file moves, not directories"
    );
    let from = "/a/b".to_string();
    let to = "/a/c.md".to_string();
    assert_eq!(
        relative_link_text(&from, &to, None).err().unwrap().message(),
        "Failed to compute relative markdown path from /a/b to /a/c.md"
    );
    assert_eq!(
        relative_link_text(&from, &to, Some(String::new())).err().unwrap().message(),
        "Cannot emit an empty markdown link path from /a/b to /a/c.md"
    );
    assert_eq!(relative_link_text(&from, &to, Some("../c.md".to_string())).ok().unwrap(), "../c.md");
}

#[test]
fn go_package_paths_need_a_readable_go_mod_and_a_declaration() {
    assert_eq!(
        build_go_target_package_path("/p", "/p/x/a.go", Some("// no module here\n")).err().unwrap().message(),
        "Could not parse module path from go.mod"
    );
    assert_eq!(
        build_go_target_package_path("/p", "/", Some("module example.com/m\n")).err().unwrap().message(),
        "Go target path is missing a parent directory"
    );
    let err = build_go_package_rename_request("/p", "/p/a/x.go", "/p/b/x.go", "func main() {}\n", Some("module m\n"));
    assert_eq!(err.err().unwrap().message(), "Could not find a package declaration in the Go source file");
}

#[test]
fn reversed_lsp_ranges_are_refused() {
    let edit = TextEdit {
        range: Range { start: Position { line: 0, character: 3 }, end: Position { line: 0, character: 1 } },
        new_text: "x".to_string(),
    };
    let err = try_apply_text_edits("abcdef", &vec![edit]).err().unwrap();
    assert_eq!(err.message(), "Invalid edit range: start 3 is after end 1");
}

#[test]
fn rust_layout_refusals() {
    assert_eq!(
        crate_root_file("/p", false, false).err().unwrap().message(),
        "Could not find Rust crate root file (src/lib.rs or src/main.rs)"
    );
    assert_eq!(crate_root_file("/p", false, true).ok().unwrap(), "/p/src/main.rs");
    let mut created = Vec::new();
    assert_eq!(
        track_missing_directories("/", "/", &vec![false], &mut created).err().unwrap().message(),
        "Directory has no parent"
    );
    assert_eq!(physical_moves("/", true, false, "/p/src/lib.rs", "m").err().unwrap().message(), "mod.rs module has no directory");
}

#[test]
fn rust_stem_refusals() {
    assert_eq!(rust_rename_names("/", "/").err().unwrap().message(), "Rust source file is missing a valid stem");
    assert_eq!(
        rust_rename_names("/x/a.rs", "/x/..").err().unwrap().message(),
        "Rust target file is missing a valid stem"
    );
    assert_eq!(
        symbol_rename_names("/", "/").err().unwrap().message(),
        "Rust source file is missing a valid UTF-8 stem"
    );
    assert_eq!(
        symbol_rename_names("/x/a.rs", "/x/..").err().unwrap().message(),
        "Rust target file is missing a valid UTF-8 stem"
    );
    assert_eq!(rust_module_path("/p", "/p/src/..").err().unwrap().message(), "Rust file is missing a valid stem");
}
