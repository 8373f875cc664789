use refac::drivers::rust::planner::plan_declaration_edits;
use refac::drivers::rust::module_graph::{check_module_shape, select_source_declaration};
use refac::drivers::rust::layout::{module_base_directory, module_files};
use refac::drivers::rust::references::{reference_replacement, super_path_replacement};

fn segs(v: &[&str]) -> Vec<String> {
    v.iter().map(|s| s.to_string()).collect()
}

#[test]
fn reference_within_crate_becomes_canonical_target() {
    let r = reference_replacement(
        "src/main.rs",
        &Vec::new(),
        &segs(&["crate", "a", "b", "Item"]),
        &segs(&["a", "b"]),
        &segs(&["c", "d"]),
        true,
    );
    assert_eq!(r.ok(), Some(Some("crate::c::d".to_string())));
}

#[test]
fn reference_from_other_crate_keeps_its_prefix() {
    let r = reference_replacement(
        "src/lib.rs",
        &Vec::new(),
        &segs(&["mycrate", "a", "b"]),
        &segs(&["a", "b"]),
        &segs(&["x"]),
        false,
    );
    assert_eq!(r.ok(), Some(Some("mycrate::x".to_string())));
}

#[test]
fn reference_not_naming_the_source_is_left_alone() {
    let r = reference_replacement("src/lib.rs", &Vec::new(), &segs(&["other", "q"]), &segs(&["a", "b"]), &segs(&["x"]), false);
    assert_eq!(r.ok(), Some(None));
}

#[test]
fn reference_inside_grouped_use_keeps_inherited_prefix() {
    let r = reference_replacement(
        "src/lib.rs",
        &segs(&["crate", "a"]),
        &segs(&["b"]),
        &segs(&["a", "b"]),
        &segs(&["a", "c"]),
        true,
    );
    assert_eq!(r.ok(), Some(Some("c".to_string())));
}

#[test]
fn reference_inside_grouped_use_that_cannot_express_target_is_refused() {
    let r = reference_replacement(
        "src/lib.rs",
        &segs(&["crate", "a"]),
        &segs(&["b"]),
        &segs(&["a", "b"]),
        &segs(&["z", "b"]),
        true,
    );
    match r {
        Err(e) => assert_eq!(
            e.message(),
            "Grouped use in src/lib.rs cannot express the new module path without restructuring the use item; split the relative group and retry"
        ),
        Ok(_) => panic!("expected a refusal"),
    }
}

#[test]
fn super_paths_become_crate_paths() {
    let r = super_path_replacement("src/a/b.rs", "super::c::D", &segs(&["super", "c", "D"]), &segs(&["a", "b"]));
    assert_eq!(r.ok(), Some(Some("crate::a::c::D".to_string())));
    let r = super_path_replacement("src/a.rs", "super::super", &segs(&["super", "super"]), &segs(&["a", "b"]));
    assert_eq!(r.ok(), Some(Some("crate".to_string())));
}

#[test]
fn paths_without_super_are_left_alone() {
    let r = super_path_replacement("src/a.rs", "crate::x", &segs(&["crate", "x"]), &segs(&["a"]));
    assert_eq!(r.ok(), Some(None));
}

#[test]
fn super_above_the_crate_root_is_refused() {
    let r = super_path_replacement("src/a.rs", "super::super::x", &segs(&["super", "super", "x"]), &segs(&["a"]));
    match r {
        Err(e) => assert_eq!(e.message(), "Path `super::super::x` in src/a.rs climbs above the crate root"),
        Ok(_) => panic!("expected a refusal"),
    }
}


fn entry(path: &str, module: &[&str]) -> (String, Vec<String>) {
    (path.to_string(), segs(module))
}

#[test]
fn module_files_of_a_file_module_with_children() {
    assert_eq!(module_base_directory("/p/src/a.rs", false), Some("/p/src/a".to_string()));
    let walked = segs(&["/p/src/a/b.rs", "/p/src/a/c/mod.rs", "/p/src/a/c/d.rs", "/p/src/a/notes.txt"]);
    assert_eq!(
        module_files("/p/src/a.rs", &segs(&["a"]), false, &walked),
        vec![
            entry("/p/src/a.rs", &["a"]),
            entry("/p/src/a/b.rs", &["a", "b"]),
            entry("/p/src/a/c/mod.rs", &["a", "c"]),
            entry("/p/src/a/c/d.rs", &["a", "c", "d"]),
        ]
    );
}

#[test]
fn module_files_of_a_mod_rs_module() {
    assert_eq!(module_base_directory("/p/src/m/mod.rs", true), Some("/p/src/m".to_string()));
    let walked = segs(&["/p/src/m/mod.rs", "/p/src/m/x.rs"]);
    assert_eq!(
        module_files("/p/src/m/mod.rs", &segs(&["m"]), true, &walked),
        vec![entry("/p/src/m/mod.rs", &["m"]), entry("/p/src/m/x.rs", &["m", "x"])]
    );
    assert_eq!(module_files("/p/src/m/mod.rs", &segs(&["m"]), true, &Vec::new()), vec![entry("/p/src/m/mod.rs", &["m"])]);
}

fn msg(r: Result<(), refac::drivers::rust::RustError>) -> String {
    match r {
        Ok(()) => String::new(),
        Err(e) => e.message(),
    }
}

#[test]
fn module_shapes_that_cannot_move_are_refused_in_order() {
    let m = segs(&["a", "b"]);
    assert!(check_module_shape(&m, false, false, false, "pub(crate)").is_ok());
    assert!(check_module_shape(&m, false, false, false, "").is_ok());
    assert_eq!(msg(check_module_shape(&m, true, true, true, "pub(super)")), "Inline module `crate::a::b` is not supported by move-module v1");
    assert_eq!(
        msg(check_module_shape(&m, false, true, true, "")),
        "Module `crate::a::b` uses #[path]; move-module never follows or creates path shims"
    );
    assert_eq!(
        msg(check_module_shape(&m, false, false, true, "")),
        "Module declaration for `crate::a::b` has attributes; cfg and attributed module moves are not supported in v1"
    );
    assert_eq!(
        msg(check_module_shape(&m, false, false, false, "pub(super)")),
        "Module `crate::a::b` uses unsupported visibility `pub(super)`; v1 supports private, pub, and pub(crate)"
    );
}

#[test]
fn the_source_module_is_the_one_distinct_declaration() {
    let m = segs(&["a"]);
    let decls = vec![("/w/x/src/lib.rs".to_string(), 4, 10), ("/w/x//src/lib.rs".to_string(), 4, 10)];
    assert_eq!(select_source_declaration(&m, "/w", &decls).ok(), Some(0));
    match select_source_declaration(&m, "/w", &Vec::new()) {
        Err(e) => assert_eq!(e.message(), "Could not resolve `crate::a` to an out-of-line module in /w"),
        Ok(_) => panic!("expected a refusal"),
    }
    let two = vec![("/w/x/src/lib.rs".to_string(), 4, 10), ("/w/y/src/lib.rs".to_string(), 0, 6)];
    match select_source_declaration(&m, "/w", &two) {
        Err(e) => assert_eq!(
            e.message(),
            "`crate::a` is ambiguous across 2 workspace crates: /w/x/src/lib.rs, /w/y/src/lib.rs"
        ),
        Ok(_) => panic!("expected a refusal"),
    }
}

fn replacements(v: Vec<refac::drivers::rust::apply::TextReplacement>) -> Vec<(String, usize, usize, String)> {
    v.into_iter().map(|r| (r.path, r.start, r.end, r.replacement)).collect()
}

#[test]
fn a_module_that_keeps_its_parent_is_renamed_in_place() {
    let content = "mod x;\npub mod b;\n";
    let r = plan_declaration_edits(
        "src/a.rs", 7, 17, 15, 16, "pub mod b;", &segs(&["a", "b"]), &segs(&["a", "c"]), "src/a.rs", content, content,
    );
    assert_eq!(replacements(r.ok().unwrap()), vec![("src/a.rs".to_string(), 15, 16, "c".to_string())]);
}

#[test]
fn a_module_that_changes_parent_moves_its_declaration() {
    let content = "mod x;\npub mod b;\nfn f() {}\n";
    let r = plan_declaration_edits(
        "src/a.rs", 7, 17, 15, 16, "pub mod b;", &segs(&["a", "b"]), &segs(&["z", "b2"]), "src/z.rs", content, "// z",
    );
    assert_eq!(
        replacements(r.ok().unwrap()),
        vec![
            ("src/a.rs".to_string(), 7, 18, String::new()),
            ("src/z.rs".to_string(), 4, 4, "\npub mod b2;\n".to_string()),
        ]
    );
    let err = plan_declaration_edits("src/a.rs", 0, 0, 0, 0, "", &segs(&["a"]), &Vec::new(), "src/z.rs", "", "");
    assert_eq!(err.err().unwrap().message(), "Target module has no name");
}
