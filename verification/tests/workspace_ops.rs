use refac::drivers::lsp_client::uri_to_path;
use refac::drivers::markdown::parser::shared::normalize_reference_label;
use refac::drivers::lsp_client::{
    DeleteStep, ExistingPath, ResourceStep, create_file_step, delete_file_step, rename_file_step,
};
use refac::drivers::python::rope::rope_relative_paths;
use refac::logic::{count_source_files, go_collateral_files, go_target_directories};

fn strings(v: &[&str]) -> Vec<String> {
    v.iter().map(|s| s.to_string()).collect()
}

fn pairs(v: &[(&str, &str)]) -> Vec<(String, String)> {
    v.iter().map(|(a, b)| (a.to_string(), b.to_string())).collect()
}

#[test]
fn counts_each_script_once() {
    let files = strings(&["/p/a.ts", "/p/b.tsx", "/p/a.ts", "/p/readme.md", "/p/c.js", "/p/d.jsx"]);
    assert_eq!(count_source_files(&files), 4);
}

#[test]
fn counts_no_scripts_in_empty_or_foreign_lists() {
    assert_eq!(count_source_files(&Vec::new()), 0);
    assert_eq!(count_source_files(&strings(&["/p/main.rs", "/p/x.go"])), 0);
}

#[test]
fn create_file_proceeds_on_a_free_path() {
    assert_eq!(create_file_step(ExistingPath::Absent, false, false), ResourceStep::Proceed);
    assert_eq!(create_file_step(ExistingPath::Absent, true, true), ResourceStep::Proceed);
}

#[test]
fn create_file_on_an_existing_path_follows_its_options() {
    assert_eq!(
        create_file_step(ExistingPath::Directory, true, true),
        ResourceStep::ReplaceTarget { directory: true }
    );
    assert_eq!(
        create_file_step(ExistingPath::File, true, false),
        ResourceStep::ReplaceTarget { directory: false }
    );
    assert_eq!(create_file_step(ExistingPath::File, false, true), ResourceStep::Skip);
    assert_eq!(create_file_step(ExistingPath::File, false, false), ResourceStep::TargetExists);
}

#[test]
fn rename_file_without_source_is_done_or_refused() {
    assert_eq!(rename_file_step(false, ExistingPath::File, false, false), ResourceStep::Skip);
    assert_eq!(rename_file_step(false, ExistingPath::Absent, false, true), ResourceStep::Skip);
    assert_eq!(
        rename_file_step(false, ExistingPath::Absent, true, false),
        ResourceStep::SourceMissing
    );
}

#[test]
fn rename_file_with_source_treats_target_as_create_does() {
    assert_eq!(rename_file_step(true, ExistingPath::Absent, false, false), ResourceStep::Proceed);
    assert_eq!(
        rename_file_step(true, ExistingPath::File, false, false),
        ResourceStep::TargetExists
    );
    assert_eq!(
        rename_file_step(true, ExistingPath::Directory, true, false),
        ResourceStep::ReplaceTarget { directory: true }
    );
}

#[test]
fn delete_file_steps() {
    assert_eq!(delete_file_step(ExistingPath::File, false, false), DeleteStep::RemoveFile);
    assert_eq!(
        delete_file_step(ExistingPath::Directory, true, false),
        DeleteStep::RemoveDirectoryTree
    );
    assert_eq!(
        delete_file_step(ExistingPath::Directory, false, false),
        DeleteStep::RemoveEmptyDirectory
    );
    assert_eq!(delete_file_step(ExistingPath::Absent, false, true), DeleteStep::Skip);
    assert_eq!(delete_file_step(ExistingPath::Absent, true, false), DeleteStep::Missing);
}

#[test]
fn go_target_directories_are_listed_once() {
    let files = pairs(&[
        ("old/a.go", "pkg/new/a.go"),
        ("old/b.go", "pkg/new/b.go"),
        ("x/c.go", "/abs/other/c.go"),
    ]);
    assert_eq!(
        go_target_directories(&files, Some("/repo")),
        strings(&["/repo/pkg/new", "/abs/other"])
    );
}

#[test]
fn go_collaterals_are_unrequested_go_files() {
    let files = pairs(&[("old/a.go", "new/a.go")]);
    let entries = strings(&["/repo/new/a.go", "/repo/new/b.go", "/repo/new/notes.md", "/repo/new/c.go"]);
    assert_eq!(
        go_collateral_files(&files, Some("/repo"), &entries),
        strings(&["/repo/new/b.go", "/repo/new/c.go"])
    );
}

#[test]
fn go_collaterals_compare_paths_by_components() {
    let files = pairs(&[("a.go", "/repo/new//a.go")]);
    let entries = strings(&["/repo/new/a.go"]);
    assert!(go_collateral_files(&files, None, &entries).is_empty());
}

#[test]
fn rope_paths_are_relative_to_the_root() {
    let files = pairs(&[("/proj/lib/db.py", "/proj/lib/store/db.py"), ("app.py", "/elsewhere/app.py")]);
    assert_eq!(
        rope_relative_paths(&files, Some("/proj")),
        pairs(&[("lib/db.py", "lib/store/db.py"), ("app.py", "/elsewhere/app.py")])
    );
    assert_eq!(rope_relative_paths(&files, None), files);
}

#[test]
fn file_uris_become_paths() {
    assert_eq!(uri_to_path("file:///tmp/a%20b.rs"), Ok("/tmp/a b.rs".to_string()));
    assert_eq!(uri_to_path("https://example.com/x"), Err("Cannot convert URI to file path".to_string()));
    assert_eq!(uri_to_path("not a uri"), Err("Invalid URI: relative URL without a base".to_string()));
}

#[test]
fn reference_labels_fold_case_and_whitespace() {
    let t: Vec<char> = "[  Foo \t BAR  ]".chars().collect();
    assert_eq!(normalize_reference_label(&t, 1, t.len() - 1), "foo bar");
}
