use refac::drivers::lsp_client::{OffsetTextEdit, sort_offset_edits};
use refac::drivers::markdown::rewrite::rewrite_markdown_links;
use refac::logic::{Language, plan_batches, refactor_report, rel_display};
use refac::validation::resolve_source_path;

fn strings(v: &[&str]) -> Vec<String> {
    v.iter().map(|s| s.to_string()).collect()
}

fn moves(v: &[(&str, &str)]) -> Vec<(String, String)> {
    v.iter().map(|(a, b)| (a.to_string(), b.to_string())).collect()
}

#[test]
fn external_links_are_left_alone_when_the_file_moves() {
    let content = "[web](https://example.com/a.md) [root](/abs/a.md) [here](#top) [local](./a.md)";
    let out = rewrite_markdown_links(content, "/p/doc.md", "/p/sub/doc.md", &Vec::new()).ok().unwrap();
    assert_eq!(out, "[web](https://example.com/a.md) [root](/abs/a.md) [here](#top) [local](../a.md)");
}

#[test]
fn a_file_without_links_to_moved_files_keeps_its_text() {
    let content = "[a](./a.md) and [b](../b.md#x)\n";
    let lookup = moves(&[("/p/other.md", "/p/elsewhere/other.md")]);
    let out = rewrite_markdown_links(content, "/p/q/doc.md", "/p/q/doc.md", &lookup).ok().unwrap();
    assert_eq!(out, content);
}

#[test]
fn the_report_names_every_move_and_every_failure() {
    let done = vec![
        (Language::Markdown, moves(&[("/p/a.md", "/p/b.md"), ("/p/c.md", "/p/d/c.md")])),
        (Language::Python, moves(&[("/p/x.py", "/p/y.py")])),
    ];
    let failed = vec![(Language::Rust, moves(&[("/p/m.rs", "/p/n.rs")]), "no rust-analyzer".to_string())];
    let report = refactor_report(&done, &failed, &Vec::new(), Some("/p"), &Vec::new()).err().unwrap();
    for line in ["a.md -> b.md  \n", "c.md -> d/c.md  \n", "x.py -> y.py  \n", "m.rs -> n.rs  \n"] {
        assert!(report.contains(line), "missing {line:?} in {report:?}");
    }
    assert!(report.contains("no rust-analyzer"));
    assert!(report.starts_with("// Alhamdulillah 3 file were successfully refactored:\n"));
}

#[test]
fn each_move_goes_to_the_batch_of_its_language() {
    let b = plan_batches(
        &strings(&["lib/a.rs", "pkg/b.go", "c.dart", "d.py", "notes.txt", "web"]),
        &strings(&["lib/a2.rs", "pkg2/b.go", "c2.dart", "d2.py", "n2.txt", "web2"]),
        &vec![false, false, false, false, false, true],
        &vec![false, false, false, false, false, true],
    )
    .ok()
    .unwrap();
    let langs: Vec<Language> = b.batches.iter().map(|(l, _)| *l).collect();
    assert_eq!(langs, vec![Language::Dart, Language::Go, Language::Python, Language::Rust, Language::TypeScript]);
    assert_eq!(b.batches[3].1, moves(&[("lib/a.rs", "lib/a2.rs")]));
    assert_eq!(b.batches[4].1, moves(&[("web", "web2")]));
    assert_eq!(b.skipped, strings(&["notes.txt"]));
}

#[test]
fn edits_are_ordered_from_the_last_in_the_text() {
    let edit = |start: usize, end: usize, text: &str| OffsetTextEdit { start, end, text: text.to_string() };
    let sorted = sort_offset_edits(&vec![edit(1, 2, "a"), edit(5, 5, "b"), edit(1, 3, "c"), edit(5, 5, "d")]);
    let order: Vec<(usize, usize, String)> = sorted.into_iter().map(|e| (e.start, e.end, e.text)).collect();
    assert_eq!(
        order,
        vec![(5, 5, "b".to_string()), (5, 5, "d".to_string()), (1, 3, "c".to_string()), (1, 2, "a".to_string())]
    );
}

#[test]
fn links_that_still_lead_to_their_files_are_kept() {
    let content = "[c](../c.md) [d](./d.md)";
    let out = rewrite_markdown_links(content, "/p/a/doc.md", "/p/b/doc.md", &Vec::new()).ok().unwrap();
    assert_eq!(out, "[c](../c.md) [d](../a/d.md)");
}

#[test]
fn the_report_shows_a_relative_request_by_its_components() {
    let resolved = resolve_source_path("src/./a.ts", Some("/p"));
    assert_eq!(resolved, "/p/src/./a.ts");
    assert_eq!(rel_display(&resolved, Some("/p")), "src/./a.ts");
    assert_eq!(rel_display("/p//a//b/.", Some("/p")), "a//b");
    assert_eq!(rel_display("/p/./a", Some("/p/")), "a");
    assert_eq!(rel_display("/q/a", Some("/p")), "/q/a");
    assert_eq!(rel_display(&resolve_source_path("./x/y.md", Some("/p/")), Some("/p/")), "x/y.md");
}

#[test]
fn links_written_inside_code_are_never_rewritten() {
    let content = "```\n[a](./a.md)\n```\n`[b](./b.md)` [c](./c.md)\n";
    let out = rewrite_markdown_links(content, "/p/doc.md", "/p/sub/doc.md", &Vec::new()).ok().unwrap();
    assert_eq!(out, "```\n[a](./a.md)\n```\n`[b](./b.md)` [c](../c.md)\n");
}
