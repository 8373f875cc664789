use refac::drivers::markdown::rewrite::href::{
    classify_link_target, has_uri_scheme, is_external_href, rebuild_href, split_href_fragment,
};
use refac::drivers::markdown::rewrite::pathing::{
    ResolvedMove, common_prefix_dir, determine_workspace_root, normalize_path, relative_link_from,
    resolve_moves,
};
use refac::drivers::markdown::rewrite::{
    build_rewrite_plan, lookup_move, rewrite_markdown_links, try_rewrite_markdown_links,
};
use refac::drivers::markdown::MarkdownError;

fn lookup(pairs: &[(&str, &str)]) -> Vec<(String, String)> {
    pairs.iter().map(|(a, b)| (a.to_string(), b.to_string())).collect()
}

#[test]
fn rewrites_links_when_target_moves() {
    let content = "# Index\n\nSee [Guide](./guide.md#deep-dive).\n";
    let original = "/tmp/project/index.md";
    let final_path = original;
    let lookup = lookup(&[("/tmp/project/guide.md", "/tmp/project/reference/guide.md")]);

    let rewritten = rewrite_markdown_links(content, original, final_path, &lookup).ok().unwrap();

    assert!(rewritten.contains("(./reference/guide.md#deep-dive)"));
}

#[test]
fn rewrites_links_when_file_itself_moves() {
    let content = "# Guide\n\nSee [Sibling](./sibling.md).\n";
    let original = "/tmp/project/guide.md";
    let final_path = "/tmp/project/docs/guide.md";
    let lookup = Vec::new();

    let rewritten = rewrite_markdown_links(content, original, final_path, &lookup).ok().unwrap();

    assert!(rewritten.contains("(../sibling.md)"));
}

#[test]
fn rewrites_reference_definitions_when_target_moves() {
    let content = "# Index\n\nSee [Guide][guide].\n\n[guide]: ./guide.md#deep-dive \"Title\"\n";
    let original = "/tmp/project/index.md";
    let final_path = original;
    let lookup = lookup(&[("/tmp/project/guide.md", "/tmp/project/reference/guide.md")]);

    let rewritten = rewrite_markdown_links(content, original, final_path, &lookup).ok().unwrap();

    assert!(rewritten.contains("[guide]: ./reference/guide.md#deep-dive \"Title\""));
    assert!(rewritten.contains("See [Guide][guide]."));
}

#[test]
fn rewrites_reference_definitions_when_file_itself_moves() {
    let content = "# Guide\n\nSee [Sibling][sibling].\n\n[sibling]: ./sibling.md\n";
    let original = "/tmp/project/guide.md";
    let final_path = "/tmp/project/docs/guide.md";
    let lookup = Vec::new();

    let rewritten = rewrite_markdown_links(content, original, final_path, &lookup).ok().unwrap();

    assert!(rewritten.contains("[sibling]: ../sibling.md"));
    assert!(rewritten.contains("See [Sibling][sibling]."));
}

#[test]
fn preserves_fragment_rebuild() {
    let (path, fragment) = split_href_fragment("./guide.md#anchor");
    let rebuilt = rebuild_href(&path, fragment.as_deref());
    assert_eq!(rebuilt, "./guide.md#anchor");
}

#[test]
fn rewrites_both_inline_and_trailing_reference_definition_when_file_moves() {
    let content = "# Guide\n\nSee [Setup](./setup.md).\n\n[home]: ../index.md \"Home\"\n";
    let original = "/tmp/project/docs/guide.md";
    let final_path = "/tmp/project/docs/sub/guide.md";
    let lookup = Vec::new();

    let rewritten = rewrite_markdown_links(content, original, final_path, &lookup).ok().unwrap();

    assert!(
        rewritten.contains("[home]: ../../index.md \"Home\""),
        "reference definition colon was corrupted: {rewritten:?}"
    );
    assert!(rewritten.contains("(../setup.md)"), "inline link was not recalculated: {rewritten:?}");
}

#[test]
fn prefixes_same_directory_relative_links() {
    let path = relative_link_from(
        &"/tmp/project/docs".to_string(),
        &"/tmp/project/docs/guide.md".to_string(),
    )
    .ok()
    .unwrap();

    assert_eq!(path, "./guide.md");
}

#[test]
fn relative_links_walk_up_to_the_shared_directory() {
    let path = relative_link_from(&"/a/b/c".to_string(), &"/a/x/y.md".to_string()).ok().unwrap();
    assert_eq!(path, "../../x/y.md");
}

#[test]
fn relative_link_to_own_directory_is_refused_as_empty() {
    let err = relative_link_from(&"/a/b".to_string(), &"/a/b".to_string()).err().unwrap();
    assert!(matches!(err, MarkdownError::EmptyLink { .. }));
    assert_eq!(err.message(), "Cannot emit an empty markdown link path from /a/b to /a/b");
}

#[test]
fn relative_link_between_absolute_and_relative_is_refused() {
    let err = relative_link_from(&"/a/b".to_string(), &"x/y.md".to_string()).err().unwrap();
    assert!(matches!(err, MarkdownError::RelativePath { .. }));
}

#[test]
fn rebuild_drops_an_empty_fragment() {
    let (path, fragment) = split_href_fragment("./a.md#");
    assert_eq!(path, "./a.md");
    assert_eq!(fragment.as_deref(), Some(""));
    assert_eq!(rebuild_href(&path, fragment.as_deref()), "./a.md");
    let (path, fragment) = split_href_fragment("./a.md#x#y");
    assert_eq!(fragment.as_deref(), Some("x#y"));
    assert_eq!(rebuild_href(&path, fragment.as_deref()), "./a.md#x#y");
}

#[test]
fn external_links_are_left_alone() {
    assert!(is_external_href("https://example.com/a.md"));
    assert!(is_external_href("  #section"));
    assert!(is_external_href("/abs/path.md"));
    assert!(is_external_href("mailto:someone@example.com"));
    assert!(!is_external_href("./guide.md"));
    assert!(!is_external_href("C:\\docs\\guide.md"));
    assert!(has_uri_scheme("git+ssh:host"));
    assert!(!has_uri_scheme("c:thing"));
    assert!(!has_uri_scheme("1http:x"));
}

#[test]
fn classifies_local_links() {
    let r = classify_link_target("/p/docs/a.md", "../b.md#top").ok().unwrap().unwrap();
    assert_eq!(r.absolute_path, "/p/b.md");
    assert_eq!(r.fragment.as_deref(), Some("top"));
    assert!(classify_link_target("/p/a.md", "#only").ok().unwrap().is_none());
    let err = classify_link_target("", "b.md").err().unwrap();
    assert_eq!(err.message(), "Missing parent directory for ");
}

#[test]
fn rewrite_without_moves_keeps_text() {
    let content = "[a](./a.md) and [b](../b.md#x)\n";
    let out = rewrite_markdown_links(content, "/p/q/doc.md", "/p/q/doc.md", &Vec::new()).ok().unwrap();
    assert_eq!(out, content);
}

#[test]
fn rewritten_link_points_to_the_moved_file() {
    let content = "[g](sub/guide.md#h)";
    let moves = lookup(&[("/p/sub/guide.md", "/p/other/deep/guide.md")]);
    let out = rewrite_markdown_links(content, "/p/index.md", "/p/x/index.md", &moves).ok().unwrap();
    assert_eq!(out, "[g](../other/deep/guide.md#h)");
    let target = classify_link_target("/p/x/index.md", "../other/deep/guide.md#h").ok().unwrap().unwrap();
    assert_eq!(target.absolute_path, "/p/other/deep/guide.md");
}

#[test]
fn rewrite_keeps_non_ascii_text_around_links() {
    let content = "é [a](./a.md) ü";
    let out = rewrite_markdown_links(content, "/p/doc.md", "/p/sub/doc.md", &Vec::new()).ok().unwrap();
    assert_eq!(out, "é [a](../a.md) ü");
}

#[test]
fn try_rewrite_reports_missing_parent() {
    let err = try_rewrite_markdown_links("[a](./a.md)", "/p/doc.md", "", &Vec::new()).err().unwrap();
    assert_eq!(err.message(), "Missing parent directory for ");
}

#[test]
fn normalizes_paths() {
    assert_eq!(normalize_path("/a/./b/../c//d"), "/a/c/d");
    assert_eq!(normalize_path("a/../../b"), "b");
    assert_eq!(normalize_path("./x/y"), "x/y");
    assert_eq!(normalize_path(&normalize_path("/a/b/../c")), normalize_path("/a/b/../c"));
}

#[test]
fn common_prefix_of_directories() {
    assert_eq!(common_prefix_dir("/a/b/c", "/a/b/d"), "/a/b");
    assert_eq!(common_prefix_dir("/a", "b"), "");
}

#[test]
fn lookup_takes_the_last_matching_move() {
    let moves = lookup(&[("/a/x.md", "/b/1.md"), ("/a//x.md", "/b/2.md")]);
    assert_eq!(lookup_move(&moves, "/a/x.md").as_deref(), Some("/b/2.md"));
    assert!(lookup_move(&moves, "/a/y.md").is_none());
}

fn pairs(v: &[(&str, &str)]) -> Vec<(String, String)> {
    lookup(v)
}

#[test]
fn resolves_moves_and_refuses_bad_ones() {
    let ok = resolve_moves(
        &pairs(&[("a.md", "docs/a.md")]),
        Some("/p"),
        Some("/cwd"),
        &vec![true],
        &vec![false],
    )
    .ok()
    .unwrap();
    assert_eq!(ok.len(), 1);
    assert_eq!(ok[0].source_abs, "/p/a.md");
    assert_eq!(ok[0].target_abs, "/p/docs/a.md");

    let err = resolve_moves(&pairs(&[("a.txt", "b.md")]), Some("/p"), None, &vec![true], &vec![false])
        .err()
        .unwrap();
    assert_eq!(err.message(), "Markdown driver only supports .md files: /p/a.txt");

    let err = resolve_moves(&pairs(&[("a.md", "b.txt")]), Some("/p"), None, &vec![true], &vec![false])
        .err()
        .unwrap();
    assert_eq!(err.message(), "Markdown driver target must end with .md: /p/b.txt");

    let err = resolve_moves(&pairs(&[("a.md", "b.md")]), Some("/p"), None, &vec![false], &vec![false])
        .err()
        .unwrap();
    assert_eq!(err.message(), "Markdown source path must be an existing file: /p/a.md");

    let err = resolve_moves(&pairs(&[("a.md", "b.md")]), Some("/p"), None, &vec![true], &vec![true])
        .err()
        .unwrap();
    assert_eq!(err.message(), "Markdown target already exists: /p/b.md");

    let err = resolve_moves(
        &pairs(&[("a.md", "b.md"), ("./a.md", "c.md")]),
        Some("/p"),
        None,
        &vec![true, true],
        &vec![false, false],
    )
    .err()
    .unwrap();
    assert_eq!(err.message(), "Duplicate markdown source path in batch: /p/a.md");

    let err = resolve_moves(
        &pairs(&[("a.md", "c.md"), ("b.md", "c.md")]),
        Some("/p"),
        None,
        &vec![true, true],
        &vec![false, false],
    )
    .err()
    .unwrap();
    assert_eq!(err.message(), "Duplicate markdown target path in batch: /p/c.md");

    let err = resolve_moves(&pairs(&[("a.md", "b.md")]), None, None, &vec![true], &vec![false])
        .err()
        .unwrap();
    assert_eq!(err.message(), "Failed to read current directory");
}

#[test]
fn workspace_root_is_the_shared_directory() {
    let moves = vec![
        ResolvedMove { source_abs: "/p/docs/a.md".to_string(), target_abs: "/p/docs/x/a.md".to_string() },
        ResolvedMove { source_abs: "/p/docs/y/b.md".to_string(), target_abs: "/p/c.md".to_string() },
    ];
    assert_eq!(determine_workspace_root(&moves, None, None).ok().unwrap(), "/p");
    assert_eq!(determine_workspace_root(&moves, Some("r"), Some("/cwd")).ok().unwrap(), "/cwd/r");
    let err = determine_workspace_root(&Vec::new(), None, None).err().unwrap();
    assert_eq!(err.message(), "Cannot determine markdown workspace root from an empty move set");
}

#[test]
fn builds_the_rewrite_plan() {
    let moves = vec![ResolvedMove {
        source_abs: "/p/guide.md".to_string(),
        target_abs: "/p/docs/guide.md".to_string(),
    }];
    let files = pairs(&[
        ("/p/index.md", "[g](./guide.md)\n"),
        ("/p/guide.md", "[i](./index.md)\n"),
        ("/p/other.md", "no links\n"),
    ]);
    let plan = build_rewrite_plan(&moves, &files).ok().unwrap();
    assert_eq!(plan.len(), 2);
    assert_eq!(plan[0], ("/p/index.md".to_string(), "[g](./docs/guide.md)\n".to_string()));
    assert_eq!(plan[1], ("/p/docs/guide.md".to_string(), "[i](../index.md)\n".to_string()));
}
