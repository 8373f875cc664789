use refac::drivers::markdown::parser::inline::{MarkdownLinkTargetKind, MarkdownReferenceUsageKind};
use refac::drivers::markdown::parser::parse_markdown_links;
use refac::drivers::markdown::parser::shared::{compute_suppressed_ranges, is_suppressed};

fn chars(s: &str) -> Vec<char> {
    s.chars().collect()
}

#[test]
fn parses_inline_links_and_images() {
    let content = "See [Guide](./guide.md) and ![Diagram](./diagram.png).";
    let parsed = parse_markdown_links(content);

    assert_eq!(parsed.targets.len(), 2);
    assert_eq!(parsed.targets[0].kind, MarkdownLinkTargetKind::Inline);
    assert_eq!(parsed.targets[0].href, "./guide.md");
    assert_eq!(parsed.targets[1].href, "./diagram.png");
}

#[test]
fn preserves_anchor_fragments_in_href_slice() {
    let content = "[Deep Dive](../docs/guide.md#details)";
    let parsed = parse_markdown_links(content);

    assert_eq!(parsed.targets.len(), 1);
    assert_eq!(parsed.targets[0].href, "../docs/guide.md#details");
}

#[test]
fn parses_reference_definitions_and_usages() {
    let content = "\
See [Guide][guide ref], [overview][], and [shortcut].
\n\
[guide ref]: ./guide.md#deep \"Guide Title\"
\n\
[overview]: <../overview.md>
\n\
[shortcut]: ./shortcut.md
";
    let parsed = parse_markdown_links(content);

    assert_eq!(parsed.targets.len(), 3);
    assert_eq!(
        parsed
            .targets
            .iter()
            .filter(|target| target.kind == MarkdownLinkTargetKind::ReferenceDefinition)
            .count(),
        3
    );
    assert_eq!(parsed.targets[0].href, "./guide.md#deep");
    assert_eq!(parsed.targets[1].href, "../overview.md");
    assert_eq!(parsed.targets[2].href, "./shortcut.md");

    assert_eq!(parsed.reference_usages.len(), 3);
    assert_eq!(parsed.reference_usages[0].kind, MarkdownReferenceUsageKind::Full);
    assert_eq!(parsed.reference_usages[0].normalized_label, "guide ref");
    assert_eq!(parsed.reference_usages[1].kind, MarkdownReferenceUsageKind::Collapsed);
    assert_eq!(parsed.reference_usages[1].normalized_label, "overview");
    assert_eq!(parsed.reference_usages[2].kind, MarkdownReferenceUsageKind::Shortcut);
    assert_eq!(parsed.reference_usages[2].normalized_label, "shortcut");
}

#[test]
fn skips_ambiguous_shortcut_references() {
    let content = "\
See [Guide].
\n\
[guide]: ./one.md
\n\
[ Guide ]: ./two.md
";
    let parsed = parse_markdown_links(content);

    assert!(parsed.reference_usages.is_empty());
}

#[test]
fn suppresses_fenced_code_block() {
    let content = "before\n```\n[link](./path.md)\n```\nafter";
    let ranges = compute_suppressed_ranges(&chars(content));
    let fence_start = content.find("```").unwrap();
    let link_pos = content.find('[').unwrap();
    let after_pos = content.rfind("after").unwrap();
    assert!(is_suppressed(fence_start, &ranges), "opening fence line should be suppressed");
    assert!(is_suppressed(link_pos, &ranges), "link inside code block should be suppressed");
    assert!(!is_suppressed(0, &ranges), "content before fence should not be suppressed");
    assert!(!is_suppressed(after_pos, &ranges), "content after fence should not be suppressed");
}

#[test]
fn suppresses_tilde_fenced_code_block() {
    let content = "~~~\n[link](./path.md)\n~~~\n";
    let ranges = compute_suppressed_ranges(&chars(content));
    let link_pos = content.find('[').unwrap();
    assert!(is_suppressed(link_pos, &ranges));
}

#[test]
fn suppresses_inline_code_span() {
    let content = "See `[link](./path.md)` here.";
    let ranges = compute_suppressed_ranges(&chars(content));
    let link_pos = content.find('[').unwrap();
    assert!(is_suppressed(link_pos, &ranges), "link in backtick span should be suppressed");
    assert!(!is_suppressed(0, &ranges), "content outside span should not be suppressed");
}

#[test]
fn does_not_suppress_normal_links() {
    let content = "[link](./path.md)";
    let ranges = compute_suppressed_ranges(&chars(content));
    assert!(ranges.is_empty());
}

#[test]
fn suppresses_unclosed_fence_to_end_of_content() {
    let content = "```\n[link](./path.md)\n";
    let ranges = compute_suppressed_ranges(&chars(content));
    let link_pos = content.find('[').unwrap();
    assert!(is_suppressed(link_pos, &ranges));
}

#[test]
fn links_inside_code_are_not_recognised() {
    let parsed = parse_markdown_links("```\n[a](./a.md)\n[b]: ./b.md\n```\n");
    assert!(parsed.targets.is_empty());
    assert!(parsed.reference_usages.is_empty());
    let parsed = parse_markdown_links("See `[a](./a.md)` and [b](./b.md).");
    assert_eq!(parsed.targets.len(), 1);
    assert_eq!(parsed.targets[0].href, "./b.md");
}

#[test]
fn link_ranges_are_byte_offsets() {
    let content = "é [a](x.md) and [b]: y.md\n[c]: z.md\n";
    let parsed = parse_markdown_links(content);
    assert_eq!(parsed.targets.len(), 2);
    let def = &parsed.targets[0];
    assert_eq!(def.href, "z.md");
    assert_eq!(&content[def.href_start..def.href_end], "z.md");
    let inline = &parsed.targets[1];
    assert_eq!(inline.href, "x.md");
    assert_eq!((inline.href_start, inline.href_end), (7, 11));
    assert_eq!(&content[inline.href_start..inline.href_end], "x.md");
}
