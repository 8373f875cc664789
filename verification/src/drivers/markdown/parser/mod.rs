//! Markdown link parsing.
//!
//! Links are recognised outside fenced code blocks and inline code spans:
//! inline links and images `[text](href)`, and reference definitions
//! `[label]: href`. Usages of reference definitions are reported too.

pub mod shared;
pub mod definitions;
pub mod inline;

use vstd::prelude::*;
use crate::text::{byte_offsets, chars_of, lemma_utf8_len_concat, utf8_len};
use definitions::{
    DefinitionView, MarkdownReferenceDefinition, definition_on_line, definition_scan,
    definition_views, definitions_in_bounds, parse_reference_definitions, reference_definitions,
    scan_reference_definitions,
};
use inline::{
    MarkdownLinkTarget, MarkdownLinkTargetKind, MarkdownReferenceUsage, TargetView, UsageView,
    href_matches, inline_scan, next_is, parse_inline_links_and_reference_usages, target_views,
    usage_views,
};
use shared::{
    compute_suppressed_ranges, in_ranges, indent_from, inline_destination, lemma_bracket_scan,
    lemma_inline_destination, lemma_line_end, lemma_skip_ascii_ws, line_end_from,
    matching_bracket, skip_ascii_ws, suppressed_ranges,
};

verus! {

/// The links of a Markdown text: the destinations of reference definitions
/// first (in text order), then those of inline links and images, and the
/// reference usages.
pub struct ParsedMarkdownLinks {
    pub targets: Vec<MarkdownLinkTarget>,
    pub reference_usages: Vec<MarkdownReferenceUsage>,
}

/// The link target that a reference definition contributes.
pub open spec fn definition_target(t: Seq<char>, d: DefinitionView) -> TargetView {
    TargetView {
        kind: MarkdownLinkTargetKind::ReferenceDefinition,
        start: d.start,
        end: d.end,
        href: t.subrange(d.start, d.end),
    }
}

/// The targets and usages that `parse_markdown_links` reports for `t`.
pub open spec fn markdown_links(t: Seq<char>) -> (Seq<TargetView>, Seq<UsageView>) {
    let sup = suppressed_ranges(t);
    let defs = reference_definitions(t, sup);
    inline_scan(t, 0, sup, defs, defs.map_values(|d: DefinitionView| definition_target(t, d)), Seq::empty())
}

/// Whether the parse of `t` stays within `t` (see `definitions_in_bounds`).
pub open spec fn links_in_bounds(t: Seq<char>) -> bool {
    definitions_in_bounds(t, suppressed_ranges(t))
}

/// Whether `parse_markdown_links` may be called on `content`: false exactly
/// when a reference definition's destination would run past the end of the
/// text.
pub fn markdown_links_in_bounds(content: &str) -> (b: bool)
    ensures
        b == links_in_bounds(content@),
{
    let t = chars_of(content);
    let suppressed = compute_suppressed_ranges(&t);
    scan_reference_definitions(&t, &suppressed).is_some()
}

/// A link target of `t` with its character range given as UTF-8 byte offsets.
pub open spec fn byte_target(t: Seq<char>, v: TargetView) -> TargetView {
    TargetView {
        kind: v.kind,
        start: utf8_len(t.take(v.start)) as int,
        end: utf8_len(t.take(v.end)) as int,
        href: v.href,
    }
}

proof fn lemma_utf8_len_take_mono(t: Seq<char>, a: int, b: int)
    requires
        0 <= a <= b <= t.len(),
    ensures
        utf8_len(t.take(a)) <= utf8_len(t.take(b)),
{
    lemma_utf8_len_concat(t.take(a), t.subrange(a, b));
    assert(t.take(a) + t.subrange(a, b) =~= t.take(b));
}

/// Parses the links of `content`. The ranges of the targets are UTF-8 byte
/// offsets into `content`.
pub fn parse_markdown_links(content: &str) -> (parsed: ParsedMarkdownLinks)
    requires
        links_in_bounds(content@),
    ensures
        target_views(parsed.targets@) == markdown_links(content@).0.map_values(
            |v: TargetView| byte_target(content@, v),
        ),
        usage_views(parsed.reference_usages@) == markdown_links(content@).1,
        forall|k: int|
            0 <= k < parsed.targets@.len() ==> {
                let v = #[trigger] markdown_links(content@).0[k];
                &&& 0 <= v.start <= v.end <= content@.len()
                &&& parsed.targets@[k].href@ == content@.subrange(v.start, v.end)
                &&& parsed.targets@[k].href_start <= parsed.targets@[k].href_end <= utf8_len(content@)
            },
{
    let t = chars_of(content);
    let chars = parse_markdown_chars(&t);
    let offsets = byte_offsets(content);
    let ghost cv = target_views(chars.targets@);
    let mut targets: Vec<MarkdownLinkTarget> = Vec::new();
    let mut k: usize = 0;
    while k < chars.targets.len()
        invariant
            k <= chars.targets@.len(),
            t@ == content@,
            cv == target_views(chars.targets@),
            cv == markdown_links(content@).0,
            offsets@.len() == content@.len() + 1,
            forall|i: int| 0 <= i <= content@.len() ==> #[trigger] offsets@[i] == utf8_len(content@.take(i)),
            forall|m: int| 0 <= m < chars.targets@.len() ==> href_matches(t@, #[trigger] chars.targets@[m]),
            targets@.len() == k,
            target_views(targets@) == cv.take(k as int).map_values(|v: TargetView| byte_target(content@, v)),
            forall|m: int|
                0 <= m < k ==> #[trigger] targets@[m].href@ == chars.targets@[m].href@
                    && targets@[m].href_start <= targets@[m].href_end <= utf8_len(content@),
        decreases chars.targets.len() - k,
    {
        let x = &chars.targets[k];
        assert(href_matches(t@, chars.targets@[k as int]));
        proof {
            lemma_utf8_len_take_mono(content@, x.href_start as int, x.href_end as int);
            lemma_utf8_len_take_mono(content@, x.href_end as int, content@.len() as int);
            assert(content@.take(content@.len() as int) =~= content@);
        }
        let target = MarkdownLinkTarget {
            kind: x.kind,
            href_start: offsets[x.href_start],
            href_end: offsets[x.href_end],
            href: x.href.clone(),
        };
        let ghost before = targets@;
        assert(cv[k as int] == x@);
        assert(target@ == byte_target(content@, cv[k as int]));
        targets.push(target);
        assert(target_views(targets@) =~= target_views(before).push(target@));
        assert(cv.take(k + 1) =~= cv.take(k as int).push(cv[k as int]));
        assert(target_views(targets@) =~= cv.take(k + 1).map_values(
            |v: TargetView| byte_target(content@, v),
        ));
        k = k + 1;
    }
    assert(cv.take(chars.targets@.len() as int) =~= cv);
    assert forall|m: int| 0 <= m < targets@.len() implies {
        let v = #[trigger] markdown_links(content@).0[m];
        &&& 0 <= v.start <= v.end <= content@.len()
        &&& targets@[m].href@ == content@.subrange(v.start, v.end)
        &&& targets@[m].href_start <= targets@[m].href_end <= utf8_len(content@)
    } by {
        assert(cv[m] == chars.targets@[m]@);
        assert(href_matches(t@, chars.targets@[m]));
        assert(targets@[m].href@ == chars.targets@[m].href@);
        assert(markdown_links(content@).0[m] == cv[m]);
    }
    ParsedMarkdownLinks { targets, reference_usages: chars.reference_usages }
}

/// Parses the links of the text `t`.
pub fn parse_markdown_chars(t: &Vec<char>) -> (parsed: ParsedMarkdownLinks)
    requires
        links_in_bounds(t@),
    ensures
        (target_views(parsed.targets@), usage_views(parsed.reference_usages@)) == markdown_links(
            t@,
        ),
        forall|k: int| 0 <= k < parsed.targets@.len() ==> href_matches(t@, #[trigger] parsed.targets@[k]),
{
    let suppressed = compute_suppressed_ranges(t);
    let reference_definitions = parse_reference_definitions(t, &suppressed);
    let ghost defs = definition_views(reference_definitions@);
    let mut targets: Vec<MarkdownLinkTarget> = Vec::with_capacity(reference_definitions.len());
    let mut k: usize = 0;
    while k < reference_definitions.len()
        invariant
            k <= reference_definitions@.len(),
            defs == definition_views(reference_definitions@),
            target_views(targets@) == defs.take(k as int).map_values(
                |d: DefinitionView| definition_target(t@, d),
            ),
            forall|m: int|
                0 <= m < reference_definitions@.len() ==> (#[trigger] reference_definitions@[m]).href@
                    == t@.subrange(
                    reference_definitions@[m].href_start as int,
                    reference_definitions@[m].href_end as int,
                ) && reference_definitions@[m].href_start <= reference_definitions@[m].href_end
                    <= t@.len(),
            forall|m: int| 0 <= m < targets@.len() ==> href_matches(t@, #[trigger] targets@[m]),
        decreases reference_definitions.len() - k,
    {
        let definition = &reference_definitions[k];
        let target = MarkdownLinkTarget {
            kind: MarkdownLinkTargetKind::ReferenceDefinition,
            href_start: definition.href_start,
            href_end: definition.href_end,
            href: definition.href.clone(),
        };
        let ghost before = targets@;
        assert(defs[k as int] == reference_definitions@[k as int]@);
        assert(target@ == definition_target(t@, defs[k as int]));
        targets.push(target);
        assert(target_views(targets@) =~= target_views(before).push(target@));
        assert(defs.take(k + 1) =~= defs.take(k as int).push(defs[k as int]));
        assert(target_views(targets@) =~= defs.take(k + 1).map_values(
            |d: DefinitionView| definition_target(t@, d),
        ));
        k = k + 1;
    }
    assert(defs.take(reference_definitions@.len() as int) =~= defs);
    let reference_usages = parse_inline_links_and_reference_usages(
        t,
        &suppressed,
        &reference_definitions,
        &mut targets,
    );
    ParsedMarkdownLinks { targets, reference_usages }
}

proof fn lemma_definition_scan_suppressed(
    t: Seq<char>,
    line_start: int,
    sup: Seq<(usize, usize)>,
    acc: Seq<DefinitionView>,
)
    requires
        forall|i: int| 0 <= i < t.len() ==> in_ranges(i, sup),
    ensures
        definition_scan(t, line_start, sup, acc) == acc,
    decreases t.len() + 1 - line_start,
{
    if 0 <= line_start < t.len() {
        lemma_line_end(t, line_start);
        assert(in_ranges(line_start, sup));
        lemma_definition_scan_suppressed(t, line_end_from(t, line_start) + 1, sup, acc);
    }
}

proof fn lemma_inline_scan_suppressed(
    t: Seq<char>,
    i: int,
    sup: Seq<(usize, usize)>,
    defs: Seq<DefinitionView>,
    targets: Seq<TargetView>,
    usages: Seq<UsageView>,
)
    requires
        forall|j: int| 0 <= j < t.len() ==> in_ranges(j, sup),
    ensures
        inline_scan(t, i, sup, defs, targets, usages) == (targets, usages),
    decreases t.len() - i,
{
    if 0 <= i < t.len() {
        assert(in_ranges(i, sup));
        lemma_inline_scan_suppressed(t, i + 1, sup, defs, targets, usages);
    }
}

/// A text that lies wholly inside code (fenced blocks and code spans) has no
/// links and no reference usages.
pub proof fn lemma_no_links_in_code(t: Seq<char>)
    requires
        forall|i: int| 0 <= i < t.len() ==> in_ranges(i, suppressed_ranges(t)),
    ensures
        markdown_links(t).0.len() == 0,
        markdown_links(t).1.len() == 0,
{
    let sup = suppressed_ranges(t);
    lemma_definition_scan_suppressed(t, 0, sup, Seq::empty());
    let defs = reference_definitions(t, sup);
    assert(defs =~= Seq::<DefinitionView>::empty());
    let first = defs.map_values(|d: DefinitionView| definition_target(t, d));
    assert(first =~= Seq::<TargetView>::empty());
    lemma_inline_scan_suppressed(t, 0, sup, defs, first, Seq::empty());
}


/// Where a found link begins lies outside code: the `[` (or `!`) that opens
/// an inline link or image, or the start of the line of a reference
/// definition, comes before its destination and outside every suppressed
/// range.
pub open spec fn begins_outside_code(t: Seq<char>, sup: Seq<(usize, usize)>, x: TargetView) -> bool {
    exists|o: int|
        #![trigger in_ranges(o, sup)]
        0 <= o < x.start && !in_ranges(o, sup) && match x.kind {
            MarkdownLinkTargetKind::Inline => t[o] == '[' || t[o] == '!',
            MarkdownLinkTargetKind::ReferenceDefinition => o == 0 || t[o - 1] == '\n',
        }
}

proof fn lemma_indent_from(t: Seq<char>, i: int, k: int)
    requires
        0 <= k,
    ensures
        indent_from(t, i, k) >= i + k,
    decreases 3 - k,
{
    if 0 <= k < 3 && 0 <= i + k < t.len() && t[i + k] == ' ' {
        lemma_indent_from(t, i, k + 1);
    }
}

proof fn lemma_definition_after_line_start(t: Seq<char>, line_start: int, line_end: int)
    requires
        0 <= line_start,
    ensures
        definition_on_line(t, line_start, line_end) matches Some(d) ==> d.start > line_start,
{
    let cursor = indent_from(t, line_start, 0);
    lemma_indent_from(t, line_start, 0);
    lemma_bracket_scan(t, cursor, 0);
    if let Some(label_end) = matching_bracket(t, cursor) {
        lemma_skip_ascii_ws(t, label_end + 2, line_end);
    }
}

proof fn lemma_definition_scan_outside(
    t: Seq<char>,
    line_start: int,
    sup: Seq<(usize, usize)>,
    acc: Seq<DefinitionView>,
)
    requires
        0 <= line_start,
        line_start < t.len() ==> (line_start == 0 || t[line_start - 1] == '\n'),
        forall|k: int|
            0 <= k < acc.len() ==> begins_outside_code(
                t,
                sup,
                definition_target(t, #[trigger] acc[k]),
            ),
    ensures
        forall|k: int|
            0 <= k < definition_scan(t, line_start, sup, acc).len() ==> begins_outside_code(
                t,
                sup,
                definition_target(t, #[trigger] definition_scan(t, line_start, sup, acc)[k]),
            ),
    decreases t.len() + 1 - line_start,
{
    if line_start < t.len() {
        lemma_line_end(t, line_start);
        let line_end = line_end_from(t, line_start);
        if in_ranges(line_start, sup) {
            lemma_definition_scan_outside(t, line_end + 1, sup, acc);
        } else {
            match definition_on_line(t, line_start, line_end) {
                Some(d) => {
                    lemma_definition_after_line_start(t, line_start, line_end);
                    let next = acc.push(d);
                    assert forall|k: int| 0 <= k < next.len() implies begins_outside_code(
                        t,
                        sup,
                        definition_target(t, #[trigger] next[k]),
                    ) by {
                        if k == acc.len() {
                            assert(!in_ranges(line_start, sup));
                        } else {
                            assert(next[k] == acc[k]);
                        }
                    }
                    lemma_definition_scan_outside(t, line_end + 1, sup, next);
                },
                None => {
                    lemma_definition_scan_outside(t, line_end + 1, sup, acc);
                },
            }
        }
    }
}

proof fn lemma_inline_scan_outside(
    t: Seq<char>,
    i: int,
    sup: Seq<(usize, usize)>,
    defs: Seq<DefinitionView>,
    targets: Seq<TargetView>,
    usages: Seq<UsageView>,
)
    requires
        forall|k: int| 0 <= k < targets.len() ==> begins_outside_code(t, sup, #[trigger] targets[k]),
    ensures
        forall|k: int|
            0 <= k < inline_scan(t, i, sup, defs, targets, usages).0.len() ==> begins_outside_code(
                t,
                sup,
                #[trigger] inline_scan(t, i, sup, defs, targets, usages).0[k],
            ),
    decreases t.len() - i,
{
    if i < 0 || i >= t.len() {
    } else if in_ranges(i, sup) {
        lemma_inline_scan_outside(t, i + 1, sup, defs, targets, usages);
        assert(inline_scan(t, i, sup, defs, targets, usages) == inline_scan(t, i + 1, sup, defs, targets, usages));
    } else if !(t[i] == '[' || (t[i] == '!' && next_is(t, i, '['))) {
        lemma_inline_scan_outside(t, i + 1, sup, defs, targets, usages);
        assert(inline_scan(t, i, sup, defs, targets, usages) == inline_scan(t, i + 1, sup, defs, targets, usages));
    } else {
        let is_image = t[i] != '[';
        let label_start = if is_image {
            i + 1
        } else {
            i
        };
        lemma_bracket_scan(t, label_start, 0);
        match matching_bracket(t, label_start) {
            None => {
                lemma_inline_scan_outside(t, label_start + 1, sup, defs, targets, usages);
                assert(inline_scan(t, i, sup, defs, targets, usages) == inline_scan(t, label_start + 1, sup, defs, targets, usages));
            },
            Some(label_end) => {
                if next_is(t, label_end, '(') {
                    lemma_inline_destination(t, label_end + 1);
                    match inline_destination(t, label_end + 1) {
                        None => {
                            lemma_inline_scan_outside(t, label_end + 1, sup, defs, targets, usages);
                            assert(inline_scan(t, i, sup, defs, targets, usages) == inline_scan(t, label_end + 1, sup, defs, targets, usages));
                        },
                        Some((s, e, c)) => {
                            let x = TargetView {
                                kind: MarkdownLinkTargetKind::Inline,
                                start: s,
                                end: e,
                                href: t.subrange(s, e),
                            };
                            let next = targets.push(x);
                            assert forall|k: int| 0 <= k < next.len() implies begins_outside_code(
                                t,
                                sup,
                                #[trigger] next[k],
                            ) by {
                                if k == targets.len() {
                                    assert(!in_ranges(i, sup));
                                } else {
                                    assert(next[k] == targets[k]);
                                }
                            }
                            lemma_inline_scan_outside(t, c + 1, sup, defs, next, usages);
                            assert(inline_scan(t, i, sup, defs, targets, usages) == inline_scan(
                                t,
                                c + 1,
                                sup,
                                defs,
                                next,
                                usages,
                            ));
                        },
                    }
                } else if !is_image && next_is(t, label_end, '[') {
                    lemma_bracket_scan(t, label_end + 1, 0);
                    match matching_bracket(t, label_end + 1) {
                        None => {
                            lemma_inline_scan_outside(t, label_end + 1, sup, defs, targets, usages);
                            assert(inline_scan(t, i, sup, defs, targets, usages).0 == inline_scan(t, label_end + 1, sup, defs, targets, usages).0);
                        },
                        Some(reference_end) => {
                            let raw = t.subrange(label_end + 2, reference_end);
                            let label = if raw.len() == 0 {
                                shared::normalize_label(t.subrange(label_start + 1, label_end))
                            } else {
                                shared::normalize_label(raw)
                            };
                            let kind = if raw.len() == 0 {
                                inline::MarkdownReferenceUsageKind::Collapsed
                            } else {
                                inline::MarkdownReferenceUsageKind::Full
                            };
                            lemma_inline_scan_outside(
                                t,
                                reference_end + 1,
                                sup,
                                defs,
                                targets,
                                if label.len() > 0 {
                                    usages.push(UsageView { kind, label })
                                } else {
                                    usages
                                },
                            );
                            assert(inline_scan(t, i, sup, defs, targets, usages).0 == inline_scan(
                                t,
                                reference_end + 1,
                                sup,
                                defs,
                                targets,
                                if label.len() > 0 {
                                    usages.push(UsageView { kind, label })
                                } else {
                                    usages
                                },
                            ).0);
                        },
                    }
                } else {
                    let label = shared::normalize_label(t.subrange(label_start + 1, label_end));
                    let u = if !is_image && !next_is(t, label_end, ':') && inline::label_count(defs, label)
                        == 1 {
                        usages.push(
                            UsageView { kind: inline::MarkdownReferenceUsageKind::Shortcut, label },
                        )
                    } else {
                        usages
                    };
                    lemma_inline_scan_outside(t, label_end + 1, sup, defs, targets, u);
                    assert(inline_scan(t, i, sup, defs, targets, usages).0 == inline_scan(t, label_end + 1, sup, defs, targets, u).0);
                }
            },
        }
    }
}

/// Every link that the parser finds begins outside code: the `[` or `!` that
/// opens an inline link or image, and the line of a reference definition,
/// lie outside fenced code blocks and inline code spans. A link written
/// inside code is therefore never found, and never rewritten.
pub proof fn lemma_links_begin_outside_code(t: Seq<char>)
    ensures
        forall|k: int|
            0 <= k < markdown_links(t).0.len() ==> begins_outside_code(
                t,
                suppressed_ranges(t),
                #[trigger] markdown_links(t).0[k],
            ),
{
    let sup = suppressed_ranges(t);
    let defs = reference_definitions(t, sup);
    lemma_definition_scan_outside(t, 0, sup, Seq::empty());
    let first = defs.map_values(|d: DefinitionView| definition_target(t, d));
    assert forall|k: int| 0 <= k < first.len() implies begins_outside_code(t, sup, #[trigger] first[k]) by {
        assert(first[k] == definition_target(t, defs[k]));
    }
    lemma_inline_scan_outside(t, 0, sup, defs, first, Seq::empty());
}
} // verus!
