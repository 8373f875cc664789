//! Inline links and images, and usages of reference definitions.

use vstd::prelude::*;
use crate::text::string_from;
use super::definitions::{DefinitionView, MarkdownReferenceDefinition, definition_views};
use super::shared::{
    find_matching_bracket, in_ranges, inline_destination, is_suppressed, lemma_bracket_scan,
    lemma_inline_destination, matching_bracket, normalize_label, normalize_reference_label,
    parse_inline_destination,
};

verus! {

#[derive(Debug, Clone, Copy, PartialEq, Eq, Structural)]
pub enum MarkdownLinkTargetKind {
    Inline,
    ReferenceDefinition,
}

/// A link destination found in the text: its kind, its range and its text.
/// `parse_markdown_links` gives the range in UTF-8 bytes of the text;
/// `parse_markdown_chars`, which works on the characters, in characters.
pub struct MarkdownLinkTarget {
    pub kind: MarkdownLinkTargetKind,
    pub href_start: usize,
    pub href_end: usize,
    pub href: String,
}

pub struct TargetView {
    pub kind: MarkdownLinkTargetKind,
    pub start: int,
    pub end: int,
    pub href: Seq<char>,
}

impl View for MarkdownLinkTarget {
    type V = TargetView;

    open spec fn view(&self) -> TargetView {
        TargetView {
            kind: self.kind,
            start: self.href_start as int,
            end: self.href_end as int,
            href: self.href@,
        }
    }
}

#[derive(Debug, Clone, Copy, PartialEq, Eq, Structural)]
pub enum MarkdownReferenceUsageKind {
    Full,
    Collapsed,
    Shortcut,
}

/// A use of a reference definition: `[text][label]`, `[label][]` or `[label]`.
pub struct MarkdownReferenceUsage {
    pub kind: MarkdownReferenceUsageKind,
    pub normalized_label: String,
}

pub struct UsageView {
    pub kind: MarkdownReferenceUsageKind,
    pub label: Seq<char>,
}

impl View for MarkdownReferenceUsage {
    type V = UsageView;

    open spec fn view(&self) -> UsageView {
        UsageView { kind: self.kind, label: self.normalized_label@ }
    }
}

/// The target's `href` is the text of its range.
pub open spec fn href_matches(t: Seq<char>, x: MarkdownLinkTarget) -> bool {
    &&& x.href_start <= x.href_end <= t.len()
    &&& x.href@ == t.subrange(x.href_start as int, x.href_end as int)
}

pub open spec fn target_views(v: Seq<MarkdownLinkTarget>) -> Seq<TargetView> {
    v.map_values(|x: MarkdownLinkTarget| x@)
}

pub open spec fn usage_views(v: Seq<MarkdownReferenceUsage>) -> Seq<UsageView> {
    v.map_values(|x: MarkdownReferenceUsage| x@)
}

/// How many definitions carry `label`.
pub open spec fn label_count(defs: Seq<DefinitionView>, label: Seq<char>) -> nat
    decreases defs.len(),
{
    if defs.len() == 0 {
        0
    } else {
        label_count(defs.drop_last(), label) + if defs.last().label == label {
            1nat
        } else {
            0nat
        }
    }
}

/// Whether the character after `k` is `c`.
pub open spec fn next_is(t: Seq<char>, k: int, c: char) -> bool {
    k + 1 < t.len() && t[k + 1] == c
}

/// The scan for inline links, images and reference usages from `i`, after the
/// `targets` and `usages` found so far. Positions inside a suppressed range are
/// passed over one by one.
pub open spec fn inline_scan(
    t: Seq<char>,
    i: int,
    sup: Seq<(usize, usize)>,
    defs: Seq<DefinitionView>,
    targets: Seq<TargetView>,
    usages: Seq<UsageView>,
) -> (Seq<TargetView>, Seq<UsageView>)
    decreases t.len() - i,
{
    if i < 0 || i >= t.len() {
        (targets, usages)
    } else if in_ranges(i, sup) {
        inline_scan(t, i + 1, sup, defs, targets, usages)
    } else if !(t[i] == '[' || (t[i] == '!' && next_is(t, i, '['))) {
        inline_scan(t, i + 1, sup, defs, targets, usages)
    } else {
        let is_image = t[i] != '[';
        let label_start = if is_image {
            i + 1
        } else {
            i
        };
        proof {
            lemma_bracket_scan(t, label_start, 0);
        }
        match matching_bracket(t, label_start) {
            None => inline_scan(t, label_start + 1, sup, defs, targets, usages),
            Some(label_end) => {
                if next_is(t, label_end, '(') {
                    proof {
                        lemma_inline_destination(t, label_end + 1);
                    }
                    match inline_destination(t, label_end + 1) {
                        None => inline_scan(t, label_end + 1, sup, defs, targets, usages),
                        Some((s, e, c)) => inline_scan(
                            t,
                            c + 1,
                            sup,
                            defs,
                            targets.push(
                                TargetView {
                                    kind: MarkdownLinkTargetKind::Inline,
                                    start: s,
                                    end: e,
                                    href: t.subrange(s, e),
                                },
                            ),
                            usages,
                        ),
                    }
                } else if !is_image && next_is(t, label_end, '[') {
                    proof {
                        lemma_bracket_scan(t, label_end + 1, 0);
                    }
                    match matching_bracket(t, label_end + 1) {
                        None => inline_scan(t, label_end + 1, sup, defs, targets, usages),
                        Some(reference_end) => {
                            let raw = t.subrange(label_end + 2, reference_end);
                            let label = if raw.len() == 0 {
                                normalize_label(t.subrange(label_start + 1, label_end))
                            } else {
                                normalize_label(raw)
                            };
                            let kind = if raw.len() == 0 {
                                MarkdownReferenceUsageKind::Collapsed
                            } else {
                                MarkdownReferenceUsageKind::Full
                            };
                            inline_scan(
                                t,
                                reference_end + 1,
                                sup,
                                defs,
                                targets,
                                if label.len() > 0 {
                                    usages.push(UsageView { kind, label })
                                } else {
                                    usages
                                },
                            )
                        },
                    }
                } else {
                    let label = normalize_label(t.subrange(label_start + 1, label_end));
                    inline_scan(
                        t,
                        label_end + 1,
                        sup,
                        defs,
                        targets,
                        if !is_image && !next_is(t, label_end, ':') && label_count(defs, label)
                            == 1 {
                            usages.push(
                                UsageView { kind: MarkdownReferenceUsageKind::Shortcut, label },
                            )
                        } else {
                            usages
                        },
                    )
                }
            },
        }
    }
}

/// How many of `defs` carry the label `label`.
fn count_label(defs: &Vec<MarkdownReferenceDefinition>, label: &String) -> (c: usize)
    ensures
        c == label_count(definition_views(defs@), label@),
{
    let mut c: usize = 0;
    let mut k: usize = 0;
    while k < defs.len()
        invariant
            k <= defs@.len(),
            c <= k,
            c == label_count(definition_views(defs@).take(k as int), label@),
        decreases defs.len() - k,
    {
        proof {
            assert(definition_views(defs@).take(k + 1).drop_last() =~= definition_views(
                defs@,
            ).take(k as int));
        }
        if defs[k].normalized_label == *label {
            c = c + 1;
        }
        k = k + 1;
    }
    assert(definition_views(defs@).take(defs@.len() as int) =~= definition_views(defs@));
    c
}

/// Scans `t` for inline links, images and reference usages; the link
/// destinations are appended to `targets` and the usages are returned. A
/// shortcut usage `[label]` counts only where exactly one definition carries
/// its label.
pub fn parse_inline_links_and_reference_usages(
    t: &Vec<char>,
    suppressed: &Vec<(usize, usize)>,
    definitions: &Vec<MarkdownReferenceDefinition>,
    targets: &mut Vec<MarkdownLinkTarget>,
) -> (usages: Vec<MarkdownReferenceUsage>)
    ensures
        (target_views(final(targets)@), usage_views(usages@)) == inline_scan(
            t@,
            0,
            suppressed@,
            definition_views(definitions@),
            target_views(old(targets)@),
            Seq::empty(),
        ),
        forall|k: int|
            0 <= k < old(targets)@.len() ==> #[trigger] final(targets)@[k] == old(targets)@[k],
        forall|k: int|
            old(targets)@.len() <= k < final(targets)@.len() ==> href_matches(
                t@,
                #[trigger] final(targets)@[k],
            ) && final(targets)@[k].kind is Inline,
        forall|k: int|
            0 <= k < usages@.len() ==> if (#[trigger] usages@[k]).kind is Shortcut {
                label_count(definition_views(definitions@), usages@[k].normalized_label@) == 1
            } else {
                usages@[k].normalized_label@.len() > 0
            },
{
    let ghost defs = definition_views(definitions@);
    let ghost full = inline_scan(
        t@,
        0,
        suppressed@,
        defs,
        target_views(targets@),
        Seq::empty(),
    );
    let ghost original = targets@;
    let n = t.len();
    let mut reference_usages: Vec<MarkdownReferenceUsage> = Vec::new();
    let mut index: usize = 0;
    assert(usage_views(reference_usages@) =~= Seq::<UsageView>::empty());
    while index < n
        invariant
            n == t@.len(),
            index <= n,
            defs == definition_views(definitions@),
            inline_scan(
                t@,
                index as int,
                suppressed@,
                defs,
                target_views(targets@),
                usage_views(reference_usages@),
            ) == full,
            original.len() <= targets@.len(),
            forall|k: int| 0 <= k < original.len() ==> #[trigger] targets@[k] == original[k],
            forall|k: int|
                original.len() <= k < targets@.len() ==> href_matches(t@, #[trigger] targets@[k])
                    && targets@[k].kind is Inline,
            forall|k: int|
                0 <= k < reference_usages@.len() ==> if (#[trigger] reference_usages@[k]).kind is Shortcut {
                    label_count(defs, reference_usages@[k].normalized_label@) == 1
                } else {
                    reference_usages@[k].normalized_label@.len() > 0
                },
        decreases n - index,
    {
        if is_suppressed(index, suppressed) {
            index = index + 1;
            continue;
        }
        let c = t[index];
        if !(c == '[' || (c == '!' && index + 1 < n && t[index + 1] == '[')) {
            index = index + 1;
            continue;
        }
        let is_image = c != '[';
        let label_start = if is_image { index + 1 } else { index };
        proof {
            lemma_bracket_scan(t@, label_start as int, 0);
        }
        let label_end = match find_matching_bracket(t, label_start) {
            Some(e) => e,
            None => {
                index = label_start + 1;
                continue;
            },
        };
        if label_end + 1 < n && t[label_end + 1] == '(' {
            proof {
                lemma_inline_destination(t@, label_end + 1);
            }
            match parse_inline_destination(t, label_end + 1) {
                None => {
                    index = label_end + 1;
                },
                Some((href_start, href_end, closing_paren)) => {
                    let href = string_from(t, href_start, href_end);
                    let target = MarkdownLinkTarget {
                        kind: MarkdownLinkTargetKind::Inline,
                        href_start,
                        href_end,
                        href,
                    };
                    let ghost before = targets@;
                    targets.push(target);
                    assert(target_views(targets@) =~= target_views(before).push(target@));
                    index = closing_paren + 1;
                },
            }
            continue;
        }
        if !is_image && label_end + 1 < n && t[label_end + 1] == '[' {
            let reference_start = label_end + 1;
            proof {
                lemma_bracket_scan(t@, reference_start as int, 0);
            }
            let reference_end = match find_matching_bracket(t, reference_start) {
                Some(e) => e,
                None => {
                    index = label_end + 1;
                    continue;
                },
            };
            let raw_empty = reference_start + 1 == reference_end;
            let normalized_label = if raw_empty {
                normalize_reference_label(t, label_start + 1, label_end)
            } else {
                normalize_reference_label(t, reference_start + 1, reference_end)
            };
            let kind = if raw_empty {
                MarkdownReferenceUsageKind::Collapsed
            } else {
                MarkdownReferenceUsageKind::Full
            };
            if !normalized_label.as_str().is_empty() {
                let usage = MarkdownReferenceUsage { kind, normalized_label };
                let ghost before = reference_usages@;
                reference_usages.push(usage);
                assert(usage_views(reference_usages@) =~= usage_views(before).push(usage@));
            }
            index = reference_end + 1;
            continue;
        }
        let shortcut_label = normalize_reference_label(t, label_start + 1, label_end);
        if !is_image && !(label_end + 1 < n && t[label_end + 1] == ':') && count_label(
            definitions,
            &shortcut_label,
        ) == 1 {
            let usage = MarkdownReferenceUsage {
                kind: MarkdownReferenceUsageKind::Shortcut,
                normalized_label: shortcut_label,
            };
            let ghost before = reference_usages@;
            reference_usages.push(usage);
            assert(usage_views(reference_usages@) =~= usage_views(before).push(usage@));
        }
        index = label_end + 1;
    }
    reference_usages
}

} // verus!
