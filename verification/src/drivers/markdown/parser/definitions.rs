//! Reference definitions: lines of the form `[label]: destination "title"`.

use vstd::prelude::*;
use crate::text::string_from;
use super::shared::{
    advance_line, definition_destination, find_matching_bracket, in_ranges, is_suppressed,
    lemma_bracket_scan, lemma_definition_destination, lemma_line_end, line_end_exec,
    line_end_from, matching_bracket, normalize_label, normalize_reference_label,
    definition_destination_core, skip_indent,
};

verus! {

/// A reference definition as the parser sees it: its normalised label and the
/// character range of its destination.
pub struct DefinitionView {
    pub label: Seq<char>,
    pub start: int,
    pub end: int,
}

pub struct MarkdownReferenceDefinition {
    pub normalized_label: String,
    pub href_start: usize,
    pub href_end: usize,
    pub href: String,
}

impl View for MarkdownReferenceDefinition {
    type V = DefinitionView;

    open spec fn view(&self) -> DefinitionView {
        DefinitionView {
            label: self.normalized_label@,
            start: self.href_start as int,
            end: self.href_end as int,
        }
    }
}

/// The definition on the line `[line_start, line_end)`, if it is one: up to
/// three spaces, a bracketed label whose normalised form is not empty, `:`
/// and a destination.
pub open spec fn definition_on_line(t: Seq<char>, line_start: int, line_end: int) -> Option<
    DefinitionView,
> {
    let cursor = skip_indent(t, line_start);
    if !(cursor < t.len() && t[cursor] == '[') {
        None
    } else {
        match matching_bracket(t, cursor) {
            None => None,
            Some(label_end) => {
                if !(label_end + 1 < t.len() && t[label_end + 1] == ':') {
                    None
                } else {
                    let label = normalize_label(t.subrange(cursor + 1, label_end));
                    if label.len() == 0 {
                        None
                    } else {
                        match definition_destination(t, label_end + 1, line_end) {
                            Some((s, e)) => Some(DefinitionView { label, start: s, end: e }),
                            None => None,
                        }
                    }
                }
            },
        }
    }
}

/// The definitions on the lines from `line_start` on, after `acc`; a line
/// that starts inside a suppressed range is skipped.
pub open spec fn definition_scan(
    t: Seq<char>,
    line_start: int,
    sup: Seq<(usize, usize)>,
    acc: Seq<DefinitionView>,
) -> Seq<DefinitionView>
    decreases t.len() + 1 - line_start,
{
    if line_start < 0 || line_start >= t.len() {
        acc
    } else {
        let line_end = line_end_from(t, line_start);
        proof {
            lemma_line_end(t, line_start);
        }
        if in_ranges(line_start, sup) {
            definition_scan(t, line_end + 1, sup, acc)
        } else {
            match definition_on_line(t, line_start, line_end) {
                Some(d) => definition_scan(t, line_end + 1, sup, acc.push(d)),
                None => definition_scan(t, line_end + 1, sup, acc),
            }
        }
    }
}

/// The reference definitions of `t`, in order.
pub open spec fn reference_definitions(t: Seq<char>, sup: Seq<(usize, usize)>) -> Seq<
    DefinitionView,
> {
    definition_scan(t, 0, sup, Seq::empty())
}

/// Whether every destination of a reference definition lies within `t`. A bare
/// destination whose last character is an escaping backslash at the very end
/// of the text would run one character past it.
pub open spec fn definitions_in_bounds(t: Seq<char>, sup: Seq<(usize, usize)>) -> bool {
    forall|k: int|
        0 <= k < reference_definitions(t, sup).len() ==> (#[trigger] reference_definitions(
            t,
            sup,
        )[k]).end <= t.len()
}

pub proof fn lemma_definition_scan_prefix(
    t: Seq<char>,
    line_start: int,
    sup: Seq<(usize, usize)>,
    acc: Seq<DefinitionView>,
)
    ensures
        acc.len() <= definition_scan(t, line_start, sup, acc).len(),
        forall|k: int|
            0 <= k < acc.len() ==> #[trigger] definition_scan(t, line_start, sup, acc)[k] == acc[k],
    decreases t.len() + 1 - line_start,
{
    if line_start < 0 || line_start >= t.len() {
    } else {
        let line_end = line_end_from(t, line_start);
        lemma_line_end(t, line_start);
        if in_ranges(line_start, sup) {
            lemma_definition_scan_prefix(t, line_end + 1, sup, acc);
        } else {
            match definition_on_line(t, line_start, line_end) {
                Some(d) => {
                    lemma_definition_scan_prefix(t, line_end + 1, sup, acc.push(d));
                },
                None => {
                    lemma_definition_scan_prefix(t, line_end + 1, sup, acc);
                },
            }
        }
    }
}

pub proof fn lemma_definition_on_line(t: Seq<char>, line_start: int, line_end: int)
    requires
        0 <= line_start <= line_end <= t.len(),
    ensures
        definition_on_line(t, line_start, line_end) matches Some(d) ==> 0 <= d.start < d.end
            <= line_end + 1 && d.label.len() > 0,
{
    let cursor = skip_indent(t, line_start);
    if cursor < t.len() && t[cursor] == '[' {
        lemma_bracket_scan(t, cursor, 0);
        if let Some(label_end) = matching_bracket(t, cursor) {
            if label_end + 1 < line_end {
                lemma_definition_destination(t, label_end + 1, line_end);
            } else {
                lemma_skip_past(t, label_end + 2, line_end);
            }
        }
    }
}

proof fn lemma_skip_past(t: Seq<char>, i: int, hi: int)
    requires
        i >= hi,
    ensures
        super::shared::skip_ascii_ws(t, i, hi) == i,
{
}

pub open spec fn definition_views(v: Seq<MarkdownReferenceDefinition>) -> Seq<DefinitionView> {
    v.map_values(|d: MarkdownReferenceDefinition| d@)
}

/// Parses the reference definitions of `t`; lines that start inside one of
/// the `suppressed` ranges are skipped. Each definition's `href` is the text of
/// its destination.
pub fn parse_reference_definitions(t: &Vec<char>, suppressed: &Vec<(usize, usize)>) -> (defs: Vec<
    MarkdownReferenceDefinition,
>)
    requires
        definitions_in_bounds(t@, suppressed@),
    ensures
        definition_views(defs@) == reference_definitions(t@, suppressed@),
        forall|k: int|
            0 <= k < defs@.len() ==> (#[trigger] defs@[k]).href@ == t@.subrange(
                defs@[k].href_start as int,
                defs@[k].href_end as int,
            ) && defs@[k].href_start <= defs@[k].href_end <= t@.len(),
{
    match scan_reference_definitions(t, suppressed) {
        Some(defs) => defs,
        None => {
            assert(false);
            Vec::new()
        },
    }
}

/// The reference definitions of `t`, or `None` when a destination runs past
/// the end of `t`.
pub fn scan_reference_definitions(t: &Vec<char>, suppressed: &Vec<(usize, usize)>) -> (r: Option<
    Vec<MarkdownReferenceDefinition>,
>)
    ensures
        r is Some <==> definitions_in_bounds(t@, suppressed@),
        r matches Some(defs) ==> definition_views(defs@) == reference_definitions(
            t@,
            suppressed@,
        ),
        r matches Some(defs) ==> forall|k: int|
            0 <= k < defs@.len() ==> (#[trigger] defs@[k]).href@ == t@.subrange(
                defs@[k].href_start as int,
                defs@[k].href_end as int,
            ) && defs@[k].href_start <= defs@[k].href_end <= t@.len(),
{
    let n = t.len();
    let mut definitions: Vec<MarkdownReferenceDefinition> = Vec::new();
    let mut line_start: usize = 0;
    assert(definition_views(definitions@) =~= Seq::empty());
    while line_start < n
        invariant
            n == t@.len(),
            line_start <= n,
            definition_scan(t@, line_start as int, suppressed@, definition_views(definitions@))
                == reference_definitions(t@, suppressed@),
            forall|k: int|
                0 <= k < definitions@.len() ==> (#[trigger] definitions@[k]).href@
                    == t@.subrange(
                    definitions@[k].href_start as int,
                    definitions@[k].href_end as int,
                ),
            forall|k: int|
                0 <= k < definitions@.len() ==> (#[trigger] definitions@[k]).href_start
                    <= definitions@[k].href_end <= n,
        decreases n - line_start,
    {
        let ghost acc = definition_views(definitions@);
        let line_end = line_end_exec(t, line_start);
        proof {
            lemma_line_end(t@, line_start as int);
        }
        let next = if line_end < n { line_end + 1 } else { n };
        assert(line_end >= n ==> definition_scan(t@, line_end + 1, suppressed@, acc) == acc);
        if is_suppressed(line_start, suppressed) {
            assert(line_end >= n ==> definition_scan(t@, n as int, suppressed@, acc) == acc);
            line_start = next;
            continue;
        }
        let found = definition_at(t, line_start, line_end);
        proof {
            lemma_definition_on_line(t@, line_start as int, line_end as int);
        }
        match found {
            Ok(Some(d)) => {
                assert(definition_scan(t@, line_start as int, suppressed@, acc) == definition_scan(
                    t@,
                    line_end + 1,
                    suppressed@,
                    acc.push(d@),
                ));
                definitions.push(d);
                assert(definition_views(definitions@) =~= acc.push(d@));
            },
            Ok(None) => {
                assert(definition_scan(t@, line_start as int, suppressed@, acc) == definition_scan(
                    t@,
                    line_end + 1,
                    suppressed@,
                    acc,
                ));
            },
            Err(()) => {
                proof {
                    let dv = definition_on_line(t@, line_start as int, line_end as int).unwrap();
                    lemma_definition_scan_prefix(t@, line_end + 1, suppressed@, acc.push(dv));
                    assert(reference_definitions(t@, suppressed@)[acc.len() as int] == dv);
                }
                return None;
            },
        }
        let ghost acc2 = definition_views(definitions@);
        assert(line_end >= n ==> definition_scan(t@, n as int, suppressed@, acc2) == acc2);
        line_start = next;
    }
    proof {
        assert forall|k: int|
            0 <= k < reference_definitions(t@, suppressed@).len() implies (
            #[trigger] reference_definitions(t@, suppressed@)[k]).end <= t@.len() by {
            assert(reference_definitions(t@, suppressed@)[k] == definitions@[k]@);
        }
    }
    Some(definitions)
}

/// The definition on the line `[line_start, line_end)`, if it holds one;
/// `Err` when its destination would run past the end of `t`.
fn definition_at(t: &Vec<char>, line_start: usize, line_end: usize) -> (r: Result<
    Option<MarkdownReferenceDefinition>,
    (),
>)
    requires
        line_start <= line_end <= t@.len(),
    ensures
        match r {
            Ok(Some(d)) => definition_on_line(t@, line_start as int, line_end as int) == Some(d@)
                && d.href@ == t@.subrange(d.href_start as int, d.href_end as int) && d.href_start
                <= d.href_end <= t@.len(),
            Ok(None) => definition_on_line(t@, line_start as int, line_end as int) is None,
            Err(()) => match definition_on_line(t@, line_start as int, line_end as int) {
                None => false,
                Some(dv) => dv.end > t@.len(),
            },
        },
{
    let n = t.len();
    let mut cursor = line_start;
    let mut indent: usize = 0;
    while indent < 3 && cursor < n && t[cursor] == ' '
        invariant
            n == t@.len(),
            line_start <= cursor <= n,
            cursor == line_start + indent,
            indent <= 3,
            super::shared::indent_from(t@, line_start as int, indent as int) == skip_indent(
                t@,
                line_start as int,
            ),
        decreases 3 - indent,
    {
        cursor = cursor + 1;
        indent = indent + 1;
    }
    if !(cursor < n && t[cursor] == '[') {
        return Ok(None);
    }
    let label_end = match find_matching_bracket(t, cursor) {
        Some(e) => e,
        None => return Ok(None),
    };
    if !(label_end + 1 < n && t[label_end + 1] == ':') {
        return Ok(None);
    }
    let normalized_label = normalize_reference_label(t, cursor + 1, label_end);
    if normalized_label.as_str().is_empty() {
        return Ok(None);
    }
    if label_end + 1 >= line_end {
        proof {
            lemma_skip_past(t@, label_end + 2, line_end as int);
        }
        return Ok(None);
    }
    match definition_destination_core(t, label_end + 1, line_end) {
        Ok(Some((href_start, href_end))) => {
            proof {
                lemma_definition_destination(t@, label_end + 1, line_end as int);
            }
            let href = string_from(t, href_start, href_end);
            Ok(Some(MarkdownReferenceDefinition { normalized_label, href_start, href_end, href }))
        },
        Ok(None) => Ok(None),
        Err(()) => Err(()),
    }
}

} // verus!
