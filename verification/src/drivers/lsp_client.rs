//! What the language-server client decides: where an edit of a document
//! lands, how the edits of one document are applied, how a message is
//! framed, and how a reply is judged. Talking to the server is done outside
//! this library.
//!
//! Positions count lines from zero and columns in UTF-16 code units, as the
//! Language Server Protocol does; offsets into a document count characters.

use vstd::prelude::*;
use crate::paths::{file_name_view, is_abs, join_path, join_view, joined_text, path_file_name, path_is_absolute, path_view, render};
use crate::text::{
    ascii_lower, utf8_len, utf8_width, chars_of, decimal, push_char, push_decimal, push_signed_decimal, push_str, signed_decimal,
};

verus! {

/// A client for one language-server binary.
pub struct LspClient {
    binary_path: String,
}

impl LspClient {
    pub closed spec fn binary_path_view(&self) -> Seq<char> {
        self.binary_path@
    }

    /// A client that runs the server at `binary_path`.
    pub fn new(binary_path: &str) -> (c: Self)
        ensures
            c.binary_path_view() == binary_path@,
    {
        LspClient { binary_path: binary_path.to_owned() }
    }

    /// The path of the server binary.
    pub fn binary_path(&self) -> (r: &str)
        ensures
            r@ == self.binary_path_view(),
    {
        self.binary_path.as_str()
    }
}

/// A place in a document: a line and a column in UTF-16 code units.
#[derive(Debug, Clone, Copy, PartialEq, Eq, Structural)]
pub struct Position {
    pub line: u32,
    pub character: u32,
}

#[derive(Debug, Clone, Copy, PartialEq, Eq, Structural)]
pub struct Range {
    pub start: Position,
    pub end: Position,
}

/// The replacement of a range of a document by a text.
pub struct TextEdit {
    pub range: Range,
    pub new_text: String,
}

/// Why the edits of a document cannot be applied.
pub enum LspEditError {
    LineOutOfBounds { line: usize, lines: usize },
    InvalidRange { start: usize, end: usize },
}

pub enum LspEditErrorView {
    LineOutOfBounds { line: nat, lines: nat },
    InvalidRange { start: nat, end: nat },
}

impl View for LspEditError {
    type V = LspEditErrorView;

    open spec fn view(&self) -> LspEditErrorView {
        match self {
            LspEditError::LineOutOfBounds { line, lines } => LspEditErrorView::LineOutOfBounds {
                line: *line as nat,
                lines: *lines as nat,
            },
            LspEditError::InvalidRange { start, end } => LspEditErrorView::InvalidRange {
                start: *start as nat,
                end: *end as nat,
            },
        }
    }
}

pub open spec fn edit_error_message(e: LspEditErrorView) -> Seq<char> {
    match e {
        LspEditErrorView::LineOutOfBounds { line, lines } => "LSP edit line "@ + decimal(line)
            + " is out of bounds for document with "@ + decimal(lines) + " lines"@,
        LspEditErrorView::InvalidRange { start, end } => "Invalid edit range: start "@ + decimal(
            start,
        ) + " is after end "@ + decimal(end),
    }
}

impl LspEditError {
    /// The text of the error.
    pub fn message(&self) -> (m: String)
        ensures
            m@ == edit_error_message(self@),
    {
        let mut m = String::new();
        match self {
            LspEditError::LineOutOfBounds { line, lines } => {
                push_str(&mut m, "LSP edit line ");
                push_decimal(&mut m, *line as u64);
                push_str(&mut m, " is out of bounds for document with ");
                push_decimal(&mut m, *lines as u64);
                push_str(&mut m, " lines");
            },
            LspEditError::InvalidRange { start, end } => {
                push_str(&mut m, "Invalid edit range: start ");
                push_decimal(&mut m, *start as u64);
                push_str(&mut m, " is after end ");
                push_decimal(&mut m, *end as u64);
            },
        }
        m
    }
}

// ---------------------------------------------------------------------------
// Lines and columns

/// The offsets at which the lines of `t` start: 0, and one past each line
/// feed.
pub open spec fn line_starts(t: Seq<char>) -> Seq<int>
    decreases t.len(),
{
    if t.len() == 0 {
        seq![0]
    } else if t.last() == '\n' {
        line_starts(t.drop_last()).push(t.len() as int)
    } else {
        line_starts(t.drop_last())
    }
}

pub proof fn lemma_line_starts(t: Seq<char>)
    ensures
        line_starts(t).len() >= 1,
        line_starts(t)[0] == 0,
        forall|k: int| 0 <= k < line_starts(t).len() ==> 0 <= #[trigger] line_starts(t)[k] <= t.len(),
        forall|j: int, k: int|
            0 <= j < k < line_starts(t).len() ==> #[trigger] line_starts(t)[j] < #[trigger] line_starts(t)[k],
    decreases t.len(),
{
    if t.len() > 0 {
        lemma_line_starts(t.drop_last());
    }
}

/// The offsets at which the lines of `content` start.
pub fn line_start_offsets(content: &str) -> (r: Vec<usize>)
    ensures
        r@.map_values(|o: usize| o as int) == line_starts(content@),
{
    let t = chars_of(content);
    let mut r: Vec<usize> = Vec::new();
    r.push(0);
    let mut i: usize = 0;
    assert(t@.take(0) =~= Seq::<char>::empty());
    assert(r@.map_values(|o: usize| o as int) =~= line_starts(t@.take(0)));
    while i < t.len()
        invariant
            i <= t@.len(),
            r@.map_values(|o: usize| o as int) == line_starts(t@.take(i as int)),
        decreases t.len() - i,
    {
        assert(t@.take(i + 1).drop_last() =~= t@.take(i as int));
        assert(t@.take(i + 1).last() == t@[i as int]);
        if t[i] == '\n' {
            let ghost before = r@;
            r.push(i + 1);
            assert(r@.map_values(|o: usize| o as int) =~= before.map_values(|o: usize| o as int).push(
                (i + 1) as int,
            ));
        }
        i = i + 1;
    }
    assert(t@.take(t@.len() as int) =~= t@);
    r
}

/// The end of the line that starts at `line_start`, before a trailing line
/// feed and a carriage return before it.
pub open spec fn line_end(t: Seq<char>, line_start: int, next_line_start: int) -> int {
    let e1 = if next_line_start > line_start && t[next_line_start - 1] == '\n' {
        next_line_start - 1
    } else {
        next_line_start
    };
    if e1 > line_start && t[e1 - 1] == '\r' {
        e1 - 1
    } else {
        e1
    }
}

/// The end of the line between `line_start` and `next_line_start`, without
/// its line ending.
pub fn trim_line_ending(t: &Vec<char>, line_start: usize, next_line_start: usize) -> (r: usize)
    requires
        next_line_start <= t@.len(),
    ensures
        r as int == line_end(t@, line_start as int, next_line_start as int),
{
    let mut end = next_line_start;
    if end > line_start && t[end - 1] == '\n' {
        end = end - 1;
    }
    if end > line_start && t[end - 1] == '\r' {
        end = end - 1;
    }
    end
}

/// How many UTF-16 code units encode `c`.
pub open spec fn utf16_width(c: char) -> int {
    if (c as u32) < 0x10000 {
        1
    } else {
        2
    }
}

/// `char::len_utf16`.
pub fn utf16_len(c: char) -> (n: usize)
    ensures
        n as int == utf16_width(c),
{
    if (c as u32) < 0x10000 {
        1
    } else {
        2
    }
}

/// The offset of the column `target` on the line `t[i..end]`, after `acc`
/// code units before `i`: the first character at which `target` code units
/// are reached or would be passed, or the end of the line.
pub open spec fn column_offset(t: Seq<char>, i: int, end: int, acc: int, target: int) -> int
    decreases end - i,
{
    if i >= end {
        end
    } else if acc >= target || acc + utf16_width(t[i]) > target {
        i
    } else {
        column_offset(t, i + 1, end, acc + utf16_width(t[i]), target)
    }
}

/// Where `pos` lands in `t`, or why it does not.
pub open spec fn position_offset(t: Seq<char>, pos: Position) -> Result<int, LspEditErrorView> {
    let starts = line_starts(t);
    let line = pos.line as int;
    if line >= starts.len() {
        Err(LspEditErrorView::LineOutOfBounds { line: line as nat, lines: starts.len() })
    } else {
        let start = starts[line];
        let next = if line + 1 < starts.len() {
            starts[line + 1]
        } else {
            t.len() as int
        };
        let end = line_end(t, start, next);
        if pos.character == 0 {
            Ok(start)
        } else {
            Ok(column_offset(t, start, end, 0, pos.character as int))
        }
    }
}

/// The offset in `t` of `position`; `line_offsets` are the starts of the
/// lines of `t`.
#[verifier::loop_isolation(false)]
pub fn position_to_offset(t: &Vec<char>, line_offsets: &Vec<usize>, position: Position) -> (r:
    Result<usize, LspEditError>)
    requires
        line_offsets@.map_values(|o: usize| o as int) == line_starts(t@),
    ensures
        match r {
            Ok(o) => position_offset(t@, position) == Ok::<int, LspEditErrorView>(o as int),
            Err(e) => position_offset(t@, position) == Err::<int, LspEditErrorView>(e@),
        },
        r matches Ok(o) ==> o <= t@.len(),
{
    proof {
        lemma_line_starts(t@);
    }
    let ghost starts = line_starts(t@);
    assert(line_offsets@.len() == starts.len());
    let line = position.line as usize;
    if line >= line_offsets.len() {
        return Err(LspEditError::LineOutOfBounds { line, lines: line_offsets.len() });
    }
    let line_start = line_offsets[line];
    assert(line_start as int == starts[line as int]);
    let next_line_start = if line + 1 < line_offsets.len() {
        assert(line_offsets@[line + 1] as int == starts[line + 1]);
        line_offsets[line + 1]
    } else {
        t.len()
    };
    let line_end = trim_line_ending(t, line_start, next_line_start);
    let target = position.character as u64;
    if target == 0 {
        return Ok(line_start);
    }
    let mut acc: u64 = 0;
    let mut i = line_start;
    while i < line_end
        invariant
            line_start <= i <= line_end <= t@.len(),
            acc <= target,
            target == position.character as u64,
            column_offset(t@, i as int, line_end as int, acc as int, target as int) == column_offset(
                t@,
                line_start as int,
                line_end as int,
                0,
                target as int,
            ),
        decreases line_end - i,
    {
        if acc >= target {
            return Ok(i);
        }
        let next = acc + utf16_len(t[i]) as u64;
        if next > target {
            return Ok(i);
        }
        acc = next;
        i = i + 1;
    }
    Ok(line_end)
}

// ---------------------------------------------------------------------------
// Applying the edits of a document

/// An edit as offsets and text.
pub type OffsetEdit = (int, int, Seq<char>);

/// The edits as offsets, in their order, or the first error.
pub open spec fn offset_edits(t: Seq<char>, edits: Seq<(Range, Seq<char>)>) -> Result<
    Seq<(int, int, Seq<char>)>,
    LspEditErrorView,
>
    decreases edits.len(),
{
    if edits.len() == 0 {
        Ok(Seq::empty())
    } else {
        match offset_edits(t, edits.drop_last()) {
            Err(e) => Err(e),
            Ok(es) => {
                let (range, text) = edits.last();
                match position_offset(t, range.start) {
                    Err(e) => Err(e),
                    Ok(s) => match position_offset(t, range.end) {
                        Err(e) => Err(e),
                        Ok(e) => if s > e {
                            Err(LspEditErrorView::InvalidRange { start: s as nat, end: e as nat })
                        } else {
                            Ok(es.push((s, e, text)))
                        },
                    },
                }
            },
        }
    }
}

/// Whether `a` comes no later than `b` in the order of the application:
/// later starts first, and of equal starts later ends first.
pub open spec fn applies_before(a: (int, int, Seq<char>), b: (int, int, Seq<char>)) -> bool {
    a.0 > b.0 || (a.0 == b.0 && a.1 >= b.1)
}

/// `x` put into `es` after every edit that is applied before it.
pub open spec fn insert_desc(es: Seq<(int, int, Seq<char>)>, x: (int, int, Seq<char>)) -> Seq<
    (int, int, Seq<char>),
>
    decreases es.len(),
{
    if es.len() == 0 {
        seq![x]
    } else if applies_before(es.last(), x) {
        es.push(x)
    } else {
        insert_desc(es.drop_last(), x).push(es.last())
    }
}

/// The edits stably sorted by descending start, then descending end.
pub open spec fn sort_desc(es: Seq<(int, int, Seq<char>)>) -> Seq<(int, int, Seq<char>)>
    decreases es.len(),
{
    if es.len() == 0 {
        Seq::empty()
    } else {
        insert_desc(sort_desc(es.drop_last()), es.last())
    }
}

/// The edits applied in order, each to the text that the earlier ones left;
/// `None` where a range does not lie within that text.
pub open spec fn apply_in_order(t: Seq<char>, es: Seq<(int, int, Seq<char>)>) -> Option<Seq<char>>
    decreases es.len(),
{
    if es.len() == 0 {
        Some(t)
    } else if 0 <= es[0].0 <= es[0].1 <= t.len() {
        apply_in_order(t.take(es[0].0) + es[0].2 + t.skip(es[0].1), es.drop_first())
    } else {
        None
    }
}

pub open spec fn text_edit_views(edits: Seq<TextEdit>) -> Seq<(Range, Seq<char>)> {
    edits.map_values(|e: TextEdit| (e.range, e.new_text@))
}

/// What applying `edits` to `content` gives: the new text, the first error,
/// or `Ok(None)` on the inputs on which the edits do not fit the text.
pub open spec fn text_edits_outcome(content: Seq<char>, edits: Seq<(Range, Seq<char>)>) -> Result<
    Option<Seq<char>>,
    LspEditErrorView,
> {
    match offset_edits(content, edits) {
        Err(e) => Err(e),
        Ok(es) => Ok(apply_in_order(content, sort_desc(es))),
    }
}

proof fn lemma_insert_desc(es: Seq<(int, int, Seq<char>)>, x: (int, int, Seq<char>), j: int)
    requires
        0 <= j <= es.len(),
        forall|i: int| j <= i < es.len() ==> !applies_before(#[trigger] es[i], x),
        j > 0 ==> applies_before(es[j - 1], x),
    ensures
        insert_desc(es, x) == es.insert(j, x),
    decreases es.len(),
{
    if es.len() == 0 {
        assert(es.insert(j, x) =~= seq![x]);
    } else if applies_before(es.last(), x) {
        assert(es.last() == es[es.len() - 1]);
        assert(es.insert(j, x) =~= es.push(x));
    } else {
        assert(es.last() == es[es.len() - 1]);
        let d = es.drop_last();
        assert forall|i: int| j <= i < d.len() implies !applies_before(#[trigger] d[i], x) by {
            assert(d[i] == es[i]);
        }
        lemma_insert_desc(d, x, j);
        assert(d.insert(j, x).push(es.last()) =~= es.insert(j, x));
    }
}

/// Whether each edit of `es` is applied before every one that follows it.
pub open spec fn in_application_order(es: Seq<(int, int, Seq<char>)>) -> bool {
    forall|i: int, j: int| 0 <= i < j < es.len() ==> applies_before(#[trigger] es[i], #[trigger] es[j])
}

proof fn lemma_insert_desc_ordered(es: Seq<(int, int, Seq<char>)>, x: (int, int, Seq<char>))
    requires
        in_application_order(es),
    ensures
        insert_desc(es, x).to_multiset() == es.to_multiset().insert(x),
        in_application_order(insert_desc(es, x)),
    decreases es.len(),
{
    broadcast use vstd::seq_lib::group_to_multiset_ensures;

    if es.len() == 0 {
        assert(seq![x] =~= es.push(x));
    } else if applies_before(es.last(), x) {
        let r = es.push(x);
        assert forall|i: int, j: int| 0 <= i < j < r.len() implies applies_before(#[trigger] r[i], #[trigger] r[j]) by {
            if j == es.len() {
                if i < es.len() - 1 {
                    assert(applies_before(es[i], es[es.len() - 1]));
                }
            }
        }
    } else {
        let d = es.drop_last();
        let l = es.last();
        assert(es =~= d.push(l));
        assert forall|i: int, j: int| 0 <= i < j < d.len() implies applies_before(#[trigger] d[i], #[trigger] d[j]) by {
            assert(d[i] == es[i] && d[j] == es[j]);
        }
        lemma_insert_desc_ordered(d, x);
        let m = insert_desc(d, x);
        let r = m.push(l);
        assert(r.to_multiset() =~= es.to_multiset().insert(x));
        assert forall|i: int| 0 <= i < m.len() implies applies_before(#[trigger] m[i], l) by {
            assert(m.contains(m[i]));
            assert(m.to_multiset().count(m[i]) > 0);
            if m[i] != x {
                assert(d.to_multiset().count(m[i]) > 0);
                assert(d.contains(m[i]));
                let k = choose|k: int| 0 <= k < d.len() && d[k] == m[i];
                assert(es[k] == d[k]);
                assert(applies_before(es[k], es[es.len() - 1]));
            }
        }
        assert forall|i: int, j: int| 0 <= i < j < r.len() implies applies_before(#[trigger] r[i], #[trigger] r[j]) by {
            if j == m.len() {
                assert(r[i] == m[i]);
            } else {
                assert(r[i] == m[i] && r[j] == m[j]);
            }
        }
    }
}

/// The edits of a document are applied from the last in the text to the
/// first: `sort_desc` reorders the edits, keeping each of them and adding
/// none, so that each is applied before every one that follows it.
pub proof fn lemma_sort_desc_orders(es: Seq<(int, int, Seq<char>)>)
    ensures
        sort_desc(es).to_multiset() == es.to_multiset(),
        in_application_order(sort_desc(es)),
    decreases es.len(),
{
    broadcast use vstd::seq_lib::group_to_multiset_ensures;

    if es.len() == 0 {
    } else {
        let d = es.drop_last();
        lemma_sort_desc_orders(d);
        lemma_insert_desc_ordered(sort_desc(d), es.last());
        assert(es =~= d.push(es.last()));
    }
}

/// A replacement of the characters `start..end` by `text`.
pub struct OffsetTextEdit {
    pub start: usize,
    pub end: usize,
    pub text: String,
}

pub open spec fn offset_views(v: Seq<OffsetTextEdit>) -> Seq<(int, int, Seq<char>)> {
    v.map_values(|e: OffsetTextEdit| (e.start as int, e.end as int, e.text@))
}

pub fn splice_text(t: &Vec<char>, start: usize, end: usize, text: &String) -> (r: Vec<char>)
    requires
        start <= end <= t@.len(),
    ensures
        r@ == t@.take(start as int) + text@ + t@.skip(end as int),
{
    let n = t.len();
    let mut r: Vec<char> = Vec::new();
    let mut i: usize = 0;
    while i < start
        invariant
            start <= end <= n == t@.len(),
            i <= start,
            r@ == t@.take(i as int),
        decreases start - i,
    {
        r.push(t[i]);
        i = i + 1;
        assert(r@ =~= t@.take(i as int));
    }
    let tc = chars_of(text.as_str());
    let ghost mid = r@;
    let mut j: usize = 0;
    while j < tc.len()
        invariant
            j <= tc@.len(),
            r@ == mid + tc@.take(j as int),
        decreases tc.len() - j,
    {
        r.push(tc[j]);
        j = j + 1;
        assert(r@ =~= mid + tc@.take(j as int));
    }
    assert(tc@.take(tc@.len() as int) =~= tc@);
    let ghost tail_start = r@;
    let mut m = end;
    while m < n
        invariant
            end <= m <= n == t@.len(),
            r@ == tail_start + t@.subrange(end as int, m as int),
        decreases n - m,
    {
        r.push(t[m]);
        m = m + 1;
        assert(r@ =~= tail_start + t@.subrange(end as int, m as int));
    }
    assert(t@.subrange(end as int, n as int) =~= t@.skip(end as int));
    r
}

/// Applies the edits of one document, with `Ok(None)` where they do not fit
/// its text.
#[verifier::loop_isolation(false)]
pub fn try_apply_text_edits(content: &str, edits: &Vec<TextEdit>) -> (r: Result<
    Option<String>,
    LspEditError,
>)
    ensures
        match r {
            Ok(Some(s)) => text_edits_outcome(content@, text_edit_views(edits@)) == Ok::<
                Option<Seq<char>>,
                LspEditErrorView,
            >(Some(s@)),
            Ok(None) => text_edits_outcome(content@, text_edit_views(edits@)) == Ok::<
                Option<Seq<char>>,
                LspEditErrorView,
            >(None),
            Err(e) => text_edits_outcome(content@, text_edit_views(edits@)) == Err::<
                Option<Seq<char>>,
                LspEditErrorView,
            >(e@),
        },
{
    let t = chars_of(content);
    let offsets = line_start_offsets(content);
    let ghost ev = text_edit_views(edits@);
    // The edits as offsets.
    let mut found: Vec<OffsetTextEdit> = Vec::new();
    let mut k: usize = 0;
    assert(ev.take(0) =~= Seq::<(Range, Seq<char>)>::empty());
    assert(offset_views(found@) =~= Seq::<(int, int, Seq<char>)>::empty());
    while k < edits.len()
        invariant
            k <= edits@.len(),
            t@ == content@,
            ev == text_edit_views(edits@),
            offsets@.map_values(|o: usize| o as int) == line_starts(t@),
            offset_edits(t@, ev.take(k as int)) == Ok::<Seq<(int, int, Seq<char>)>, LspEditErrorView>(
                offset_views(found@),
            ),
        decreases edits.len() - k,
    {
        assert(ev.take(k + 1).drop_last() =~= ev.take(k as int));
        assert(ev.take(k + 1).last() == ev[k as int]);
        let edit = &edits[k];
        let start = match position_to_offset(&t, &offsets, edit.range.start) {
            Ok(o) => o,
            Err(e) => {
                proof {
                    lemma_offset_edits_err(t@, ev, k + 1);
                }
                return Err(e);
            },
        };
        let end = match position_to_offset(&t, &offsets, edit.range.end) {
            Ok(o) => o,
            Err(e) => {
                proof {
                    lemma_offset_edits_err(t@, ev, k + 1);
                }
                return Err(e);
            },
        };
        if start > end {
            proof {
                lemma_offset_edits_err(t@, ev, k + 1);
            }
            return Err(LspEditError::InvalidRange { start, end });
        }
        let ghost before = found@;
        let x = OffsetTextEdit { start, end, text: edit.new_text.clone() };
        let ghost xv = (start as int, end as int, x.text@);
        found.push(x);
        assert(offset_views(found@) =~= offset_views(before).push(xv));
        k = k + 1;
    }
    assert(ev.take(edits@.len() as int) =~= ev);
    let sorted = sort_offset_edits(&found);
    // Applied in that order.
    let ghost sv = offset_views(sorted@);
    let mut text = t;
    let mut k: usize = 0;
    assert(sv.skip(0) =~= sv);
    while k < sorted.len()
        invariant
            k <= sorted@.len(),
            sv == offset_views(sorted@),
            apply_in_order(content@, sv) == apply_in_order(text@, sv.skip(k as int)),
        decreases sorted.len() - k,
    {
        assert(sv.skip(k as int)[0] == sv[k as int]);
        assert(sv.skip(k as int).drop_first() =~= sv.skip(k + 1));
        let e = &sorted[k];
        if e.start <= e.end && e.end <= text.len() {
            text = splice_text(&text, e.start, e.end, &e.text);
        } else {
            return Ok(None);
        }
        k = k + 1;
    }
    assert(sv.skip(sorted@.len() as int) =~= Seq::<(int, int, Seq<char>)>::empty());
    let mut s = String::new();
    let mut i: usize = 0;
    while i < text.len()
        invariant
            i <= text@.len(),
            s@ == text@.take(i as int),
        decreases text.len() - i,
    {
        push_char(&mut s, text[i]);
        i = i + 1;
        assert(s@ =~= text@.take(i as int));
    }
    assert(text@.take(text@.len() as int) =~= text@);
    Ok(Some(s))
}

proof fn lemma_offset_edits_err(t: Seq<char>, edits: Seq<(Range, Seq<char>)>, k: int)
    requires
        0 <= k <= edits.len(),
        offset_edits(t, edits.take(k)) is Err,
    ensures
        offset_edits(t, edits) == offset_edits(t, edits.take(k)),
    decreases edits.len() - k,
{
    if k < edits.len() {
        assert(edits.take(k + 1).drop_last() =~= edits.take(k));
        lemma_offset_edits_err(t, edits, k + 1);
    } else {
        assert(edits.take(k) =~= edits);
    }
}

/// The edits stably sorted by descending start, then descending end.
pub fn sort_offset_edits(found: &Vec<OffsetTextEdit>) -> (sorted: Vec<OffsetTextEdit>)
    ensures
        offset_views(sorted@) == sort_desc(offset_views(found@)),
{
    let ghost fv = offset_views(found@);
    let mut sorted: Vec<OffsetTextEdit> = Vec::new();
    let mut k: usize = 0;
    assert(fv.take(0) =~= Seq::<(int, int, Seq<char>)>::empty());
    assert(offset_views(sorted@) =~= Seq::<(int, int, Seq<char>)>::empty());
    while k < found.len()
        invariant
            k <= found@.len(),
            fv == offset_views(found@),
            offset_views(sorted@) == sort_desc(fv.take(k as int)),
        decreases found.len() - k,
    {
        let e = &found[k];
        let x = OffsetTextEdit { start: e.start, end: e.end, text: e.text.clone() };
        let ghost xv = (x.start as int, x.end as int, x.text@);
        assert(xv == fv[k as int]);
        let ghost sv = offset_views(sorted@);
        let mut j = sorted.len();
        while j > 0 && !(sorted[j - 1].start > x.start || (sorted[j - 1].start == x.start
            && sorted[j - 1].end >= x.end))
            invariant
                j <= sorted@.len(),
                sv == offset_views(sorted@),
                xv == (x.start as int, x.end as int, x.text@),
                forall|i: int| j <= i < sv.len() ==> !applies_before(#[trigger] sv[i], xv),
            decreases j,
        {
            j = j - 1;
        }
        proof {
            lemma_insert_desc(sv, xv, j as int);
        }
        sorted.insert(j, x);
        assert(offset_views(sorted@) =~= sv.insert(j as int, xv));
        assert(fv.take(k + 1).drop_last() =~= fv.take(k as int));
        assert(fv.take(k + 1).last() == fv[k as int]);
        k = k + 1;
    }
    assert(fv.take(found@.len() as int) =~= fv);
    sorted
}

/// Applies the edits of one document: each position becomes an offset, and
/// the edits are applied from the last in the text to the first.
pub fn apply_text_edits(content: &str, edits: &Vec<TextEdit>) -> (r: Result<String, LspEditError>)
    requires
        text_edits_outcome(content@, text_edit_views(edits@)) != Ok::<
            Option<Seq<char>>,
            LspEditErrorView,
        >(None),
    ensures
        match r {
            Ok(s) => text_edits_outcome(content@, text_edit_views(edits@)) == Ok::<
                Option<Seq<char>>,
                LspEditErrorView,
            >(Some(s@)),
            Err(e) => text_edits_outcome(content@, text_edit_views(edits@)) == Err::<
                Option<Seq<char>>,
                LspEditErrorView,
            >(e@),
        },
{
    match try_apply_text_edits(content, edits) {
        Ok(Some(s)) => Ok(s),
        Ok(None) => {
            proof {
                assert(false);
            }
            Ok(String::new())
        },
        Err(e) => Err(e),
    }
}

// ---------------------------------------------------------------------------
// Paths, directories and messages

pub open spec fn abs_path_view(root_dir: Seq<char>, path: Seq<char>) -> Seq<char> {
    if is_abs(path) {
        path
    } else {
        joined_text(root_dir, path)
    }
}

/// `path` as given where it is absolute, else under `root_dir`.
pub fn resolve_abs_path(root_dir: &str, path: &str) -> (r: String)
    ensures
        r@ == abs_path_view(root_dir@, path@),
{
    if path_is_absolute(path) {
        path.to_owned()
    } else {
        join_path(root_dir, path)
    }
}

/// The names of the directories whose documents the client never opens.
pub open spec fn skipped_dir_name(name: Seq<char>) -> bool {
    name == ".git"@ || name == ".venv"@ || name == "__pycache__"@ || name == "node_modules"@
        || name == "target"@ || name == ".dart_tool"@ || name == "build"@ || name == "dist"@
        || name == "out"@
}

fn same_text(a: &String, b: &str) -> (r: bool)
    ensures
        r == (a@ == b@),
{
    let x = chars_of(a.as_str());
    let y = chars_of(b);
    crate::text::same_chars(&x, &y)
}

/// Whether the walk for workspace documents passes over the directory
/// `path` (version control, virtual environments, dependencies, build
/// output).
pub fn should_skip_workspace_dir(path: &str) -> (b: bool)
    ensures
        b == (file_name_view(path_view(path@)) matches Some(n) && skipped_dir_name(n)),
{
    match path_file_name(path) {
        None => false,
        Some(n) => same_text(&n, ".git") || same_text(&n, ".venv") || same_text(&n, "__pycache__")
            || same_text(&n, "node_modules") || same_text(&n, "target") || same_text(
            &n,
            ".dart_tool",
        ) || same_text(&n, "build") || same_text(&n, "dist") || same_text(&n, "out"),
    }
}

/// What `url::Url::parse(uri)` and then `Url::to_file_path` give for `uri`
/// on Unix, the platforms the tool runs on: the parse error's text, or the
/// file path where the URI names one.
pub uninterp spec fn uri_file_path_result(uri: Seq<char>) -> Result<Option<Seq<char>>, Seq<char>>;

/// Parses `uri` with `url::Url::parse` and converts it with
/// `Url::to_file_path`. The contract says only that the outcome is the one
/// that the crate computes from `uri`; which URIs parse, and which name a
/// file, is left to the crate.
#[verifier::external_body]
fn uri_file_path(uri: &str) -> (r: Result<Option<String>, String>)
    ensures
        match r {
            Ok(Some(p)) => uri_file_path_result(uri@) == Ok::<Option<Seq<char>>, Seq<char>>(
                Some(p@),
            ),
            Ok(None) => uri_file_path_result(uri@) == Ok::<Option<Seq<char>>, Seq<char>>(None),
            Err(e) => uri_file_path_result(uri@) == Err::<Option<Seq<char>>, Seq<char>>(e@),
        },
{
    match url::Url::parse(uri) {
        Err(e) => Err(e.to_string()),
        Ok(u) => Ok(u.to_file_path().ok().map(|p| p.to_string_lossy().into_owned())),
    }
}

/// What `uri_to_path` gives for `uri`.
pub open spec fn uri_to_path_outcome(uri: Seq<char>) -> Result<Seq<char>, Seq<char>> {
    match uri_file_path_result(uri) {
        Err(e) => Err("Invalid URI: "@ + e),
        Ok(None) => Err("Cannot convert URI to file path"@),
        Ok(Some(p)) => Ok(p),
    }
}

/// The file path that a `file:` URI names, or the error text.
pub fn uri_to_path(uri: &str) -> (r: Result<String, String>)
    ensures
        match r {
            Ok(p) => uri_to_path_outcome(uri@) == Ok::<Seq<char>, Seq<char>>(p@),
            Err(e) => uri_to_path_outcome(uri@) == Err::<Seq<char>, Seq<char>>(e@),
        },
{
    uri_to_path_parts(uri_file_path(uri))
}

/// The file path, or the error text, given what the URI crate gave.
pub fn uri_to_path_parts(parsed: Result<Option<String>, String>) -> (r: Result<String, String>)
    ensures
        match parsed {
            Err(e) => r matches Err(m) && m@ == "Invalid URI: "@ + e@,
            Ok(None) => r matches Err(m) && m@ == "Cannot convert URI to file path"@,
            Ok(Some(p)) => r matches Ok(q) && q@ == p@,
        },
{
    match parsed {
        Err(e) => {
            let mut m = String::new();
            push_str(&mut m, "Invalid URI: ");
            push_str(&mut m, e.as_str());
            Err(m)
        },
        Ok(None) => Err(String::from_str("Cannot convert URI to file path")),
        Ok(Some(p)) => Ok(p),
    }
}

/// The `error` member of a server reply: its `code` where it is an integer
/// and its `message` where it is a string.
pub struct LspErrorInfo {
    pub code: Option<i64>,
    pub message: Option<String>,
}

pub open spec fn reply_error_message(method: Seq<char>, info: LspErrorInfo) -> Seq<char> {
    method + " failed ("@ + signed_decimal(
        match info.code {
            Some(c) => c as int,
            None => 0,
        },
    ) + "): "@ + match info.message {
        Some(m) => m@,
        None => "Unknown LSP error"@,
    }
}

/// Fails with the server's error where the reply carries one.
pub fn ensure_response_ok(error: &Option<LspErrorInfo>, method: &str) -> (r: Result<(), String>)
    ensures
        match error {
            None => r is Ok,
            Some(info) => r matches Err(m) && m@ == reply_error_message(method@, *info),
        },
{
    match error {
        None => Ok(()),
        Some(info) => {
            let mut m = String::new();
            push_str(&mut m, method);
            push_str(&mut m, " failed (");
            let code = match info.code {
                Some(c) => c,
                None => 0,
            };
            push_signed_decimal(&mut m, code);
            push_str(&mut m, "): ");
            match &info.message {
                Some(msg) => push_str(&mut m, msg.as_str()),
                None => push_str(&mut m, "Unknown LSP error"),
            }
            Err(m)
        },
    }
}

/// `str::eq_ignore_ascii_case`.
pub open spec fn eq_ignore_ascii_case(a: Seq<char>, b: Seq<char>) -> bool {
    a.len() == b.len() && forall|i: int| 0 <= i < a.len() ==> ascii_lower(#[trigger] a[i]) == ascii_lower(b[i])
}

fn ascii_lower_exec(c: char) -> (r: char)
    ensures
        r == ascii_lower(c),
{
    if 'A' <= c && c <= 'Z' {
        let b = (c as u8) + 32;
        b as char
    } else {
        c
    }
}

fn eq_ignore_ascii_case_exec(a: &str, b: &str) -> (r: bool)
    ensures
        r == eq_ignore_ascii_case(a@, b@),
{
    let x = chars_of(a);
    let y = chars_of(b);
    if x.len() != y.len() {
        return false;
    }
    let mut i: usize = 0;
    while i < x.len()
        invariant
            x@ == a@,
            y@ == b@,
            x@.len() == y@.len(),
            i <= x@.len(),
            forall|j: int| 0 <= j < i ==> ascii_lower(#[trigger] x@[j]) == ascii_lower(y@[j]),
        decreases x.len() - i,
    {
        if ascii_lower_exec(x[i]) != ascii_lower_exec(y[i]) {
            assert(ascii_lower(a@[i as int]) != ascii_lower(b@[i as int]));
            return false;
        }
        i = i + 1;
    }
    true
}

/// Whether a server reply says that the content changed under the request
/// (code -32801, or the message `content modified` in any case).
pub fn is_content_modified_response(error: &Option<LspErrorInfo>) -> (b: bool)
    ensures
        b == (match error {
            None => false,
            Some(info) => info.code == Some(-32801i64) || (info.message matches Some(m)
                && eq_ignore_ascii_case(m@, "content modified"@)),
        }),
{
    match error {
        None => false,
        Some(info) => {
            let by_code = match info.code {
                Some(c) => c == -32801,
                None => false,
            };
            by_code || match &info.message {
                Some(m) => eq_ignore_ascii_case_exec(m.as_str(), "content modified"),
                None => false,
            }
        },
    }
}

/// `Content-Length: n`, a blank line and the body, where `n` is the length
/// of the body in UTF-8 bytes.
pub open spec fn framed(body: Seq<char>) -> Seq<char> {
    "Content-Length: "@ + decimal(utf8_len(body)) + "\r\n\r\n"@ + body
}

proof fn lemma_utf8_len_bound(s: Seq<char>)
    ensures
        utf8_len(s) <= 4 * s.len(),
    decreases s.len(),
{
    if s.len() > 0 {
        lemma_utf8_len_bound(s.drop_last());
    }
}

/// Frames a message body for the server.
pub fn frame_message(body: &str) -> (r: String)
    requires
        4 * body@.len() <= u64::MAX,
    ensures
        r@ == framed(body@),
{
    let t = chars_of(body);
    let mut n: u64 = 0;
    let mut i: usize = 0;
    while i < t.len()
        invariant
            i <= t@.len(),
            4 * t@.len() <= u64::MAX,
            n == utf8_len(t@.take(i as int)),
        decreases t.len() - i,
    {
        assert(t@.take(i + 1).drop_last() =~= t@.take(i as int));
        assert(t@.take(i + 1).last() == t@[i as int]);
        proof {
            lemma_utf8_len_bound(t@.take(i + 1));
        }
        let c = t[i] as u32;
        let w: u64 = if c < 0x80 {
            1
        } else if c < 0x800 {
            2
        } else if c < 0x10000 {
            3
        } else {
            4
        };
        n = n + w;
        i = i + 1;
    }
    assert(t@.take(t@.len() as int) =~= t@);
    let mut r = String::new();
    push_str(&mut r, "Content-Length: ");
    push_decimal(&mut r, n);
    push_str(&mut r, "\r\n\r\n");
    push_str(&mut r, body);
    r
}

/// What the rename of a symbol does after a reply.
pub enum RenameStep {
    /// Wait and ask again.
    Retry,
    /// Apply the workspace edit of the reply.
    Apply,
    /// Give up with this error text.
    Fail(String),
}

/// The next step of a symbol rename after the reply to attempt `attempt`
/// (from 0; five attempts in all): a reply that says the content changed is
/// retried while attempts remain; a reply with an error fails; a reply with
/// a workspace edit is applied; any other reply fails.
pub fn rename_step(
    attempt: u64,
    error: &Option<LspErrorInfo>,
    has_edit: bool,
    method: &str,
) -> (r: RenameStep)
    ensures
        is_content_modified_spec(*error) && attempt < 4 ==> r is Retry,
        !(is_content_modified_spec(*error) && attempt < 4) ==> match error {
            Some(info) => r matches RenameStep::Fail(m) && m@ == reply_error_message(method@, *info),
            None => if has_edit {
                r is Apply
            } else {
                r matches RenameStep::Fail(m) && m@ == "textDocument/rename returned no workspace edit"@
            },
        },
{
    if is_content_modified_response(error) && attempt < 4 {
        return RenameStep::Retry;
    }
    match ensure_response_ok(error, method) {
        Err(m) => RenameStep::Fail(m),
        Ok(()) => {
            if has_edit {
                RenameStep::Apply
            } else {
                RenameStep::Fail(String::from_str("textDocument/rename returned no workspace edit"))
            }
        },
    }
}

pub open spec fn is_content_modified_spec(error: Option<LspErrorInfo>) -> bool {
    match error {
        None => false,
        Some(info) => info.code == Some(-32801i64) || (info.message matches Some(m)
            && eq_ignore_ascii_case(m@, "content modified"@)),
    }
}


// ---------------------------------------------------------------------------
// Resource operations of a workspace edit

/// What stands at a path before a resource operation: nothing, a file or a
/// directory.
#[derive(Debug, Clone, Copy, PartialEq, Eq, Structural)]
pub enum ExistingPath {
    Absent,
    File,
    Directory,
}

/// The step that a create or rename operation takes once the paths have
/// been looked at.
#[derive(Debug, Clone, Copy, PartialEq, Eq, Structural)]
pub enum ResourceStep {
    /// Go on with the operation.
    Proceed,
    /// Remove what stands at the target (a directory with its contents),
    /// then go on.
    ReplaceTarget { directory: bool },
    /// Leave everything as it is; the operation succeeds.
    Skip,
    /// The target already exists and no option allows it: the operation fails.
    TargetExists,
    /// The source of a rename is missing and nothing allows it: the
    /// operation fails.
    SourceMissing,
}

/// The step that a delete operation takes once the path has been looked at.
#[derive(Debug, Clone, Copy, PartialEq, Eq, Structural)]
pub enum DeleteStep {
    RemoveFile,
    RemoveEmptyDirectory,
    RemoveDirectoryTree,
    /// The path is missing and `ignoreIfNotExists` allows it.
    Skip,
    /// The path is missing: the operation fails.
    Missing,
}

/// An existing target is replaced where `overwrite` is set, else left alone
/// where `ignoreIfExists` is set, else refused.
pub open spec fn existing_target_step(target: ExistingPath, overwrite: bool, ignore_if_exists: bool) -> ResourceStep {
    match target {
        ExistingPath::Absent => ResourceStep::Proceed,
        _ => if overwrite {
            ResourceStep::ReplaceTarget { directory: target == ExistingPath::Directory }
        } else if ignore_if_exists {
            ResourceStep::Skip
        } else {
            ResourceStep::TargetExists
        },
    }
}

/// The step of a `CreateFile` operation, from what stands at its path and
/// its options (an option that is not given counts as `false`).
pub fn create_file_step(target: ExistingPath, overwrite: bool, ignore_if_exists: bool) -> (r: ResourceStep)
    ensures
        r == existing_target_step(target, overwrite, ignore_if_exists),
{
    match target {
        ExistingPath::Absent => ResourceStep::Proceed,
        ExistingPath::File | ExistingPath::Directory => {
            if overwrite {
                ResourceStep::ReplaceTarget { directory: target == ExistingPath::Directory }
            } else if ignore_if_exists {
                ResourceStep::Skip
            } else {
                ResourceStep::TargetExists
            }
        },
    }
}

/// The step of a `RenameFile` operation. A missing source is no failure when
/// the target already exists (the rename has been done) or `ignoreIfExists`
/// is set; an existing target is treated as for `CreateFile`.
pub open spec fn rename_file_step_spec(
    source_exists: bool,
    target: ExistingPath,
    overwrite: bool,
    ignore_if_exists: bool,
) -> ResourceStep {
    if !source_exists {
        if target != ExistingPath::Absent || ignore_if_exists {
            ResourceStep::Skip
        } else {
            ResourceStep::SourceMissing
        }
    } else {
        existing_target_step(target, overwrite, ignore_if_exists)
    }
}

/// The step of a `RenameFile` operation (see `rename_file_step_spec`).
pub fn rename_file_step(
    source_exists: bool,
    target: ExistingPath,
    overwrite: bool,
    ignore_if_exists: bool,
) -> (r: ResourceStep)
    ensures
        r == rename_file_step_spec(source_exists, target, overwrite, ignore_if_exists),
{
    if !source_exists {
        if target != ExistingPath::Absent || ignore_if_exists {
            ResourceStep::Skip
        } else {
            ResourceStep::SourceMissing
        }
    } else {
        create_file_step(target, overwrite, ignore_if_exists)
    }
}

/// The step of a `DeleteFile` operation: a file is removed, a directory is
/// removed with its contents only where `recursive` is set, and a missing
/// path fails unless `ignoreIfNotExists` is set.
pub open spec fn delete_file_step_spec(target: ExistingPath, recursive: bool, ignore_if_not_exists: bool) -> DeleteStep {
    match target {
        ExistingPath::File => DeleteStep::RemoveFile,
        ExistingPath::Directory => if recursive {
            DeleteStep::RemoveDirectoryTree
        } else {
            DeleteStep::RemoveEmptyDirectory
        },
        ExistingPath::Absent => if ignore_if_not_exists {
            DeleteStep::Skip
        } else {
            DeleteStep::Missing
        },
    }
}

/// The step of a `DeleteFile` operation (see `delete_file_step_spec`).
pub fn delete_file_step(target: ExistingPath, recursive: bool, ignore_if_not_exists: bool) -> (r: DeleteStep)
    ensures
        r == delete_file_step_spec(target, recursive, ignore_if_not_exists),
{
    match target {
        ExistingPath::File => DeleteStep::RemoveFile,
        ExistingPath::Directory => {
            if recursive {
                DeleteStep::RemoveDirectoryTree
            } else {
                DeleteStep::RemoveEmptyDirectory
            }
        },
        ExistingPath::Absent => {
            if ignore_if_not_exists {
                DeleteStep::Skip
            } else {
                DeleteStep::Missing
            }
        },
    }
}

} // verus!
