//! The changes that a module move plans: text replacements, file moves and
//! new directories.

use vstd::prelude::*;
use super::{RustError, RustErrorView};
use crate::drivers::lsp_client::{
    OffsetTextEdit, offset_views, sort_desc, sort_offset_edits, splice_text,
};
use crate::text::{chars_of, push_char, push_str};

verus! {

/// The replacement of the characters `start..end` of the file `path`.
pub struct TextReplacement {
    pub path: String,
    pub start: usize,
    pub end: usize,
    pub replacement: String,
}

/// A file or directory to move.
pub struct PlannedMove {
    pub source: String,
    pub target: String,
}

/// Everything a module move changes: the files to write (path and text),
/// the paths to move, and the directories to create.
pub struct MovePlan {
    pub writes: Vec<(String, String)>,
    pub moves: Vec<PlannedMove>,
    pub created_directories: Vec<String>,
}

/// The text that appends `line` to `content` on a line of its own.
pub open spec fn appended_text(content: Seq<char>, line: Seq<char>) -> Seq<char> {
    (if content.len() == 0 || content.last() == '\n' {
        Seq::empty()
    } else {
        seq!['\n']
    }) + line + seq!['\n']
}

/// The replacement that appends `line` to the file `path`, whose text is
/// `content`, on a line of its own.
pub fn append_replacement(path: &str, content: &str, line: &str) -> (r: TextReplacement)
    ensures
        r.path@ == path@,
        r.start as int == content@.len(),
        r.end as int == content@.len(),
        r.replacement@ == appended_text(content@, line@),
{
    let t = chars_of(content);
    let mut replacement = String::new();
    if !(t.len() == 0 || t[t.len() - 1] == '\n') {
        push_char(&mut replacement, '\n');
    }
    push_str(&mut replacement, line);
    push_char(&mut replacement, '\n');
    TextReplacement { path: path.to_owned(), start: t.len(), end: t.len(), replacement }
}

/// The edits of one file applied in the order given (the last in the text
/// first): an edit that repeats an earlier one is passed over; one outside
/// the text, or one that reaches into the edit applied before it, refuses
/// the whole plan.
pub open spec fn file_edits_outcome(
    path: Seq<char>,
    c: Seq<char>,
    prev: int,
    seen: Seq<(int, int, Seq<char>)>,
    es: Seq<(int, int, Seq<char>)>,
) -> Result<Seq<char>, RustErrorView>
    decreases es.len(),
{
    if es.len() == 0 {
        Ok(c)
    } else {
        let x = es[0];
        if seen.contains(x) {
            file_edits_outcome(path, c, prev, seen, es.drop_first())
        } else if x.1 > c.len() || x.0 > x.1 {
            Err(RustErrorView::PlannedEditOutside { path })
        } else if x.1 > prev {
            Err(RustErrorView::OverlappingEdits { path })
        } else {
            file_edits_outcome(
                path,
                c.take(x.0) + x.2 + c.skip(x.1),
                x.0,
                seen.push(x),
                es.drop_first(),
            )
        }
    }
}

/// What applying `edits` to the text `content` of `path` gives.
pub open spec fn apply_file_edits_view(
    path: Seq<char>,
    content: Seq<char>,
    edits: Seq<(int, int, Seq<char>)>,
) -> Result<Seq<char>, RustErrorView> {
    file_edits_outcome(path, content, content.len() as int + 1, Seq::empty(), sort_desc(edits))
}

fn same_edit(a: &OffsetTextEdit, b: &OffsetTextEdit) -> (r: bool)
    ensures
        r == ((a.start as int, a.end as int, a.text@) == (b.start as int, b.end as int, b.text@)),
{
    a.start == b.start && a.end == b.end && a.text == b.text
}

/// Applies the planned edits of one file: sorted from the last in the text
/// to the first, without repeats, refusing edits outside the text or
/// overlapping ones.
pub fn apply_file_edits(path: &String, content: &String, edits: &Vec<OffsetTextEdit>) -> (r: Result<
    String,
    RustError,
>)
    ensures
        match r {
            Ok(s) => apply_file_edits_view(path@, content@, offset_views(edits@)) == Ok::<
                Seq<char>,
                RustErrorView,
            >(s@),
            Err(e) => apply_file_edits_view(path@, content@, offset_views(edits@)) == Err::<
                Seq<char>,
                RustErrorView,
            >(e@),
        },
{
    let sorted = sort_offset_edits(edits);
    let ghost sv = offset_views(sorted@);
    let mut text = chars_of(content.as_str());
    let mut prev: Option<usize> = None;
    let ghost mut prev_spec: int = text@.len() as int + 1;
    let mut seen: Vec<OffsetTextEdit> = Vec::new();
    let mut k: usize = 0;
    assert(sv.skip(0) =~= sv);
    assert(offset_views(seen@) =~= Seq::<(int, int, Seq<char>)>::empty());
    while k < sorted.len()
        invariant
            k <= sorted@.len(),
            sv == offset_views(sorted@),
            match prev {
                None => prev_spec == text@.len() + 1,
                Some(p) => prev_spec == p as int,
            },
            file_edits_outcome(path@, text@, prev_spec, offset_views(seen@), sv.skip(k as int))
                == apply_file_edits_view(path@, content@, offset_views(edits@)),
        decreases sorted.len() - k,
    {
        assert(sv.skip(k as int)[0] == sv[k as int]);
        assert(sv.skip(k as int).drop_first() =~= sv.skip(k + 1));
        let e = &sorted[k];
        let ghost xv = (e.start as int, e.end as int, e.text@);
        assert(xv == sv[k as int]);
        let ghost seenv = offset_views(seen@);
        let mut dup = false;
        let mut j: usize = 0;
        while j < seen.len()
            invariant
                j <= seen@.len(),
                seenv == offset_views(seen@),
                xv == (e.start as int, e.end as int, e.text@),
                dup == (exists|m: int| 0 <= m < j && #[trigger] seenv[m] == xv),
            decreases seen.len() - j,
        {
            if same_edit(&seen[j], e) {
                assert(seenv[j as int] == xv);
                dup = true;
            }
            j = j + 1;
        }
        assert(dup == seenv.contains(xv));
        if !dup {
            if e.end > text.len() || e.start > e.end {
                return Err(RustError::PlannedEditOutside { path: path.clone() });
            }
            if let Some(p) = prev {
                if e.end > p {
                    return Err(RustError::OverlappingEdits { path: path.clone() });
                }
            }
            text = splice_text(&text, e.start, e.end, &e.text);
            prev = Some(e.start);
            proof {
                prev_spec = e.start as int;
            }
            let copy = OffsetTextEdit { start: e.start, end: e.end, text: e.text.clone() };
            seen.push(copy);
            assert(offset_views(seen@) =~= seenv.push(xv));
        }
        k = k + 1;
    }
    assert(sv.skip(sorted@.len() as int) =~= Seq::<(int, int, Seq<char>)>::empty());
    let mut s = String::new();
    let mut i: usize = 0;
    while i < text.len()
        invariant
            i <= text@.len(),
            s@ == text@.take(i as int),
        decreases text.len() - i,
    {
        push_char(&mut s, text[i]);
        i = i + 1;
        assert(s@ =~= text@.take(i as int));
    }
    assert(text@.take(text@.len() as int) =~= text@);
    Ok(s)
}

} // verus!
