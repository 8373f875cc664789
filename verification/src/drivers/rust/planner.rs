//! What a module move reports, and the lines that its edits cover.

use vstd::prelude::*;
use crate::drivers::markdown::parser::shared::{advance_line, lemma_line_end, line_end_exec, line_end_from};
use super::{RustError, RustErrorView};
use super::apply::{TextReplacement, append_replacement, appended_text};
use crate::text::{chars_of, push_str, string_from, trim, trim_range};
use crate::validation::string_seqs;

verus! {

/// What a module move did: how many paths it moved and files it edited.
pub struct MoveModuleReport {
    pub moved_paths: usize,
    pub edited_files: usize,
}

/// The start of the line that holds the position `p`: just past the last
/// line feed before it, or 0.
pub open spec fn line_start_before(t: Seq<char>, p: int) -> int
    decreases p,
{
    if p <= 0 {
        0
    } else if t[p - 1] == '\n' {
        p
    } else {
        line_start_before(t, p - 1)
    }
}

/// The whole lines that the range `start..end` touches: from the start of
/// the line of `start` to past the line feed after `end` (or the end of the
/// text).
pub fn full_line_range(t: &Vec<char>, start: usize, end: usize) -> (r: (usize, usize))
    requires
        start <= t@.len(),
        end <= t@.len(),
    ensures
        r.0 as int == line_start_before(t@, start as int),
        r.1 as int == advance_line(t@, end as int),
{
    let mut a = start;
    while a > 0 && t[a - 1] != '\n'
        invariant
            a <= start <= t@.len(),
            line_start_before(t@, a as int) == line_start_before(t@, start as int),
        decreases a,
    {
        a = a - 1;
    }
    let e = line_end_exec(t, end);
    let b = if e < t.len() {
        e + 1
    } else {
        e
    };
    (a, b)
}


pub open spec fn replacement_views(v: Seq<TextReplacement>) -> Seq<(Seq<char>, int, int, Seq<char>)> {
    v.map_values(|r: TextReplacement| (r.path@, r.start as int, r.end as int, r.replacement@))
}

/// The edits of the declaration `mod name;` of a moved module, which stands
/// at `declaration_start..declaration_end` of `declaration_file` (text
/// `source_content`; the declaration's own text is `declaration_text` and its
/// name stands at `name_start..name_end`). Where the module stays under the
/// same parent, its name becomes the target's; else its lines are removed
/// and the renamed, trimmed declaration is appended to `target_parent_file`
/// (text `target_content`).
pub open spec fn declaration_edits_view(
    declaration_file: Seq<char>,
    declaration_start: int,
    declaration_end: int,
    name_start: int,
    name_end: int,
    declaration_text: Seq<char>,
    source: Seq<Seq<char>>,
    target: Seq<Seq<char>>,
    target_parent_file: Seq<char>,
    source_content: Seq<char>,
    target_content: Seq<char>,
) -> Result<Seq<(Seq<char>, int, int, Seq<char>)>, RustErrorView> {
    if target.len() == 0 {
        Err(RustErrorView::TargetWithoutName)
    } else if source.drop_last() == target.drop_last() {
        Ok(seq![(declaration_file, name_start, name_end, target.last())])
    } else {
        let renamed = declaration_text.take(name_start - declaration_start) + target.last()
            + declaration_text.skip(name_end - declaration_start);
        Ok(
            seq![
                (
                    declaration_file,
                    line_start_before(source_content, declaration_start),
                    advance_line(source_content, declaration_end),
                    Seq::empty(),
                ),
                (
                    target_parent_file,
                    target_content.len() as int,
                    target_content.len() as int,
                    appended_text(target_content, trim(renamed)),
                ),
            ],
        )
    }
}

/// Plans the edits of the declaration of a moved module (see
/// `declaration_edits_view`).
pub fn plan_declaration_edits(
    declaration_file: &str,
    declaration_start: usize,
    declaration_end: usize,
    name_start: usize,
    name_end: usize,
    declaration_text: &str,
    source: &Vec<String>,
    target: &Vec<String>,
    target_parent_file: &str,
    source_content: &str,
    target_content: &str,
) -> (r: Result<Vec<TextReplacement>, RustError>)
    requires
        source@.len() > 0,
        target@.len() > 0 && string_seqs(source@).drop_last() != string_seqs(target@).drop_last() ==> {
            &&& declaration_start <= name_start <= name_end
            &&& name_end - declaration_start <= declaration_text@.len()
            &&& declaration_start <= source_content@.len()
            &&& declaration_end <= source_content@.len()
        },
    ensures
        match r {
            Ok(v) => declaration_edits_view(
                declaration_file@,
                declaration_start as int,
                declaration_end as int,
                name_start as int,
                name_end as int,
                declaration_text@,
                string_seqs(source@),
                string_seqs(target@),
                target_parent_file@,
                source_content@,
                target_content@,
            ) == Ok::<Seq<(Seq<char>, int, int, Seq<char>)>, RustErrorView>(replacement_views(v@)),
            Err(e) => declaration_edits_view(
                declaration_file@,
                declaration_start as int,
                declaration_end as int,
                name_start as int,
                name_end as int,
                declaration_text@,
                string_seqs(source@),
                string_seqs(target@),
                target_parent_file@,
                source_content@,
                target_content@,
            ) == Err::<Seq<(Seq<char>, int, int, Seq<char>)>, RustErrorView>(e@),
        },
{
    let ghost sv = string_seqs(source@);
    let ghost tv = string_seqs(target@);
    if target.len() == 0 {
        return Err(RustError::TargetWithoutName);
    }
    let name = target[target.len() - 1].clone();
    assert(name@ == tv.last());
    let mut same = source.len() == target.len();
    let mut k: usize = 0;
    if !same {
        assert(sv.drop_last().len() != tv.drop_last().len());
    }
    while same && k < source.len() - 1
        invariant
            source@.len() > 0,
            target@.len() > 0,
            k <= source@.len(),
            sv == string_seqs(source@),
            tv == string_seqs(target@),
            same ==> source@.len() == target@.len(),
            same ==> forall|m: int| 0 <= m < k ==> sv[m] == tv[m],
            !same ==> sv.drop_last() != tv.drop_last(),
        decreases source.len() - k,
    {
        if source[k] != target[k] {
            assert(sv.drop_last()[k as int] != tv.drop_last()[k as int]);
            same = false;
        }
        k = k + 1;
    }
    if same {
        assert(sv.drop_last() =~= tv.drop_last());
        let mut v: Vec<TextReplacement> = Vec::new();
        v.push(TextReplacement {
            path: declaration_file.to_owned(),
            start: name_start,
            end: name_end,
            replacement: name,
        });
        assert(replacement_views(v@) =~= seq![(declaration_file@, name_start as int, name_end as int, tv.last())]);
        return Ok(v);
    }
    if source.len() != target.len() {
        assert(sv.drop_last().len() != tv.drop_last().len());
    }
    let content = chars_of(source_content);
    let (line_start, line_end) = full_line_range(&content, declaration_start, declaration_end);
    let text = chars_of(declaration_text);
    let local_start = name_start - declaration_start;
    let local_end = name_end - declaration_start;
    let mut renamed = string_from(&text, 0, local_start);
    push_str(&mut renamed, name.as_str());
    let tail = string_from(&text, local_end, text.len());
    push_str(&mut renamed, tail.as_str());
    let ghost rv = text@.take(local_start as int) + tv.last() + text@.skip(local_end as int);
    assert(text@.subrange(0, local_start as int) =~= text@.take(local_start as int));
    assert(text@.subrange(local_end as int, text@.len() as int) =~= text@.skip(local_end as int));
    assert(renamed@ =~= rv);
    let rc = chars_of(renamed.as_str());
    let (a, b) = trim_range(&rc, 0, rc.len());
    let line = string_from(&rc, a, b);
    assert(line@ == trim(rv));
    let mut v: Vec<TextReplacement> = Vec::new();
    v.push(TextReplacement {
        path: declaration_file.to_owned(),
        start: line_start,
        end: line_end,
        replacement: String::new(),
    });
    v.push(append_replacement(target_parent_file, target_content, line.as_str()));
    assert(replacement_views(v@) =~= seq![
        (declaration_file@, line_start as int, line_end as int, Seq::<char>::empty()),
        (target_parent_file@, target_content@.len() as int, target_content@.len() as int, appended_text(target_content@, trim(rv))),
    ]);
    Ok(v)
}
} // verus!
