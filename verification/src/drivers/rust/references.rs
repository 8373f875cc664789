//! How a reference to a moved module is rewritten.

use vstd::prelude::*;
use super::{RustError, RustErrorView, join_segments, joined_path};
use super::module_graph::{lemma_split_from_nonempty, split_from};
use crate::source_lines::{find_pat_exec, lemma_find_pat};
use crate::text::{ascii_alnum, chars_of, is_ascii_alnum, push_str, same_chars, string_from, trim, trim_range};
use crate::validation::{lemma_string_seqs_push, string_seqs};

verus! {

/// The path that a reference `full` to (an item under) the module `source`
/// gets after the module moves to `target`: within the crate, the canonical
/// `crate::` path of the target; from another crate, the same prefix before
/// the source path with the target path in its place. `None` where the
/// reference does not change.
pub open spec fn desired_reference_view(
    full: Seq<Seq<char>>,
    source: Seq<Seq<char>>,
    target: Seq<Seq<char>>,
    same_crate: bool,
) -> Option<Seq<Seq<char>>> {
    let has_start = full.len() >= source.len();
    let start = full.len() - source.len();
    let encodes = has_start && full.skip(start) == source;
    if !same_crate && !encodes {
        None
    } else if !same_crate && has_start && start == 0 {
        None
    } else if same_crate {
        Some(seq!["crate"@] + target)
    } else {
        Some(full.take(start) + target)
    }
}

fn copy_strings(v: &Vec<String>, lo: usize, hi: usize, out: &mut Vec<String>)
    requires
        lo <= hi <= v@.len(),
    ensures
        string_seqs(final(out)@) == string_seqs(old(out)@) + string_seqs(v@).subrange(
            lo as int,
            hi as int,
        ),
{
    let ghost start = string_seqs(out@);
    let mut k = lo;
    while k < hi
        invariant
            lo <= k <= hi <= v@.len(),
            string_seqs(out@) == start + string_seqs(v@).subrange(lo as int, k as int),
        decreases hi - k,
    {
        let ghost before = out@;
        let piece = v[k].clone();
        proof {
            lemma_string_seqs_push(before, piece);
        }
        out.push(piece);
        assert(string_seqs(out@) =~= start + string_seqs(v@).subrange(lo as int, k + 1));
        k = k + 1;
    }
}

/// The path that a reference `full` gets after the module `source` moves
/// to `target`, or `None` where it does not change.
pub fn desired_reference_path(
    full: &Vec<String>,
    source: &Vec<String>,
    target: &Vec<String>,
    same_crate: bool,
) -> (r: Result<Option<Vec<String>>, RustError>)
    ensures
        match r {
            Ok(Some(v)) => desired_reference_view(
                string_seqs(full@),
                string_seqs(source@),
                string_seqs(target@),
                same_crate,
            ) == Some(string_seqs(v@)),
            Ok(None) => desired_reference_view(
                string_seqs(full@),
                string_seqs(source@),
                string_seqs(target@),
                same_crate,
            ) is None,
            Err(_) => false,
        },
{
    let ghost fv = string_seqs(full@);
    let ghost sv = string_seqs(source@);
    let has_start = full.len() >= source.len();
    let mut encodes = false;
    if has_start {
        let start = full.len() - source.len();
        let fl = full.len();
        let mut k: usize = 0;
        let mut same = true;
        while k < source.len()
            invariant
                fl == full@.len(),
                start + source@.len() == full@.len(),
                k <= source@.len(),
                same == (forall|m: int| 0 <= m < k ==> full@[start + m]@ == source@[m]@),
            decreases source.len() - k,
        {
            if full[start + k] != source[k] {
                same = false;
            }
            k = k + 1;
        }
        encodes = same;
        assert(encodes == (fv.skip(start as int) == sv)) by {
            if same {
                assert(fv.skip(start as int) =~= sv);
            } else {
                if fv.skip(start as int) == sv {
                    assert forall|m: int| 0 <= m < source@.len() implies full@[start + m]@
                        == source@[m]@ by {
                        assert(fv.skip(start as int)[m] == sv[m]);
                    }
                }
            }
        }
    }
    if !same_crate && !encodes {
        return Ok(None);
    }
    if !same_crate && has_start && full.len() == source.len() {
        return Ok(None);
    }
    let mut out: Vec<String> = Vec::new();
    if same_crate {
        let c = String::from_str("crate");
        let ghost before = out@;
        proof {
            lemma_string_seqs_push(before, c);
        }
        out.push(c);
        copy_strings(target, 0, target.len(), &mut out);
        assert(string_seqs(target@).subrange(0, target@.len() as int) =~= string_seqs(target@));
        assert(string_seqs(out@) =~= seq!["crate"@] + string_seqs(target@));
        return Ok(Some(out));
    }
    let start = full.len() - source.len();
    copy_strings(full, 0, start, &mut out);
    copy_strings(target, 0, target.len(), &mut out);
    assert(string_seqs(target@).subrange(0, target@.len() as int) =~= string_seqs(target@));
    assert(fv.subrange(0, start as int) =~= fv.take(start as int));
    assert(string_seqs(out@) =~= fv.take(start as int) + string_seqs(target@));
    Ok(Some(out))
}

/// A character that a simple path segment may hold.
pub open spec fn is_segment_char(c: char) -> bool {
    c == '_' || is_ascii_alnum(c)
}

/// A simple path segment: not empty, letters, digits and `_` only.
pub open spec fn is_simple_segment(s: Seq<char>) -> bool {
    s.len() > 0 && forall|i: int| 0 <= i < s.len() ==> is_segment_char(#[trigger] s[i])
}

/// The segments of `text` split at `::` and trimmed.
pub open spec fn trimmed_segments(text: Seq<char>) -> Seq<Seq<char>> {
    split_from(text, 0).map_values(|s: Seq<char>| trim(s))
}

/// The segments of a simple path, or a refusal where one is not simple.
pub open spec fn simple_segments_view(text: Seq<char>) -> Result<Seq<Seq<char>>, RustErrorView> {
    if exists|k: int|
        0 <= k < trimmed_segments(text).len() && !is_simple_segment(
            #[trigger] trimmed_segments(text)[k],
        ) {
        Err(RustErrorView::ComplexPath { text })
    } else {
        Ok(trimmed_segments(text))
    }
}

fn trimmed_piece(t: &Vec<char>, lo: usize, hi: usize) -> (r: String)
    requires
        lo <= hi <= t@.len(),
    ensures
        r@ == trim(t@.subrange(lo as int, hi as int)),
{
    let piece = string_from(t, lo, hi);
    let pc = chars_of(piece.as_str());
    let (a, b) = trim_range(&pc, 0, pc.len());
    string_from(&pc, a, b)
}

fn simple_exec(s: &String) -> (b: bool)
    ensures
        b == is_simple_segment(s@),
{
    let t = chars_of(s.as_str());
    if t.len() == 0 {
        return false;
    }
    let mut i: usize = 0;
    while i < t.len()
        invariant
            i <= t@.len(),
            t@ == s@,
            forall|j: int| 0 <= j < i ==> is_segment_char(#[trigger] t@[j]),
        decreases t.len() - i,
    {
        if !(t[i] == '_' || ascii_alnum(t[i])) {
            assert(!is_segment_char(s@[i as int]));
            return false;
        }
        i = i + 1;
    }
    true
}

/// The segments of a simple path `a::b::c`.
pub fn simple_segments(text: &str) -> (r: Result<Vec<String>, RustError>)
    requires
        text@.len() < usize::MAX - 2,
    ensures
        match r {
            Ok(v) => simple_segments_view(text@) == Ok::<Seq<Seq<char>>, RustErrorView>(
                string_seqs(v@),
            ),
            Err(e) => simple_segments_view(text@) == Err::<Seq<Seq<char>>, RustErrorView>(e@),
        },
{
    let t = chars_of(text);
    let sep = chars_of("::");
    proof {
        reveal_strlit("::");
    }
    let n = t.len();
    let ghost all = trimmed_segments(t@);
    let mut segments: Vec<String> = Vec::new();
    let mut i: usize = 0;
    assert(string_seqs(segments@) =~= Seq::<Seq<char>>::empty());
    loop
        invariant
            n == t@.len(),
            n < usize::MAX - 2,
            i <= n,
            t@ == text@,
            sep@ == "::"@,
            sep@.len() == 2,
            all == trimmed_segments(t@),
            string_seqs(segments@) + split_from(t@, i as int).map_values(|s: Seq<char>| trim(s))
                == all,
            forall|k: int|
                0 <= k < segments@.len() ==> is_simple_segment(#[trigger] string_seqs(segments@)[k]),
        decreases n + 1 - i,
    {
        proof {
            lemma_find_pat(t@, i as int, n as int, sep@);
        }
        let found = find_pat_exec(&t, i, n, &sep);
        let hi = match found {
            None => n,
            Some(f) => f,
        };
        let piece = trimmed_piece(&t, i, hi);
        if !simple_exec(&piece) {
            proof {
                let before = string_seqs(segments@);
                let rest = split_from(t@, i as int).map_values(|s: Seq<char>| trim(s));
                lemma_split_from_nonempty(t@, i as int);
                assert(rest[0] == piece@);
                assert(all[before.len() as int] == piece@);
            }
            return Err(RustError::ComplexPath { text: text.to_owned() });
        }
        let ghost before = segments@;
        let ghost pv = piece@;
        proof {
            lemma_string_seqs_push(before, piece);
        }
        segments.push(piece);
        match found {
            None => {
                assert(split_from(t@, i as int).map_values(|s: Seq<char>| trim(s)) =~= seq![pv]);
                assert(string_seqs(segments@) =~= all);
                return Ok(segments);
            },
            Some(f) => {
                assert(split_from(t@, i as int) == seq![t@.subrange(i as int, f as int)]
                    + split_from(t@, f + 2));
                assert(split_from(t@, i as int).map_values(|s: Seq<char>| trim(s)) =~= seq![pv]
                    + split_from(t@, f + 2).map_values(|s: Seq<char>| trim(s)));
                assert(string_seqs(segments@) + split_from(t@, f + 2).map_values(
                    |s: Seq<char>| trim(s),
                ) =~= all);
                i = f + 2;
            },
        }
    }
}


// ---------------------------------------------------------------------------
// Replacement texts

/// The replacement of a reference whose path, with the segments
/// `inherited` from an enclosing grouped `use` before its own `leaf`
/// segments, names (an item under) the module `source` that moves to
/// `target`: the part after the inherited segments of the new path, `None`
/// where the reference does not change, and a refusal where the new path
/// does not begin with the inherited segments (the grouped `use` of the file
/// `path` would have to be split).
pub open spec fn reference_replacement_view(
    path: Seq<char>,
    inherited: Seq<Seq<char>>,
    leaf: Seq<Seq<char>>,
    source: Seq<Seq<char>>,
    target: Seq<Seq<char>>,
    same_crate: bool,
) -> Result<Option<Seq<char>>, RustErrorView> {
    match desired_reference_view(inherited + leaf, source, target, same_crate) {
        None => Ok(None),
        Some(d) => if d.len() >= inherited.len() && d.take(inherited.len() as int) == inherited {
            Ok(Some(joined_path(d.skip(inherited.len() as int))))
        } else {
            Err(RustErrorView::GroupedUse { path })
        },
    }
}

/// The replacement text of a reference to a moved module (see
/// `reference_replacement_view`).
pub fn reference_replacement(
    path: &str,
    inherited: &Vec<String>,
    leaf: &Vec<String>,
    source: &Vec<String>,
    target: &Vec<String>,
    same_crate: bool,
) -> (r: Result<Option<String>, RustError>)
    requires
        inherited@.len() + leaf@.len() <= usize::MAX,
    ensures
        match r {
            Ok(Some(t)) => reference_replacement_view(
                path@,
                string_seqs(inherited@),
                string_seqs(leaf@),
                string_seqs(source@),
                string_seqs(target@),
                same_crate,
            ) == Ok::<Option<Seq<char>>, RustErrorView>(Some(t@)),
            Ok(None) => reference_replacement_view(
                path@,
                string_seqs(inherited@),
                string_seqs(leaf@),
                string_seqs(source@),
                string_seqs(target@),
                same_crate,
            ) == Ok::<Option<Seq<char>>, RustErrorView>(None),
            Err(e) => reference_replacement_view(
                path@,
                string_seqs(inherited@),
                string_seqs(leaf@),
                string_seqs(source@),
                string_seqs(target@),
                same_crate,
            ) == Err::<Option<Seq<char>>, RustErrorView>(e@),
        },
{
    let ghost iv = string_seqs(inherited@);
    let mut full: Vec<String> = Vec::new();
    copy_strings(inherited, 0, inherited.len(), &mut full);
    copy_strings(leaf, 0, leaf.len(), &mut full);
    assert(iv.subrange(0, inherited@.len() as int) =~= iv);
    assert(string_seqs(leaf@).subrange(0, leaf@.len() as int) =~= string_seqs(leaf@));
    assert(string_seqs(full@) =~= iv + string_seqs(leaf@));
    let desired = match desired_reference_path(&full, source, target, same_crate) {
        Ok(Some(d)) => d,
        _ => return Ok(None),
    };
    let ghost dv = string_seqs(desired@);
    assert(dv.len() == desired@.len() && iv.len() == inherited@.len());
    if desired.len() < inherited.len() {
        return Err(RustError::GroupedUse { path: path.to_owned() });
    }
    let mut k: usize = 0;
    while k < inherited.len()
        invariant
            k <= inherited@.len() <= desired@.len(),
            dv == string_seqs(desired@),
            iv == string_seqs(inherited@),
            forall|m: int| 0 <= m < k ==> dv[m] == iv[m],
            desired_reference_view(
                iv + string_seqs(leaf@),
                string_seqs(source@),
                string_seqs(target@),
                same_crate,
            ) == Some(dv),
        decreases inherited.len() - k,
    {
        if desired[k] != inherited[k] {
            assert(dv.take(inherited@.len() as int)[k as int] != iv[k as int]);
            return Err(RustError::GroupedUse { path: path.to_owned() });
        }
        k = k + 1;
    }
    assert(dv.take(inherited@.len() as int) =~= iv);
    let mut rest: Vec<String> = Vec::new();
    copy_strings(&desired, inherited.len(), desired.len(), &mut rest);
    assert(string_seqs(rest@) =~= dv.skip(inherited@.len() as int));
    Ok(Some(join_segments(&rest)))
}

/// How many of the first segments are `super`.
pub open spec fn leading_supers(segments: Seq<Seq<char>>) -> nat
    decreases segments.len(),
{
    if segments.len() > 0 && segments[0] == "super"@ {
        1 + leading_supers(segments.drop_first())
    } else {
        0
    }
}

proof fn lemma_leading_supers(segments: Seq<Seq<char>>, n: int)
    requires
        0 <= n <= segments.len(),
        forall|i: int| 0 <= i < n ==> #[trigger] segments[i] == "super"@,
        n < segments.len() ==> segments[n] != "super"@,
    ensures
        leading_supers(segments) == n,
    decreases n,
{
    if n > 0 {
        let d = segments.drop_first();
        assert forall|i: int| 0 <= i < n - 1 implies #[trigger] d[i] == "super"@ by {
            assert(d[i] == segments[i + 1]);
        }
        if n - 1 < d.len() {
            assert(d[n - 1] == segments[n]);
        }
        lemma_leading_supers(d, n - 1);
    }
}

/// The canonical path that a path with leading `super` segments (the text
/// `text` of the file `path`, split into `segments`) names, given the module
/// path `context` of the place where it stands: `None` where it does not
/// begin with `super`, a refusal where it climbs above the crate root.
pub open spec fn super_replacement_view(
    path: Seq<char>,
    text: Seq<char>,
    segments: Seq<Seq<char>>,
    context: Seq<Seq<char>>,
) -> Result<Option<Seq<char>>, RustErrorView> {
    let n = leading_supers(segments);
    if n == 0 {
        Ok(None)
    } else if n > context.len() {
        Err(RustErrorView::ClimbsAboveRoot { text, path })
    } else {
        let c = context.take(context.len() - n) + segments.skip(n as int);
        Ok(Some(if c.len() == 0 {
            "crate"@
        } else {
            "crate::"@ + joined_path(c)
        }))
    }
}

/// The canonical `crate::` path for a path that begins with `super` (see
/// `super_replacement_view`).
pub fn super_path_replacement(path: &str, text: &str, segments: &Vec<String>, context: &Vec<String>) -> (r:
    Result<Option<String>, RustError>)
    ensures
        match r {
            Ok(Some(t)) => super_replacement_view(path@, text@, string_seqs(segments@), string_seqs(context@))
                == Ok::<Option<Seq<char>>, RustErrorView>(Some(t@)),
            Ok(None) => super_replacement_view(path@, text@, string_seqs(segments@), string_seqs(context@))
                == Ok::<Option<Seq<char>>, RustErrorView>(None),
            Err(e) => super_replacement_view(path@, text@, string_seqs(segments@), string_seqs(context@))
                == Err::<Option<Seq<char>>, RustErrorView>(e@),
        },
{
    let ghost sv = string_seqs(segments@);
    let ghost cv = string_seqs(context@);
    let word = chars_of("super");
    let mut n: usize = 0;
    while n < segments.len() && same_chars(&chars_of(segments[n].as_str()), &word)
        invariant
            n <= segments@.len(),
            sv == string_seqs(segments@),
            word@ == "super"@,
            forall|i: int| 0 <= i < n ==> #[trigger] sv[i] == "super"@,
        decreases segments.len() - n,
    {
        n = n + 1;
    }
    proof {
        lemma_leading_supers(sv, n as int);
    }
    if n == 0 {
        return Ok(None);
    }
    if n > context.len() {
        return Err(RustError::ClimbsAboveRoot { text: text.to_owned(), path: path.to_owned() });
    }
    let mut c: Vec<String> = Vec::new();
    copy_strings(context, 0, context.len() - n, &mut c);
    copy_strings(segments, n, segments.len(), &mut c);
    assert(cv.subrange(0, context@.len() - n) =~= cv.take(context@.len() - n));
    assert(sv.subrange(n as int, segments@.len() as int) =~= sv.skip(n as int));
    let mut out = String::new();
    if c.len() == 0 {
        push_str(&mut out, "crate");
    } else {
        push_str(&mut out, "crate::");
        let joined = join_segments(&c);
        push_str(&mut out, joined.as_str());
    }
    Ok(Some(out))
}
} // verus!
