//! Logical module paths of the Rust driver.

use vstd::prelude::*;
use super::{RustError, RustErrorView, is_rust_identifier, is_valid_rust_identifier, join_segments, joined_path};
use crate::paths::{path_view, same_path};
use crate::text::push_str;
use crate::source_lines::{find_pat, find_pat_exec, lemma_find_pat};
use crate::text::{chars_of, is_ascii_alnum, string_from};
use crate::validation::{lemma_string_seqs_push, string_seqs};

verus! {

/// `t[i..].split("::")`.
pub open spec fn split_from(t: Seq<char>, i: int) -> Seq<Seq<char>>
    decreases t.len() + 1 - i,
{
    match find_pat(t, i, t.len() as int, "::"@) {
        None => seq![t.subrange(i, t.len() as int)],
        Some(f) => if i < f + 2 <= t.len() + 1 {
            seq![t.subrange(i, f)] + split_from(t, f + 2)
        } else {
            seq![t.subrange(i, f)]
        },
    }
}

/// Whether `s` is a Rust identifier (`is_identifier`).
pub fn is_identifier(value: &str) -> (b: bool)
    ensures
        b == is_rust_identifier(value@),
{
    is_valid_rust_identifier(value)
}

/// What `parse_module_path` gives: the segments after `crate`, or why the
/// path is refused.
pub open spec fn module_path_outcome(value: Seq<char>) -> Result<Seq<Seq<char>>, RustErrorView> {
    let parts = split_from(value, 0);
    if parts[0] != "crate"@ {
        Err(RustErrorView::NotCratePath { value })
    } else if parts.len() == 1 {
        Err(RustErrorView::CrateRoot)
    } else {
        let segments = parts.drop_first();
        if exists|k: int| 0 <= k < segments.len() && !is_rust_identifier(#[trigger] segments[k]) {
            let k = choose|k: int|
                0 <= k < segments.len() && !is_rust_identifier(#[trigger] segments[k]) && forall|
                    j: int,
                | 0 <= j < k ==> is_rust_identifier(#[trigger] segments[j]);
            Err(RustErrorView::BadSegment { segment: segments[k], value })
        } else {
            Ok(segments)
        }
    }
}

pub proof fn lemma_split_from_nonempty(t: Seq<char>, i: int)
    ensures
        split_from(t, i).len() >= 1,
    decreases t.len() + 1 - i,
{
    match find_pat(t, i, t.len() as int, "::"@) {
        None => {},
        Some(f) => if i < f + 2 <= t.len() + 1 {
            lemma_split_from_nonempty(t, f + 2);
        },
    }
}

/// Splits `value` at each `::`.
fn split_path(t: &Vec<char>) -> (r: Vec<String>)
    requires
        t@.len() < usize::MAX - 2,
    ensures
        string_seqs(r@) == split_from(t@, 0),
{
    let sep = chars_of("::");
    proof {
        reveal_strlit("::");
    }
    let n = t.len();
    let mut r: Vec<String> = Vec::new();
    let mut i: usize = 0;
    let ghost head: Seq<Seq<char>> = Seq::empty();
    assert(string_seqs(r@) =~= head);
    loop
        invariant
            n == t@.len(),
            n < usize::MAX - 2,
            i <= n,
            sep@ == "::"@,
            sep@.len() == 2,
            string_seqs(r@) + split_from(t@, i as int) == split_from(t@, 0),
        decreases n + 1 - i,
    {
        proof {
            lemma_find_pat(t@, i as int, n as int, sep@);
        }
        match find_pat_exec(t, i, n, &sep) {
            None => {
                let piece = string_from(t, i, n);
                let ghost before = string_seqs(r@);
                r.push(piece);
                assert(string_seqs(r@) =~= before + split_from(t@, i as int));
                return r;
            },
            Some(f) => {
                let piece = string_from(t, i, f);
                let ghost before = string_seqs(r@);
                let ghost pv = piece@;
                r.push(piece);
                assert(string_seqs(r@) =~= before.push(pv));
                assert(split_from(t@, i as int) == seq![pv] + split_from(t@, f + 2));
                assert(string_seqs(r@) + split_from(t@, f + 2) =~= before + split_from(
                    t@,
                    i as int,
                ));
                i = f + 2;
            },
        }
    }
}

/// Parses a logical module path `crate::a::b` into its segments after
/// `crate`; each must be an identifier.
pub fn parse_module_path(value: &str) -> (r: Result<Vec<String>, RustError>)
    requires
        value@.len() < usize::MAX - 2,
    ensures
        match r {
            Ok(v) => module_path_outcome(value@) == Ok::<Seq<Seq<char>>, RustErrorView>(
                string_seqs(v@),
            ),
            Err(e) => module_path_outcome(value@) == Err::<Seq<Seq<char>>, RustErrorView>(e@),
        },
{
    let t = chars_of(value);
    let parts = split_path(&t);
    proof {
        lemma_split_from_nonempty(t@, 0);
        reveal_strlit("crate");
    }
    let ghost pv = string_seqs(parts@);
    let first = chars_of(parts[0].as_str());
    let kw = chars_of("crate");
    assert(pv[0] == parts@[0]@);
    if !crate::text::same_chars(&first, &kw) {
        return Err(RustError::NotCratePath { value: value.to_owned() });
    }
    if parts.len() == 1 {
        return Err(RustError::CrateRoot);
    }
    let ghost segs = pv.drop_first();
    let mut segments: Vec<String> = Vec::new();
    let mut k: usize = 1;
    assert(string_seqs(segments@) =~= segs.take(0));
    while k < parts.len()
        invariant
            1 <= k <= parts@.len(),
            pv == string_seqs(parts@),
            segs == pv.drop_first(),
            string_seqs(segments@) == segs.take(k - 1),
            forall|j: int| 0 <= j < k - 1 ==> is_rust_identifier(#[trigger] segs[j]),
            t@ == value@,
            pv == split_from(value@, 0),
            pv[0] == "crate"@,
        decreases parts.len() - k,
    {
        assert(segs[k - 1] == parts@[k as int]@);
        if !is_identifier(parts[k].as_str()) {
            proof {
                let kk = (k - 1) as int;
                assert(!is_rust_identifier(segs[kk]));
                let c = choose|c: int|
                    0 <= c < segs.len() && !is_rust_identifier(#[trigger] segs[c]) && forall|
                        j: int,
                    | 0 <= j < c ==> is_rust_identifier(#[trigger] segs[j]);
                if c < kk {
                    assert(is_rust_identifier(segs[c]));
                } else if c > kk {
                    assert(is_rust_identifier(segs[kk]));
                }
            }
            return Err(
                RustError::BadSegment { segment: parts[k].clone(), value: value.to_owned() },
            );
        }
        let ghost before = segments@;
        let piece = parts[k].clone();
        proof {
            lemma_string_seqs_push(before, piece);
        }
        segments.push(piece);
        assert(segs.take(k as int) =~= segs.take(k - 1).push(segs[k - 1]));
        k = k + 1;
    }
    assert(segs.take(segs.len() as int) =~= segs);
    Ok(segments)
}

proof fn lemma_joined_front(a: Seq<char>, rest: Seq<Seq<char>>)
    requires
        rest.len() >= 1,
    ensures
        joined_path(seq![a] + rest) == a + "::"@ + joined_path(rest),
    decreases rest.len(),
{
    let all = seq![a] + rest;
    assert(all.len() >= 2);
    assert(all.last() == rest.last());
    if rest.len() == 1 {
        assert(all.drop_last() =~= seq![a]);
        assert(joined_path(seq![a]) == a);
        assert(joined_path(rest) == rest[0]);
        assert(rest.last() == rest[0]);
    } else {
        lemma_joined_front(a, rest.drop_last());
        assert(all.drop_last() =~= seq![a] + rest.drop_last());
        assert(joined_path(all) == joined_path(all.drop_last()) + "::"@ + all.last());
        assert(joined_path(rest) == joined_path(rest.drop_last()) + "::"@ + rest.last());
        assert(a + "::"@ + joined_path(rest.drop_last()) + "::"@ + rest.last() =~= a + "::"@ + (
        joined_path(rest.drop_last()) + "::"@ + rest.last()));
    }
}

proof fn lemma_split_joined(t: Seq<char>, i: int)
    requires
        0 <= i <= t.len(),
    ensures
        joined_path(split_from(t, i)) == t.subrange(i, t.len() as int),
    decreases t.len() + 1 - i,
{
    reveal_strlit("::");
    lemma_find_pat(t, i, t.len() as int, "::"@);
    match find_pat(t, i, t.len() as int, "::"@) {
        None => {},
        Some(f) => {
            lemma_split_from_nonempty(t, f + 2);
            lemma_split_joined(t, f + 2);
            lemma_joined_front(t.subrange(i, f), split_from(t, f + 2));
            assert(t.subrange(f, f + 2) == "::"@);
            assert(t.subrange(i, f) + "::"@ + t.subrange(f + 2, t.len() as int) =~= t.subrange(
                i,
                t.len() as int,
            ));
        },
    }
}

/// A module path that parses is `crate::` followed by its segments joined
/// with `::`.
pub proof fn lemma_parse_module_path_roundtrip(value: Seq<char>)
    requires
        module_path_outcome(value) is Ok,
    ensures
        value == "crate::"@ + joined_path(module_path_outcome(value)->Ok_0),
{
    reveal_strlit("crate::");
    reveal_strlit("crate");
    reveal_strlit("::");
    let parts = split_from(value, 0);
    lemma_split_from_nonempty(value, 0);
    lemma_split_joined(value, 0);
    assert(value.subrange(0, value.len() as int) =~= value);
    let segs = parts.drop_first();
    assert(parts =~= seq![parts[0]] + segs);
    lemma_joined_front(parts[0], segs);
    assert("crate::"@ =~= "crate"@ + "::"@);
}


/// Whether no character of `a` is a colon.
pub open spec fn colon_free(a: Seq<char>) -> bool {
    forall|j: int| 0 <= j < a.len() ==> #[trigger] a[j] != ':'
}

proof fn lemma_find_sep_at(t: Seq<char>, s: int, f: int)
    requires
        0 <= s <= f,
        f + 2 <= t.len(),
        t[f] == ':' && t[f + 1] == ':',
        forall|j: int| s <= j < f ==> #[trigger] t[j] != ':',
    ensures
        find_pat(t, s, t.len() as int, "::"@) == Some(f),
    decreases f - s,
{
    reveal_strlit("::");
    if s < f {
        assert(t.subrange(s, s + 2)[0] == t[s]);
        lemma_find_sep_at(t, s + 1, f);
    } else {
        assert(t.subrange(f, f + 2) =~= "::"@);
    }
}

proof fn lemma_find_sep_none(t: Seq<char>, s: int)
    requires
        0 <= s,
        forall|j: int| s <= j < t.len() ==> #[trigger] t[j] != ':',
    ensures
        find_pat(t, s, t.len() as int, "::"@) is None,
    decreases t.len() + 1 - s,
{
    reveal_strlit("::");
    if s + 2 <= t.len() {
        assert(t.subrange(s, s + 2)[0] == t[s]);
        lemma_find_sep_none(t, s + 1);
    }
}

proof fn lemma_split_of_joined(prefix: Seq<char>, parts: Seq<Seq<char>>)
    requires
        parts.len() >= 1,
        forall|k: int| 0 <= k < parts.len() ==> colon_free(#[trigger] parts[k]),
    ensures
        split_from(prefix + joined_path(parts), prefix.len() as int) == parts,
    decreases parts.len(),
{
    reveal_strlit("::");
    let t = prefix + joined_path(parts);
    let i = prefix.len() as int;
    let a = parts[0];
    assert(colon_free(a));
    if parts.len() == 1 {
        assert(joined_path(parts) == a);
        lemma_find_sep_none(t, i);
        assert(t.subrange(i, t.len() as int) =~= a);
        assert(split_from(t, i) =~= parts);
    } else {
        let rest = parts.drop_first();
        assert(parts =~= seq![a] + rest);
        lemma_joined_front(a, rest);
        let f = i + a.len();
        assert(t =~= (prefix + a + "::"@) + joined_path(rest));
        lemma_find_sep_at(t, i, f);
        assert(t.subrange(i, f) =~= a);
        assert forall|k: int| 0 <= k < rest.len() implies colon_free(#[trigger] rest[k]) by {
            assert(rest[k] == parts[k + 1]);
        }
        lemma_split_of_joined(prefix + a + "::"@, rest);
        assert((prefix + a + "::"@).len() == f + 2);
        assert(split_from(t, i) =~= parts);
    }
}

/// Every list of one or more identifiers parses back from `crate::`
/// followed by the identifiers joined with `::`.
pub proof fn lemma_valid_segments_parse(segs: Seq<Seq<char>>)
    requires
        segs.len() >= 1,
        forall|k: int| 0 <= k < segs.len() ==> is_rust_identifier(#[trigger] segs[k]),
    ensures
        module_path_outcome("crate::"@ + joined_path(segs)) == Ok::<Seq<Seq<char>>, RustErrorView>(
            segs,
        ),
{
    reveal_strlit("crate::");
    reveal_strlit("crate");
    reveal_strlit("::");
    let parts = seq!["crate"@] + segs;
    lemma_joined_front("crate"@, segs);
    assert("crate::"@ + joined_path(segs) =~= "crate"@ + "::"@ + joined_path(segs));
    assert forall|k: int| 0 <= k < parts.len() implies colon_free(#[trigger] parts[k]) by {
        if k > 0 {
            assert(parts[k] == segs[k - 1]);
            assert(is_rust_identifier(segs[k - 1]));
            assert forall|j: int| 0 <= j < parts[k].len() implies #[trigger] parts[k][j] != ':' by {
                if j > 0 {
                    assert(parts[k][j] == '_' || is_ascii_alnum(parts[k][j]));
                }
            }
        } else {
            assert(parts[0] == "crate"@);
        }
    }
    lemma_split_of_joined(Seq::empty(), parts);
    assert(Seq::<char>::empty() + joined_path(parts) =~= joined_path(parts));
    assert(parts.drop_first() =~= segs);
    assert(parts[0] == "crate"@);
}

/// `parse_module_path` accepts exactly `crate::` followed by one or more
/// identifiers joined with `::`, and gives back those identifiers.
pub proof fn lemma_parse_module_path_exactly(value: Seq<char>, segs: Seq<Seq<char>>)
    ensures
        module_path_outcome(value) == Ok::<Seq<Seq<char>>, RustErrorView>(segs) <==> (segs.len() >= 1
            && (forall|k: int| 0 <= k < segs.len() ==> is_rust_identifier(#[trigger] segs[k]))
            && value == "crate::"@ + joined_path(segs)),
{
    if module_path_outcome(value) == Ok::<Seq<Seq<char>>, RustErrorView>(segs) {
        lemma_parse_module_path_roundtrip(value);
        let parts = split_from(value, 0);
        assert(segs == parts.drop_first());
        assert(segs.len() >= 1);
    }
    if segs.len() >= 1 && (forall|k: int| 0 <= k < segs.len() ==> is_rust_identifier(#[trigger] segs[k]))
        && value == "crate::"@ + joined_path(segs) {
        lemma_valid_segments_parse(segs);
    }
}

// ---------------------------------------------------------------------------
// Modules that can move

/// Whether a module declaration may be moved, given what rust-analyzer
/// reports of the module `crate::segments`: inline modules, modules under a
/// `#[path]` attribute, declarations with attributes and visibilities other
/// than private, `pub` and `pub(crate)` are refused, in that order.
pub open spec fn module_shape_outcome(
    segments: Seq<Seq<char>>,
    is_inline: bool,
    has_path: bool,
    has_attrs: bool,
    visibility: Seq<char>,
) -> Result<(), RustErrorView> {
    let module = joined_path(segments);
    if is_inline {
        Err(RustErrorView::InlineModule { module })
    } else if has_path {
        Err(RustErrorView::PathShim { module })
    } else if has_attrs {
        Err(RustErrorView::AttributedDeclaration { module })
    } else if !(visibility == ""@ || visibility == "pub"@ || visibility == "pub(crate)"@) {
        Err(RustErrorView::UnsupportedVisibility { module, visibility })
    } else {
        Ok(())
    }
}

fn text_is(a: &str, b: &str) -> (r: bool)
    ensures
        r == (a@ == b@),
{
    let x = chars_of(a);
    let y = chars_of(b);
    crate::text::same_chars(&x, &y)
}

/// Checks that the module `crate::segments` can be moved (see
/// `module_shape_outcome`).
pub fn check_module_shape(
    segments: &Vec<String>,
    is_inline: bool,
    has_path: bool,
    has_attrs: bool,
    visibility: &str,
) -> (r: Result<(), RustError>)
    ensures
        match r {
            Ok(()) => module_shape_outcome(string_seqs(segments@), is_inline, has_path, has_attrs, visibility@)
                is Ok,
            Err(e) => module_shape_outcome(string_seqs(segments@), is_inline, has_path, has_attrs, visibility@)
                == Err::<(), RustErrorView>(e@),
        },
{
    if is_inline {
        return Err(RustError::InlineModule { module: join_segments(segments) });
    }
    if has_path {
        return Err(RustError::PathShim { module: join_segments(segments) });
    }
    if has_attrs {
        return Err(RustError::AttributedDeclaration { module: join_segments(segments) });
    }
    if !(text_is(visibility, "") || text_is(visibility, "pub") || text_is(visibility, "pub(crate)")) {
        return Err(
            RustError::UnsupportedVisibility {
                module: join_segments(segments),
                visibility: visibility.to_owned(),
            },
        );
    }
    Ok(())
}

/// A declaration found for a module: its file and its range there.
pub open spec fn same_declaration(a: (Seq<char>, int, int), b: (Seq<char>, int, int)) -> bool {
    path_view(a.0) == path_view(b.0) && a.1 == b.1 && a.2 == b.2
}

/// The indices of the declarations that do not repeat an earlier one, in
/// order.
pub open spec fn distinct_declarations(decls: Seq<(Seq<char>, int, int)>) -> Seq<int>
    decreases decls.len(),
{
    if decls.len() == 0 {
        Seq::empty()
    } else {
        let rest = distinct_declarations(decls.drop_last());
        if exists|i: int| 0 <= i < rest.len() && same_declaration(decls[rest[i]], decls.last()) {
            rest
        } else {
            rest.push(decls.len() - 1)
        }
    }
}

/// The files of the declarations at `indices`, separated by `, `.
pub open spec fn declaration_list(decls: Seq<(Seq<char>, int, int)>, indices: Seq<int>) -> Seq<char>
    decreases indices.len(),
{
    if indices.len() == 0 {
        Seq::empty()
    } else if indices.len() == 1 {
        decls[indices[0]].0
    } else {
        declaration_list(decls, indices.drop_last()) + ", "@ + decls[indices.last()].0
    }
}

/// Which of the declarations that rust-analyzer found for `crate::segments`
/// in the local crates of the workspace at `root` is the source module: the
/// one declaration once repeats are dropped; none is refused as unresolved,
/// several as ambiguous (with their files).
pub open spec fn source_choice(
    segments: Seq<Seq<char>>,
    root: Seq<char>,
    decls: Seq<(Seq<char>, int, int)>,
) -> Result<int, RustErrorView> {
    let d = distinct_declarations(decls);
    if d.len() == 0 {
        Err(RustErrorView::Unresolved { module: joined_path(segments), root })
    } else if d.len() == 1 {
        Ok(d[0])
    } else {
        Err(
            RustErrorView::Ambiguous {
                module: joined_path(segments),
                count: d.len(),
                locations: declaration_list(decls, d),
            },
        )
    }
}

pub open spec fn declaration_views(v: Seq<(String, usize, usize)>) -> Seq<(Seq<char>, int, int)> {
    v.map_values(|x: (String, usize, usize)| (x.0@, x.1 as int, x.2 as int))
}

/// Picks the source module among the declarations found for it (see
/// `source_choice`): the index of the chosen declaration.
pub fn select_source_declaration(segments: &Vec<String>, root: &str, declarations: &Vec<(String, usize, usize)>) -> (r:
    Result<usize, RustError>)
    ensures
        match r {
            Ok(i) => source_choice(string_seqs(segments@), root@, declaration_views(declarations@)) == Ok::<
                int,
                RustErrorView,
            >(i as int),
            Err(e) => source_choice(string_seqs(segments@), root@, declaration_views(declarations@))
                == Err::<int, RustErrorView>(e@),
        },
{
    let ghost dv = declaration_views(declarations@);
    let mut kept: Vec<usize> = Vec::new();
    let mut j: usize = 0;
    while j < declarations.len()
        invariant
            j <= declarations@.len(),
            dv == declaration_views(declarations@),
            kept@.map_values(|k: usize| k as int) == distinct_declarations(dv.take(j as int)),
            forall|m: int| 0 <= m < kept@.len() ==> #[trigger] kept@[m] < j,
        decreases declarations.len() - j,
    {
        let ghost kv = kept@.map_values(|k: usize| k as int);
        let ghost tj = dv.take(j as int + 1);
        assert(tj.drop_last() =~= dv.take(j as int));
        assert(tj.last() == dv[j as int]);
        let mut m: usize = 0;
        let mut repeated = false;
        while m < kept.len()
            invariant
                m <= kept@.len(),
                j < declarations@.len(),
                dv == declaration_views(declarations@),
                kv == kept@.map_values(|k: usize| k as int),
                forall|q: int| 0 <= q < kept@.len() ==> #[trigger] kept@[q] < j,
                tj == dv.take(j as int + 1),
                repeated ==> exists|i: int| 0 <= i < kv.len() && same_declaration(tj[kv[i]], tj.last()),
                !repeated ==> forall|i: int| 0 <= i < m ==> !same_declaration(#[trigger] tj[kv[i]], tj.last()),
            decreases kept.len() - m,
        {
            let k = kept[m];
            assert(kv[m as int] == k as int);
            assert(tj[k as int] == dv[k as int]);
            if same_path(declarations[k].0.as_str(), declarations[j].0.as_str()) && declarations[k].1
                == declarations[j].1 && declarations[k].2 == declarations[j].2 {
                assert(same_declaration(tj[kv[m as int]], tj.last()));
                repeated = true;
            }
            m = m + 1;
        }
        proof {
            assert forall|i: int| 0 <= i < kv.len() implies #[trigger] tj[kv[i]] == dv.take(j as int)[kv[i]] by {
                assert(kept@[i] < j);
            }
        }
        if !repeated {
            kept.push(j);
            assert(kept@.map_values(|k: usize| k as int) =~= kv.push(j as int));
            assert(tj.len() - 1 == j as int);
        }
        j = j + 1;
    }
    assert(dv.take(declarations@.len() as int) =~= dv);
    let ghost d = distinct_declarations(dv);
    if kept.len() == 0 {
        return Err(RustError::Unresolved { module: join_segments(segments), root: root.to_owned() });
    }
    if kept.len() == 1 {
        return Ok(kept[0]);
    }
    let mut locations = String::new();
    let mut q: usize = 0;
    while q < kept.len()
        invariant
            q <= kept@.len(),
            kept@.len() >= 2,
            dv == declaration_views(declarations@),
            d == kept@.map_values(|k: usize| k as int),
            forall|m: int| 0 <= m < kept@.len() ==> #[trigger] kept@[m] < declarations@.len(),
            locations@ == declaration_list(dv, d.take(q as int)),
        decreases kept.len() - q,
    {
        assert(d.take(q as int + 1).drop_last() =~= d.take(q as int));
        assert(d.take(q as int + 1).last() == d[q as int]);
        let k = kept[q];
        if q > 0 {
            push_str(&mut locations, ", ");
        } else {
            assert(d.take(1)[0] == d[0]);
        }
        push_str(&mut locations, declarations[k].0.as_str());
        q = q + 1;
    }
    assert(d.take(kept@.len() as int) =~= d);
    Err(
        RustError::Ambiguous {
            module: join_segments(segments),
            count: kept.len(),
            locations,
        },
    )
}
} // verus!
