//! Rewriting the links of Markdown files after a move.
//!
//! A link is rewritten when the file that holds it moves, or when the file it
//! points to moves; the new link is relative to the new place of the file
//! that holds it and keeps its fragment.

pub mod href;
pub mod pathing;

use vstd::prelude::*;
use crate::paths::{
    PathView, is_abs, join_parts, join_view, lemma_join_parts_avoids, lemma_path_view_ok,
    lemma_view_render, opt_view, parent_view, part_ok, path_parent, path_view, render, same_path,
};
use crate::text::{
    chars_of, first_index, is_ascii_alpha, is_unicode_ws, lemma_back_unicode_ws, lemma_first_index,
    push_char, trim, trim_bounds,
};
use super::parser::{links_in_bounds, markdown_links, markdown_links_in_bounds, parse_markdown_chars};
use super::parser::inline::{MarkdownLinkTarget, TargetView, href_matches, target_views};
use super::{MarkdownError, MarkdownErrorView};
use href::{classify_href, classify_link_target, has_scheme, is_external, rebuild_href, rebuilt_href, split_href};
use pathing::{
    ResolvedMove, common_from, diff_paths_result, forward_slashes, lemma_common_from,
    lemma_norm_fold_append, lemma_norm_fold_ups, lemma_parent_ok, link_text, move_views,
    norm_fold, normalize_view, opt_str_view, pair_views, relative_link_error, relative_link_from,
    relative_link_outcome, relative_parts, starts_with, ups,
};

verus! {

// ---------------------------------------------------------------------------
// Looking up moved files

/// The target of the last move whose source is the path `p`.
pub open spec fn lookup_entry(lookup: Seq<(Seq<char>, Seq<char>)>, p: Seq<char>) -> Option<
    Seq<char>,
>
    decreases lookup.len(),
{
    if lookup.len() == 0 {
        None
    } else if path_view(lookup.last().0) == path_view(p) {
        Some(lookup.last().1)
    } else {
        lookup_entry(lookup.drop_last(), p)
    }
}

/// Where the file `p` is after the moves of `lookup`.
pub open spec fn lookup_path(lookup: Seq<(Seq<char>, Seq<char>)>, p: Seq<char>) -> Seq<char> {
    match lookup_entry(lookup, p) {
        Some(q) => q,
        None => p,
    }
}

/// The target of the move of `p` in `lookup`, if it moves.
pub fn lookup_move(lookup: &Vec<(String, String)>, p: &str) -> (r: Option<String>)
    ensures
        opt_view(r) == lookup_entry(pair_views(lookup@), p@),
{
    let ghost pv = pair_views(lookup@);
    let mut k = lookup.len();
    assert(pv.take(k as int) =~= pv);
    while k > 0
        invariant
            k <= lookup@.len(),
            pv == pair_views(lookup@),
            lookup_entry(pv.take(k as int), p@) == lookup_entry(pv, p@),
        decreases k,
    {
        assert(pv.take(k as int).drop_last() =~= pv.take(k - 1));
        assert(pv.take(k as int).last() == pv[k - 1]);
        if same_path(lookup[k - 1].0.as_str(), p) {
            return Some(lookup[k - 1].1.clone());
        }
        k = k - 1;
    }
    None
}

// ---------------------------------------------------------------------------
// Edits

/// The replacement of the characters `start..end` by `text`.
pub struct LinkEdit {
    pub start: usize,
    pub end: usize,
    pub text: String,
}

impl View for LinkEdit {
    type V = (int, int, Seq<char>);

    open spec fn view(&self) -> (int, int, Seq<char>) {
        (self.start as int, self.end as int, self.text@)
    }
}

pub open spec fn edit_views(v: Seq<LinkEdit>) -> Seq<(int, int, Seq<char>)> {
    v.map_values(|e: LinkEdit| e@)
}

/// What happens to one link of the file `original`, which ends up at
/// `final_path` in the directory `final_dir`: nothing, a new link text over
/// its range, or a refusal.
pub open spec fn link_edit(
    original: Seq<char>,
    final_path: Seq<char>,
    final_dir: Seq<char>,
    lookup: Seq<(Seq<char>, Seq<char>)>,
    link: TargetView,
) -> Result<Option<(int, int, Seq<char>)>, MarkdownErrorView> {
    match classify_href(original, link.href) {
        Err(e) => Err(e),
        Ok(None) => Ok(None),
        Ok(Some((abs, fragment))) => {
            let new_abs = lookup_path(lookup, abs);
            if path_view(final_path) == path_view(original) && path_view(new_abs) == path_view(
                abs,
            ) {
                Ok(None)
            } else {
                let rel = diff_paths_result(new_abs, final_dir);
                match relative_link_outcome(rel) {
                    Err(_) => Err(relative_link_error(final_dir, new_abs, rel)),
                    Ok(r) => {
                        let rebuilt = rebuilt_href(r, fragment);
                        if rebuilt == link.href {
                            Ok(None)
                        } else {
                            Ok(Some((link.start, link.end, rebuilt)))
                        }
                    },
                }
            }
        },
    }
}

/// The edits for `links`, in their order, or the refusal of the first link
/// that is refused.
pub open spec fn link_edits(
    original: Seq<char>,
    final_path: Seq<char>,
    final_dir: Seq<char>,
    lookup: Seq<(Seq<char>, Seq<char>)>,
    links: Seq<TargetView>,
) -> Result<Seq<(int, int, Seq<char>)>, MarkdownErrorView>
    decreases links.len(),
{
    if links.len() == 0 {
        Ok(Seq::empty())
    } else {
        match link_edits(original, final_path, final_dir, lookup, links.drop_last()) {
            Err(e) => Err(e),
            Ok(es) => match link_edit(original, final_path, final_dir, lookup, links.last()) {
                Err(e) => Err(e),
                Ok(None) => Ok(es),
                Ok(Some(x)) => Ok(es.push(x)),
            },
        }
    }
}

/// `x` put into `es` after every edit that starts no later than it does
/// (one step of a stable insertion sort by start).
pub open spec fn insert_edit(es: Seq<(int, int, Seq<char>)>, x: (int, int, Seq<char>)) -> Seq<
    (int, int, Seq<char>),
>
    decreases es.len(),
{
    if es.len() == 0 {
        seq![x]
    } else if es.last().0 <= x.0 {
        es.push(x)
    } else {
        insert_edit(es.drop_last(), x).push(es.last())
    }
}

/// `es` stably sorted by start.
pub open spec fn sort_edits(es: Seq<(int, int, Seq<char>)>) -> Seq<(int, int, Seq<char>)>
    decreases es.len(),
{
    if es.len() == 0 {
        Seq::empty()
    } else {
        insert_edit(sort_edits(es.drop_last()), es.last())
    }
}

/// `t` with the range of `e` replaced by its text.
pub open spec fn splice(t: Seq<char>, e: (int, int, Seq<char>)) -> Seq<char> {
    t.take(e.0) + e.2 + t.skip(e.1)
}

/// The edits applied from the last to the first, each to the text that the
/// later ones left; `None` where a range does not lie within that text.
pub open spec fn apply_edits(t: Seq<char>, es: Seq<(int, int, Seq<char>)>) -> Option<Seq<char>>
    decreases es.len(),
{
    if es.len() == 0 {
        Some(t)
    } else if 0 <= es.last().0 <= es.last().1 <= t.len() {
        apply_edits(splice(t, es.last()), es.drop_last())
    } else {
        None
    }
}

proof fn lemma_insert_edit(es: Seq<(int, int, Seq<char>)>, x: (int, int, Seq<char>), j: int)
    requires
        0 <= j <= es.len(),
        forall|i: int| j <= i < es.len() ==> (#[trigger] es[i]).0 > x.0,
        j > 0 ==> es[j - 1].0 <= x.0,
    ensures
        insert_edit(es, x) == es.insert(j, x),
    decreases es.len(),
{
    if es.len() == 0 {
        assert(es.insert(j, x) =~= seq![x]);
    } else if es.last().0 <= x.0 {
        assert(es.last() == es[es.len() - 1]);
        assert(es.insert(j, x) =~= es.push(x));
    } else {
        assert(es.last() == es[es.len() - 1]);
        let d = es.drop_last();
        assert forall|i: int| j <= i < d.len() implies (#[trigger] d[i]).0 > x.0 by {
            assert(d[i] == es[i]);
        }
        lemma_insert_edit(d, x, j);
        assert(d.insert(j, x).push(es.last()) =~= es.insert(j, x));
    }
}

/// The edits stably sorted by start.
pub fn sort_link_edits(edits: &Vec<LinkEdit>) -> (r: Vec<LinkEdit>)
    ensures
        edit_views(r@) == sort_edits(edit_views(edits@)),
{
    let ghost ev = edit_views(edits@);
    let mut out: Vec<LinkEdit> = Vec::new();
    let mut k: usize = 0;
    assert(ev.take(0) =~= Seq::<(int, int, Seq<char>)>::empty());
    assert(edit_views(out@) =~= Seq::<(int, int, Seq<char>)>::empty());
    while k < edits.len()
        invariant
            k <= edits@.len(),
            ev == edit_views(edits@),
            edit_views(out@) == sort_edits(ev.take(k as int)),
        decreases edits.len() - k,
    {
        let e = &edits[k];
        let x = LinkEdit { start: e.start, end: e.end, text: e.text.clone() };
        assert(x@ == ev[k as int]);
        let ghost ov = edit_views(out@);
        let mut j = out.len();
        while j > 0 && out[j - 1].start > x.start
            invariant
                j <= out@.len(),
                ov == edit_views(out@),
                forall|i: int| j <= i < ov.len() ==> (#[trigger] ov[i]).0 > x.start,
            decreases j,
        {
            j = j - 1;
        }
        proof {
            lemma_insert_edit(ov, x@, j as int);
        }
        let ghost xv = x@;
        out.insert(j, x);
        assert(edit_views(out@) =~= ov.insert(j as int, xv));
        assert(ev.take(k + 1).drop_last() =~= ev.take(k as int));
        assert(ev.take(k + 1).last() == ev[k as int]);
        k = k + 1;
    }
    assert(ev.take(edits@.len() as int) =~= ev);
    out
}

/// `t` with the characters `start..end` replaced by `text`.
fn splice_chars(t: &Vec<char>, start: usize, end: usize, text: &String) -> (r: Vec<char>)
    requires
        start <= end <= t@.len(),
    ensures
        r@ == splice(t@, (start as int, end as int, text@)),
{
    let n = t.len();
    let mut r: Vec<char> = Vec::new();
    let mut i: usize = 0;
    while i < start
        invariant
            start <= end <= n == t@.len(),
            i <= start,
            r@ == t@.take(i as int),
        decreases start - i,
    {
        r.push(t[i]);
        i = i + 1;
        assert(r@ =~= t@.take(i as int));
    }
    let tc = chars_of(text.as_str());
    let ghost mid = r@;
    let mut j: usize = 0;
    while j < tc.len()
        invariant
            j <= tc@.len(),
            r@ == mid + tc@.take(j as int),
        decreases tc.len() - j,
    {
        r.push(tc[j]);
        j = j + 1;
        assert(r@ =~= mid + tc@.take(j as int));
    }
    assert(tc@.take(tc@.len() as int) =~= tc@);
    let ghost tail_start = r@;
    let mut m = end;
    while m < n
        invariant
            end <= m <= n == t@.len(),
            r@ == tail_start + t@.subrange(end as int, m as int),
        decreases n - m,
    {
        r.push(t[m]);
        m = m + 1;
        assert(r@ =~= tail_start + t@.subrange(end as int, m as int));
    }
    assert(t@.subrange(end as int, n as int) =~= t@.skip(end as int));
    r
}

/// The edits applied to `t` from the last to the first; `None` where a range
/// does not lie within the text that the later edits left.
pub fn apply_link_edits(t: &Vec<char>, edits: &Vec<LinkEdit>) -> (r: Option<Vec<char>>)
    ensures
        match r {
            Some(v) => apply_edits(t@, edit_views(edits@)) == Some(v@),
            None => apply_edits(t@, edit_views(edits@)) is None,
        },
{
    let ghost ev = edit_views(edits@);
    let mut text: Vec<char> = Vec::new();
    let mut i: usize = 0;
    while i < t.len()
        invariant
            i <= t@.len(),
            text@ == t@.take(i as int),
        decreases t.len() - i,
    {
        text.push(t[i]);
        i = i + 1;
        assert(text@ =~= t@.take(i as int));
    }
    assert(t@.take(t@.len() as int) =~= t@);
    let mut k = edits.len();
    assert(ev.take(k as int) =~= ev);
    while k > 0
        invariant
            k <= edits@.len(),
            ev == edit_views(edits@),
            apply_edits(t@, ev) == apply_edits(text@, ev.take(k as int)),
        decreases k,
    {
        let e = &edits[k - 1];
        assert(ev.take(k as int).last() == ev[k - 1]);
        assert(ev.take(k as int).drop_last() =~= ev.take(k - 1));
        if e.start <= e.end && e.end <= text.len() {
            text = splice_chars(&text, e.start, e.end, &e.text);
        } else {
            return None;
        }
        k = k - 1;
    }
    Some(text)
}

// ---------------------------------------------------------------------------
// Rewriting one file

/// The sorted edits for the links of `content`, the text of the file
/// `original` that ends up at `final_path`.
pub open spec fn rewrite_edits(
    content: Seq<char>,
    original: Seq<char>,
    final_path: Seq<char>,
    lookup: Seq<(Seq<char>, Seq<char>)>,
) -> Result<Seq<(int, int, Seq<char>)>, MarkdownErrorView> {
    let links = markdown_links(content).0;
    if links.len() == 0 {
        Ok(Seq::empty())
    } else {
        match parent_view(path_view(final_path)) {
            None => Err(MarkdownErrorView::MissingParent { path: final_path }),
            Some(d) => match link_edits(original, final_path, render(d), lookup, links) {
                Err(e) => Err(e),
                Ok(es) => Ok(sort_edits(es)),
            },
        }
    }
}

/// What rewriting the links of `content` gives: the new text, a refusal, or
/// `Ok(None)` on the inputs on which the edits do not fit the text.
pub open spec fn rewrite_outcome(
    content: Seq<char>,
    original: Seq<char>,
    final_path: Seq<char>,
    lookup: Seq<(Seq<char>, Seq<char>)>,
) -> Result<Option<Seq<char>>, MarkdownErrorView> {
    if !links_in_bounds(content) {
        Ok(None)
    } else {
        match rewrite_edits(content, original, final_path, lookup) {
            Err(e) => Err(e),
            Ok(es) => Ok(apply_edits(content, es)),
        }
    }
}

fn edit_for_link(
    original_path: &str,
    final_path: &str,
    final_dir: &String,
    lookup: &Vec<(String, String)>,
    link: &MarkdownLinkTarget,
) -> (r: Result<Option<LinkEdit>, MarkdownError>)
    ensures
        match r {
            Ok(None) => link_edit(original_path@, final_path@, final_dir@, pair_views(lookup@), link@)
                == Ok::<Option<(int, int, Seq<char>)>, MarkdownErrorView>(None),
            Ok(Some(x)) => link_edit(
                original_path@,
                final_path@,
                final_dir@,
                pair_views(lookup@),
                link@,
            ) == Ok::<Option<(int, int, Seq<char>)>, MarkdownErrorView>(Some(x@)),
            Err(e) => link_edit(original_path@, final_path@, final_dir@, pair_views(lookup@), link@)
                == Err::<Option<(int, int, Seq<char>)>, MarkdownErrorView>(e@),
        },
{
    let target = match classify_link_target(original_path, link.href.as_str()) {
        Err(e) => return Err(e),
        Ok(None) => return Ok(None),
        Ok(Some(t)) => t,
    };
    let new_abs = match lookup_move(lookup, target.absolute_path.as_str()) {
        Some(m) => m,
        None => target.absolute_path.clone(),
    };
    if same_path(final_path, original_path) && same_path(
        new_abs.as_str(),
        target.absolute_path.as_str(),
    ) {
        return Ok(None);
    }
    let relative = match relative_link_from(final_dir, &new_abs) {
        Ok(r) => r,
        Err(e) => return Err(e),
    };
    let fragment = match &target.fragment {
        Some(f) => Some(f.as_str()),
        None => None,
    };
    let rebuilt = rebuild_href(relative.as_str(), fragment);
    if rebuilt == link.href {
        Ok(None)
    } else {
        Ok(Some(LinkEdit { start: link.href_start, end: link.href_end, text: rebuilt }))
    }
}

/// The sorted edits for the links of `content`.
fn plan_rewrite(
    t: &Vec<char>,
    original_path: &str,
    final_path: &str,
    lookup: &Vec<(String, String)>,
) -> (r: Result<Vec<LinkEdit>, MarkdownError>)
    requires
        links_in_bounds(t@),
    ensures
        match r {
            Ok(es) => rewrite_edits(t@, original_path@, final_path@, pair_views(lookup@)) == Ok::<
                Seq<(int, int, Seq<char>)>,
                MarkdownErrorView,
            >(edit_views(es@)),
            Err(e) => rewrite_edits(t@, original_path@, final_path@, pair_views(lookup@)) == Err::<
                Seq<(int, int, Seq<char>)>,
                MarkdownErrorView,
            >(e@),
        },
{
    let parsed = parse_markdown_chars(t);
    let ghost links = target_views(parsed.targets@);
    assert(links == markdown_links(t@).0);
    if parsed.targets.len() == 0 {
        let empty: Vec<LinkEdit> = Vec::new();
        assert(edit_views(empty@) =~= Seq::<(int, int, Seq<char>)>::empty());
        return Ok(empty);
    }
    let final_dir = match path_parent(final_path) {
        Some(d) => d,
        None => return Err(MarkdownError::MissingParent { path: final_path.to_owned() }),
    };
    let ghost fd = final_dir@;
    let ghost lv = pair_views(lookup@);
    let mut edits: Vec<LinkEdit> = Vec::new();
    let mut k: usize = 0;
    assert(links.take(0) =~= Seq::<TargetView>::empty());
    assert(edit_views(edits@) =~= Seq::<(int, int, Seq<char>)>::empty());
    while k < parsed.targets.len()
        invariant
            k <= parsed.targets@.len(),
            links == target_views(parsed.targets@),
            links == markdown_links(t@).0,
            links.len() > 0,
            fd == final_dir@,
            parent_view(path_view(final_path@)) is Some,
            fd == render(parent_view(path_view(final_path@)).unwrap()),
            lv == pair_views(lookup@),
            link_edits(original_path@, final_path@, fd, lv, links.take(k as int)) == Ok::<
                Seq<(int, int, Seq<char>)>,
                MarkdownErrorView,
            >(edit_views(edits@)),
        decreases parsed.targets.len() - k,
    {
        assert(links.take(k + 1).drop_last() =~= links.take(k as int));
        assert(links.take(k + 1).last() == links[k as int]);
        assert(links[k as int] == parsed.targets@[k as int]@);
        match edit_for_link(original_path, final_path, &final_dir, lookup, &parsed.targets[k]) {
            Err(e) => {
                proof {
                    lemma_link_edits_err(
                        original_path@,
                        final_path@,
                        fd,
                        lv,
                        links,
                        k + 1,
                    );
                }
                return Err(e);
            },
            Ok(None) => {},
            Ok(Some(x)) => {
                let ghost before = edit_views(edits@);
                let ghost xv = x@;
                edits.push(x);
                assert(edit_views(edits@) =~= before.push(xv));
            },
        }
        k = k + 1;
    }
    assert(links.take(parsed.targets@.len() as int) =~= links);
    Ok(sort_link_edits(&edits))
}

proof fn lemma_link_edits_err(
    original: Seq<char>,
    final_path: Seq<char>,
    final_dir: Seq<char>,
    lookup: Seq<(Seq<char>, Seq<char>)>,
    links: Seq<TargetView>,
    k: int,
)
    requires
        0 <= k <= links.len(),
        link_edits(original, final_path, final_dir, lookup, links.take(k)) is Err,
    ensures
        link_edits(original, final_path, final_dir, lookup, links) == link_edits(
            original,
            final_path,
            final_dir,
            lookup,
            links.take(k),
        ),
    decreases links.len() - k,
{
    if k < links.len() {
        assert(links.take(k + 1).drop_last() =~= links.take(k));
        lemma_link_edits_err(original, final_path, final_dir, lookup, links, k + 1);
    } else {
        assert(links.take(k) =~= links);
    }
}

/// What rewriting the links of `content` gives, with `Ok(None)` where the
/// edits do not fit the text.
fn rewrite_core(
    content: &str,
    original_path: &str,
    final_path: &str,
    move_lookup: &Vec<(String, String)>,
) -> (r: Result<Option<String>, MarkdownError>)
    ensures
        match r {
            Ok(o) => rewrite_outcome(content@, original_path@, final_path@, pair_views(move_lookup@))
                == Ok::<Option<Seq<char>>, MarkdownErrorView>(opt_view(o)),
            Err(e) => rewrite_outcome(
                content@,
                original_path@,
                final_path@,
                pair_views(move_lookup@),
            ) == Err::<Option<Seq<char>>, MarkdownErrorView>(e@),
        },
{
    if !markdown_links_in_bounds(content) {
        return Ok(None);
    }
    let t = chars_of(content);
    let edits = match plan_rewrite(&t, original_path, final_path, move_lookup) {
        Ok(es) => es,
        Err(e) => return Err(e),
    };
    match apply_link_edits(&t, &edits) {
        None => Ok(None),
        Some(v) => {
            let mut s = String::new();
            let mut i: usize = 0;
            while i < v.len()
                invariant
                    i <= v@.len(),
                    s@ == v@.take(i as int),
                decreases v.len() - i,
            {
                push_char(&mut s, v[i]);
                i = i + 1;
                assert(s@ =~= v@.take(i as int));
            }
            assert(v@.take(v@.len() as int) =~= v@);
            Ok(Some(s))
        },
    }
}

/// Rewrites the links of `content`, the text of the file `original_path`,
/// for a move after which that file is at `final_path` and each source of
/// `move_lookup` is at its target.
pub fn rewrite_markdown_links(
    content: &str,
    original_path: &str,
    final_path: &str,
    move_lookup: &Vec<(String, String)>,
) -> (r: Result<String, MarkdownError>)
    requires
        rewrite_outcome(content@, original_path@, final_path@, pair_views(move_lookup@)) != Ok::<
            Option<Seq<char>>,
            MarkdownErrorView,
        >(None),
    ensures
        match r {
            Ok(s) => rewrite_outcome(content@, original_path@, final_path@, pair_views(move_lookup@))
                == Ok::<Option<Seq<char>>, MarkdownErrorView>(Some(s@)),
            Err(e) => rewrite_outcome(
                content@,
                original_path@,
                final_path@,
                pair_views(move_lookup@),
            ) == Err::<Option<Seq<char>>, MarkdownErrorView>(e@),
        },
{
    match rewrite_core(content, original_path, final_path, move_lookup) {
        Ok(Some(s)) => Ok(s),
        Ok(None) => {
            proof {
                assert(false);
            }
            Ok(String::new())
        },
        Err(e) => Err(e),
    }
}

/// `rewrite_markdown_links` on every input: `Ok(None)` where its edits do not
/// fit the text.
pub fn try_rewrite_markdown_links(
    content: &str,
    original_path: &str,
    final_path: &str,
    move_lookup: &Vec<(String, String)>,
) -> (r: Result<Option<String>, MarkdownError>)
    ensures
        match r {
            Ok(o) => rewrite_outcome(content@, original_path@, final_path@, pair_views(move_lookup@))
                == Ok::<Option<Seq<char>>, MarkdownErrorView>(opt_view(o)),
            Err(e) => rewrite_outcome(
                content@,
                original_path@,
                final_path@,
                pair_views(move_lookup@),
            ) == Err::<Option<Seq<char>>, MarkdownErrorView>(e@),
        },
{
    match rewrite_core(content, original_path, final_path, move_lookup) {
        Ok(Some(_)) => match rewrite_markdown_links(content, original_path, final_path, move_lookup) {
            Ok(s) => Ok(Some(s)),
            Err(e) => Err(e),
        },
        Ok(None) => Ok(None),
        Err(e) => Err(e),
    }
}

// ---------------------------------------------------------------------------
// Rewriting every file

/// The files to write after the moves `moves`, given the Markdown files and
/// their texts: each file whose text changes or that moves, at its final
/// place with its new text; a refusal; or `Ok(None)` where some file's edits
/// do not fit its text.
pub open spec fn plan_outcome(
    moves: Seq<(Seq<char>, Seq<char>)>,
    files: Seq<(Seq<char>, Seq<char>)>,
) -> Result<Option<Seq<(Seq<char>, Seq<char>)>>, MarkdownErrorView>
    decreases files.len(),
{
    if files.len() == 0 {
        Ok(Some(Seq::empty()))
    } else {
        match plan_outcome(moves, files.drop_last()) {
            Err(e) => Err(e),
            Ok(None) => Ok(None),
            Ok(Some(plan)) => {
                let original = files.last().0;
                let content = files.last().1;
                let final_path = lookup_path(moves, original);
                match rewrite_outcome(content, original, final_path, moves) {
                    Err(e) => Err(e),
                    Ok(None) => Ok(None),
                    Ok(Some(updated)) => if updated != content || path_view(final_path)
                        != path_view(original) {
                        Ok(Some(plan.push((final_path, updated))))
                    } else {
                        Ok(Some(plan))
                    },
                }
            },
        }
    }
}

proof fn lemma_plan_stops(
    moves: Seq<(Seq<char>, Seq<char>)>,
    files: Seq<(Seq<char>, Seq<char>)>,
    k: int,
)
    requires
        0 <= k <= files.len(),
        !(plan_outcome(moves, files.take(k)) is Ok && plan_outcome(moves, files.take(k))->Ok_0 is Some),
    ensures
        plan_outcome(moves, files) == plan_outcome(moves, files.take(k)),
    decreases files.len() - k,
{
    if k < files.len() {
        assert(files.take(k + 1).drop_last() =~= files.take(k));
        lemma_plan_stops(moves, files, k + 1);
    } else {
        assert(files.take(k) =~= files);
    }
}

/// The source and target of each move, as pairs.
fn move_pairs(resolved_moves: &Vec<ResolvedMove>) -> (r: Vec<(String, String)>)
    ensures
        pair_views(r@) == move_views(resolved_moves@),
{
    let mut r: Vec<(String, String)> = Vec::new();
    let mut k: usize = 0;
    while k < resolved_moves.len()
        invariant
            k <= resolved_moves@.len(),
            pair_views(r@) == move_views(resolved_moves@).take(k as int),
        decreases resolved_moves.len() - k,
    {
        let m = &resolved_moves[k];
        let ghost rb = r@;
        let pair = (m.source_abs.clone(), m.target_abs.clone());
        let ghost pv = (pair.0@, pair.1@);
        r.push(pair);
        assert(pair_views(r@) =~= pair_views(rb).push(pv));
        assert(move_views(resolved_moves@).take(k + 1) =~= move_views(resolved_moves@).take(
            k as int,
        ).push(pv));
        k = k + 1;
    }
    assert(move_views(resolved_moves@).take(resolved_moves@.len() as int) =~= move_views(
        resolved_moves@,
    ));
    r
}

fn plan_core(resolved_moves: &Vec<ResolvedMove>, file_contents: &Vec<(String, String)>) -> (r: Result<
    Option<Vec<(String, String)>>,
    MarkdownError,
>)
    ensures
        match r {
            Ok(None) => plan_outcome(move_views(resolved_moves@), pair_views(file_contents@))
                == Ok::<Option<Seq<(Seq<char>, Seq<char>)>>, MarkdownErrorView>(None),
            Ok(Some(p)) => plan_outcome(move_views(resolved_moves@), pair_views(file_contents@))
                == Ok::<Option<Seq<(Seq<char>, Seq<char>)>>, MarkdownErrorView>(Some(pair_views(p@))),
            Err(e) => plan_outcome(move_views(resolved_moves@), pair_views(file_contents@)) == Err::<
                Option<Seq<(Seq<char>, Seq<char>)>>,
                MarkdownErrorView,
            >(e@),
        },
{
    let lookup = move_pairs(resolved_moves);
    let ghost mv = move_views(resolved_moves@);
    let ghost fv = pair_views(file_contents@);
    let mut plan: Vec<(String, String)> = Vec::new();
    let mut k: usize = 0;
    assert(fv.take(0) =~= Seq::<(Seq<char>, Seq<char>)>::empty());
    assert(pair_views(plan@) =~= Seq::<(Seq<char>, Seq<char>)>::empty());
    while k < file_contents.len()
        invariant
            k <= file_contents@.len(),
            mv == move_views(resolved_moves@),
            fv == pair_views(file_contents@),
            pair_views(lookup@) == mv,
            plan_outcome(mv, fv.take(k as int)) == Ok::<
                Option<Seq<(Seq<char>, Seq<char>)>>,
                MarkdownErrorView,
            >(Some(pair_views(plan@))),
        decreases file_contents.len() - k,
    {
        assert(fv.take(k + 1).drop_last() =~= fv.take(k as int));
        assert(fv.take(k + 1).last() == fv[k as int]);
        let original = &file_contents[k].0;
        let content = &file_contents[k].1;
        let final_path = match lookup_move(&lookup, original.as_str()) {
            Some(m) => m,
            None => original.clone(),
        };
        match try_rewrite_markdown_links(content.as_str(), original.as_str(), final_path.as_str(), &lookup) {
            Err(e) => {
                proof {
                    lemma_plan_stops(mv, fv, k + 1);
                }
                return Err(e);
            },
            Ok(None) => {
                proof {
                    lemma_plan_stops(mv, fv, k + 1);
                }
                return Ok(None);
            },
            Ok(Some(updated)) => {
                if updated != *content || !same_path(final_path.as_str(), original.as_str()) {
                    let ghost before = pair_views(plan@);
                    let ghost entry = (final_path@, updated@);
                    plan.push((final_path, updated));
                    assert(pair_views(plan@) =~= before.push(entry));
                }
            },
        }
        k = k + 1;
    }
    assert(fv.take(file_contents@.len() as int) =~= fv);
    Ok(Some(plan))
}

/// The files to write after the moves: each Markdown file whose text changes
/// or that moves, at its final place with its new text.
pub fn build_rewrite_plan(resolved_moves: &Vec<ResolvedMove>, file_contents: &Vec<(String, String)>) -> (r: Result<
    Vec<(String, String)>,
    MarkdownError,
>)
    requires
        plan_outcome(move_views(resolved_moves@), pair_views(file_contents@)) != Ok::<
            Option<Seq<(Seq<char>, Seq<char>)>>,
            MarkdownErrorView,
        >(None),
    ensures
        match r {
            Ok(p) => plan_outcome(move_views(resolved_moves@), pair_views(file_contents@)) == Ok::<
                Option<Seq<(Seq<char>, Seq<char>)>>,
                MarkdownErrorView,
            >(Some(pair_views(p@))),
            Err(e) => plan_outcome(move_views(resolved_moves@), pair_views(file_contents@)) == Err::<
                Option<Seq<(Seq<char>, Seq<char>)>>,
                MarkdownErrorView,
            >(e@),
        },
{
    match plan_core(resolved_moves, file_contents) {
        Ok(Some(p)) => Ok(p),
        Ok(None) => {
            proof {
                assert(false);
            }
            Ok(Vec::new())
        },
        Err(e) => Err(e),
    }
}

/// `build_rewrite_plan` on every input: `Ok(None)` where some file's edits do
/// not fit its text.
pub fn try_build_rewrite_plan(
    resolved_moves: &Vec<ResolvedMove>,
    file_contents: &Vec<(String, String)>,
) -> (r: Result<Option<Vec<(String, String)>>, MarkdownError>)
    ensures
        match r {
            Ok(None) => plan_outcome(move_views(resolved_moves@), pair_views(file_contents@))
                == Ok::<Option<Seq<(Seq<char>, Seq<char>)>>, MarkdownErrorView>(None),
            Ok(Some(p)) => plan_outcome(move_views(resolved_moves@), pair_views(file_contents@))
                == Ok::<Option<Seq<(Seq<char>, Seq<char>)>>, MarkdownErrorView>(Some(pair_views(p@))),
            Err(e) => plan_outcome(move_views(resolved_moves@), pair_views(file_contents@)) == Err::<
                Option<Seq<(Seq<char>, Seq<char>)>>,
                MarkdownErrorView,
            >(e@),
        },
{
    match plan_core(resolved_moves, file_contents) {
        Ok(Some(_)) => match build_rewrite_plan(resolved_moves, file_contents) {
            Ok(p) => Ok(Some(p)),
            Err(e) => Err(e),
        },
        Ok(None) => Ok(None),
        Err(e) => Err(e),
    }
}

// ---------------------------------------------------------------------------
// Laws

/// Only links into the project are rewritten: each edit of a file covers
/// the destination of one of its links, and that link is neither a URI, nor
/// a rooted path, nor an anchor in the same file.
pub proof fn lemma_only_local_links_edited(
    original: Seq<char>,
    final_path: Seq<char>,
    final_dir: Seq<char>,
    lookup: Seq<(Seq<char>, Seq<char>)>,
    links: Seq<TargetView>,
    i: int,
)
    requires
        link_edits(original, final_path, final_dir, lookup, links) is Ok,
        0 <= i < link_edits(original, final_path, final_dir, lookup, links)->Ok_0.len(),
    ensures
        exists|k: int|
            0 <= k < links.len() && (#[trigger] links[k]).start == link_edits(
                original,
                final_path,
                final_dir,
                lookup,
                links,
            )->Ok_0[i].0 && links[k].end == link_edits(
                original,
                final_path,
                final_dir,
                lookup,
                links,
            )->Ok_0[i].1 && !is_external(links[k].href),
    decreases links.len(),
{
    let es = link_edits(original, final_path, final_dir, lookup, links)->Ok_0;
    let d = links.drop_last();
    let rest = link_edits(original, final_path, final_dir, lookup, d)->Ok_0;
    let k = links.len() - 1;
    if i < rest.len() {
        lemma_only_local_links_edited(original, final_path, final_dir, lookup, d, i);
        let j = choose|j: int|
            0 <= j < d.len() && (#[trigger] d[j]).start == rest[i].0 && d[j].end == rest[i].1
                && !is_external(d[j].href);
        assert(links[j] == d[j]);
        assert(es[i] == rest[i]);
    } else {
        assert(links[k] == links.last());
        assert(!is_external(links[k].href));
    }
}

/// A file that stays where it is, in a move of nothing, keeps its text.
pub proof fn lemma_rewrite_without_moves(content: Seq<char>, original: Seq<char>, final_path: Seq<char>)
    requires
        links_in_bounds(content),
        path_view(final_path) == path_view(original),
        parent_view(path_view(original)) is Some,
    ensures
        rewrite_outcome(content, original, final_path, Seq::empty()) == Ok::<
            Option<Seq<char>>,
            MarkdownErrorView,
        >(Some(content)),
{
    lemma_rewrite_keeps_unrelated_file(content, original, final_path, Seq::empty());
}

/// Whether no link among `links` of the file `original` names a file that
/// `lookup` moves.
pub open spec fn names_no_moved_file(
    original: Seq<char>,
    lookup: Seq<(Seq<char>, Seq<char>)>,
    links: Seq<TargetView>,
) -> bool {
    forall|k: int|
        0 <= k < links.len() ==> match #[trigger] classify_href(original, links[k].href) {
            Ok(Some((abs, _))) => lookup_entry(lookup, abs) is None,
            _ => true,
        }
}

proof fn lemma_link_edits_unmoved(
    original: Seq<char>,
    final_path: Seq<char>,
    final_dir: Seq<char>,
    lookup: Seq<(Seq<char>, Seq<char>)>,
    links: Seq<TargetView>,
)
    requires
        path_view(final_path) == path_view(original),
        parent_view(path_view(original)) is Some,
        names_no_moved_file(original, lookup, links),
    ensures
        link_edits(original, final_path, final_dir, lookup, links) == Ok::<
            Seq<(int, int, Seq<char>)>,
            MarkdownErrorView,
        >(Seq::empty()),
    decreases links.len(),
{
    if links.len() > 0 {
        let d = links.drop_last();
        assert forall|k: int| 0 <= k < d.len() implies match #[trigger] classify_href(original, d[k].href) {
            Ok(Some((abs, _))) => lookup_entry(lookup, abs) is None,
            _ => true,
        } by {
            assert(d[k] == links[k]);
        }
        lemma_link_edits_unmoved(original, final_path, final_dir, lookup, d);
        assert(links.last() == links[links.len() - 1]);
    }
}

/// A file that stays where it is keeps its text when none of its links
/// names a file that moves, whatever else moves.
pub proof fn lemma_rewrite_keeps_unrelated_file(
    content: Seq<char>,
    original: Seq<char>,
    final_path: Seq<char>,
    lookup: Seq<(Seq<char>, Seq<char>)>,
)
    requires
        links_in_bounds(content),
        path_view(final_path) == path_view(original),
        parent_view(path_view(original)) is Some,
        names_no_moved_file(original, lookup, markdown_links(content).0),
    ensures
        rewrite_outcome(content, original, final_path, lookup) == Ok::<Option<Seq<char>>, MarkdownErrorView>(
            Some(content),
        ),
{
    let links = markdown_links(content).0;
    if links.len() > 0 {
        let d = parent_view(path_view(final_path)).unwrap();
        lemma_link_edits_unmoved(original, final_path, render(d), lookup, links);
    }
}

/// The fragment that a rebuilt link keeps: a non-empty one.
pub open spec fn kept_fragment(f: Option<Seq<char>>) -> Option<Seq<char>> {
    match f {
        Some(s) => if s.len() > 0 {
            Some(s)
        } else {
            None
        },
        None => None,
    }
}

/// A path none of whose components is `..` or holds `#` or a backslash.
pub open spec fn clean_path(p: Seq<char>) -> bool {
    forall|k: int|
        0 <= k < path_view(p).parts.len() ==> {
            let c = #[trigger] path_view(p).parts[k];
            c != seq!['.', '.'] && !c.contains('#') && !c.contains('\\')
        }
}

/// The directory of `p`, rendered.
pub open spec fn dir_of(p: Seq<char>) -> Seq<char> {
    render(parent_view(path_view(p)).unwrap())
}

proof fn lemma_dots_avoid(c: char)
    requires
        c != '.',
    ensures
        !seq!['.', '.'].contains(c),
{
    let d = seq!['.', '.'];
    if d.contains(c) {
        let i = choose|i: int| 0 <= i < d.len() && d[i] == c;
        assert(d[i] == '.');
    }
}

proof fn lemma_first_index_at(s: Seq<char>, c: char, m: int)
    requires
        0 <= m <= s.len(),
        forall|i: int| 0 <= i < m ==> #[trigger] s[i] != c,
        m < s.len() ==> s[m] == c,
    ensures
        first_index(s, c, 0) == m,
{
    lemma_first_index(s, c, 0);
    let f = first_index(s, c, 0);
    if f < m {
        assert(s[f] == c);
    } else if f > m {
        assert(s[m] != c);
    }
}

proof fn lemma_common_from_all(a: Seq<Seq<char>>, i: int)
    requires
        0 <= i <= a.len(),
    ensures
        common_from(a, a, i) == a.len(),
    decreases a.len() - i,
{
    if i < a.len() {
        lemma_common_from_all(a, i + 1);
    }
}

#[verifier::rlimit(40)]
proof fn lemma_rebuilt_link_resolves(
    original: Seq<char>,
    final_path: Seq<char>,
    lookup: Seq<(Seq<char>, Seq<char>)>,
    link: TargetView,
    abs: Seq<char>,
    fragment: Option<Seq<char>>,
)
    requires
        classify_href(original, link.href) == Ok::<
            Option<(Seq<char>, Option<Seq<char>>)>,
            MarkdownErrorView,
        >(Some((abs, fragment))),
        is_abs(final_path) == is_abs(lookup_path(lookup, abs)),
        !path_view(lookup_path(lookup, abs)).cur,
        clean_path(final_path),
        parent_view(path_view(final_path)) is Some,
        clean_path(lookup_path(lookup, abs)),
        diff_paths_result(lookup_path(lookup, abs), dir_of(final_path)) == Some(
            join_parts(relative_parts(path_view(lookup_path(lookup, abs)), path_view(dir_of(final_path)))),
        ),
        path_view(lookup_path(lookup, abs)).parts != path_view(dir_of(final_path)).parts,
    ensures
        relative_link_outcome(diff_paths_result(lookup_path(lookup, abs), dir_of(final_path))) is Ok,
        classify_href(
            final_path,
            rebuilt_href(
                relative_link_outcome(diff_paths_result(lookup_path(lookup, abs), dir_of(final_path)))->Ok_0,
                fragment,
            ),
        ) == Ok::<Option<(Seq<char>, Option<Seq<char>>)>, MarkdownErrorView>(
            Some((render(path_view(lookup_path(lookup, abs))), kept_fragment(fragment))),
        ),
{
    let new_abs = lookup_path(lookup, abs);
    let tv = path_view(new_abs);
    let fp = path_view(final_path);
    let dv = parent_view(fp).unwrap();
    let fd = dir_of(final_path);
    lemma_path_view_ok(final_path);
    lemma_path_view_ok(new_abs);
    lemma_parent_ok(fp);
    lemma_view_render(dv);
    assert(path_view(fd) == dv);
    assert forall|j: int| 0 <= j < dv.parts.len() implies #[trigger] dv.parts[j] != seq!['.', '.'] by {
        assert(dv.parts[j] == fp.parts[j]);
    }
    let k = common_from(tv.parts, dv.parts, 0);
    lemma_common_from(tv.parts, dv.parts, 0);
    let m = (dv.parts.len() - k) as nat;
    let tail = tv.parts.skip(k);
    let rp = relative_parts(tv, dv);
    assert(rp == ups(m) + tail);
    lemma_dots_avoid('#');
    lemma_dots_avoid('\\');
    assert forall|j: int| 0 <= j < rp.len() implies part_ok(#[trigger] rp[j]) && !rp[j].contains('#')
        && !rp[j].contains('\\') by {
        if j < m {
            assert(rp[j] == seq!['.', '.']);
            lemma_dots_avoid('/');
        } else {
            assert(rp[j] == tv.parts[k + j - m]);
        }
    }
    assert forall|j: int| 0 <= j < tail.len() implies #[trigger] tail[j] != seq!['.', '.'] by {
        assert(tail[j] == tv.parts[k + j]);
    }
    let d = join_parts(rp);
    lemma_join_parts_avoids(rp, '#');
    lemma_join_parts_avoids(rp, '\\');
    assert(forward_slashes(d) =~= d);
    // The link that the rewrite wrote.
    assert(diff_paths_result(new_abs, fd) == Some(d));
    assert(rp.len() > 0) by {
        if rp.len() == 0 {
            assert(m == 0 && tail.len() == 0);
            assert(tv.parts =~= dv.parts);
        }
    }
    crate::paths::lemma_join_parts_nonempty(rp);
    assert(d.len() > 0);
    let l = link_text(d);
    assert(relative_link_outcome(diff_paths_result(new_abs, fd)) == Ok::<Seq<char>, ()>(l));
    let rebuilt = rebuilt_href(l, fragment);
    // How the written link reads.
    let pl = if starts_with(d, seq!['.', '/']) || starts_with(d, seq!['.', '.', '/']) {
        let v = PathView { abs: false, cur: false, parts: rp };
        lemma_view_render(v);
        assert(render(v) == d);
        assert(d.subrange(0, 1)[0] == d[0]);
        v
    } else {
        let v = PathView { abs: false, cur: true, parts: rp };
        lemma_view_render(v);
        assert(render(v) == l);
        v
    };
    assert(path_view(l) == pl);
    assert(l.len() > 0 && l[0] == '.');
    assert forall|i: int| 0 <= i < l.len() implies #[trigger] l[i] != '#' by {
        if l != d {
            assert(l =~= seq!['.', '/'] + d);
            if i >= 2 {
                assert(l[i] == d[i - 2]);
            }
        }
    }
    let kf = kept_fragment(fragment);
    match kf {
        Some(f) => {
            assert(rebuilt == l + seq!['#'] + f);
            assert forall|i: int| 0 <= i < l.len() implies #[trigger] rebuilt[i] != '#' by {
                assert(rebuilt[i] == l[i]);
            }
            assert(rebuilt[l.len() as int] == '#');
            lemma_first_index_at(rebuilt, '#', l.len() as int);
            assert(rebuilt.take(l.len() as int) =~= l);
            assert(rebuilt.skip(l.len() as int + 1) =~= f);
        },
        None => {
            assert(rebuilt == l);
            lemma_first_index_at(rebuilt, '#', l.len() as int);
        },
    }
    assert(split_href(rebuilt) == (l, kf));
    // It stays within the project.
    assert(rebuilt[0] == '.');
    let n = rebuilt.len() as int;
    assert(!is_unicode_ws('.'));
    lemma_back_unicode_ws(rebuilt, 0, n);
    let tb = trim_bounds(rebuilt, 0, n);
    assert(tb.0 == 0);
    assert(tb.1 > 0) by {
        if tb.1 == 0 {
            assert(is_unicode_ws(rebuilt[0]));
        }
    }
    let t = trim(rebuilt);
    assert(t[0] == rebuilt[0]);
    assert(!is_ascii_alpha(t[0]));
    assert(!has_scheme(t));
    assert(!is_external(rebuilt));
    // Where it leads.
    let joined = join_view(dv, pl);
    assert(joined.abs == tv.abs && joined.parts == dv.parts + rp);
    assert(dv.parts + rp =~= (dv.parts + ups(m)) + tail);
    lemma_norm_fold_append(dv.parts + ups(m), tail);
    lemma_norm_fold_ups(dv.parts, m);
    assert(dv.parts.take(dv.parts.len() - m) =~= tv.parts.take(k));
    assert(tv.parts.take(k) + tail =~= tv.parts);
    assert(norm_fold(dv.parts + rp) == tv.parts);
    assert(normalize_view(joined) == tv);
}


/// A link that the rewrite changes leads, from the new place of its file, to
/// the new place of the file it named, and keeps its non-empty fragment. This
/// holds where both places are absolute paths, or both relative ones without
/// a leading `.` for the file named, whose components hold no `..`, `#` or
/// backslash, and `pathdiff` walks up to the common directory and down
/// again.
pub proof fn lemma_rewritten_link_resolves(
    original: Seq<char>,
    final_path: Seq<char>,
    lookup: Seq<(Seq<char>, Seq<char>)>,
    link: TargetView,
    abs: Seq<char>,
    fragment: Option<Seq<char>>,
    x: (int, int, Seq<char>),
)
    requires
        classify_href(original, link.href) == Ok::<
            Option<(Seq<char>, Option<Seq<char>>)>,
            MarkdownErrorView,
        >(Some((abs, fragment))),
        is_abs(final_path) == is_abs(lookup_path(lookup, abs)),
        !path_view(lookup_path(lookup, abs)).cur,
        clean_path(final_path),
        parent_view(path_view(final_path)) is Some,
        clean_path(lookup_path(lookup, abs)),
        diff_paths_result(lookup_path(lookup, abs), dir_of(final_path)) == Some(
            join_parts(relative_parts(path_view(lookup_path(lookup, abs)), path_view(dir_of(final_path)))),
        ),
        link_edit(original, final_path, dir_of(final_path), lookup, link) == Ok::<
            Option<(int, int, Seq<char>)>,
            MarkdownErrorView,
        >(Some(x)),
    ensures
        x.0 == link.start,
        x.1 == link.end,
        classify_href(final_path, x.2) == Ok::<
            Option<(Seq<char>, Option<Seq<char>>)>,
            MarkdownErrorView,
        >(Some((render(path_view(lookup_path(lookup, abs))), kept_fragment(fragment)))),
{
    let new_abs = lookup_path(lookup, abs);
    let fd = dir_of(final_path);
    if path_view(new_abs).parts == path_view(fd).parts {
        let rp = relative_parts(path_view(new_abs), path_view(fd));
        let k = common_from(path_view(new_abs).parts, path_view(fd).parts, 0);
        lemma_common_from(path_view(new_abs).parts, path_view(fd).parts, 0);
        assert(k == path_view(fd).parts.len()) by {
            lemma_common_from_all(path_view(fd).parts, 0);
        }
        assert(rp =~= Seq::<Seq<char>>::empty());
        assert(join_parts(rp) == Seq::<char>::empty());
        assert(false);
    }
    lemma_rebuilt_link_resolves(original, final_path, lookup, link, abs, fragment);
}

/// After the rewrite, every link of a file into the project leads from the
/// new place of the file to the new place of the file that it named, and
/// keeps its non-empty fragment: a link that the rewrite changes, and one
/// that it leaves as it is. This holds where both places are absolute paths,
/// or both relative ones without a leading `.` for the file named, whose
/// components hold no `..`, `#` or backslash, the file that the link names
/// is not the directory of the linking file, and `pathdiff` walks up to the
/// common directory and down again.
pub proof fn lemma_every_link_leads_to_new_place(
    original: Seq<char>,
    final_path: Seq<char>,
    lookup: Seq<(Seq<char>, Seq<char>)>,
    link: TargetView,
    abs: Seq<char>,
    fragment: Option<Seq<char>>,
)
    requires
        classify_href(original, link.href) == Ok::<
            Option<(Seq<char>, Option<Seq<char>>)>,
            MarkdownErrorView,
        >(Some((abs, fragment))),
        is_abs(final_path) == is_abs(lookup_path(lookup, abs)),
        !path_view(lookup_path(lookup, abs)).cur,
        clean_path(final_path),
        parent_view(path_view(final_path)) is Some,
        clean_path(lookup_path(lookup, abs)),
        diff_paths_result(lookup_path(lookup, abs), dir_of(final_path)) == Some(
            join_parts(relative_parts(path_view(lookup_path(lookup, abs)), path_view(dir_of(final_path)))),
        ),
        path_view(lookup_path(lookup, abs)).parts != path_view(dir_of(final_path)).parts,
    ensures
        link_edit(original, final_path, dir_of(final_path), lookup, link) is Ok,
        ({
            let new_href = match link_edit(original, final_path, dir_of(final_path), lookup, link) {
                Ok(Some(x)) => x.2,
                _ => link.href,
            };
            classify_href(final_path, new_href) matches Ok(Some((a, f))) && path_view(a) == path_view(
                lookup_path(lookup, abs),
            ) && kept_fragment(f) == kept_fragment(fragment)
        }),
{
    let new_abs = lookup_path(lookup, abs);
    lemma_path_view_ok(new_abs);
    lemma_view_render(path_view(new_abs));
    if path_view(final_path) == path_view(original) && path_view(new_abs) == path_view(abs) {
        assert(classify_href(final_path, link.href) == classify_href(original, link.href));
    } else {
        lemma_rebuilt_link_resolves(original, final_path, lookup, link, abs, fragment);
        match kept_fragment(fragment) {
            Some(f) => {},
            None => {},
        }
    }
}
} // verus!
