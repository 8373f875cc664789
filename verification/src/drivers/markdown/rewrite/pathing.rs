//! Paths of the Markdown move: resolving the requested moves, the workspace
//! root, normalised paths and relative link text.

use vstd::prelude::*;
use crate::paths::{
    PathParts, PathView, is_abs, join_parts, join_path, join_view, lemma_path_view_ok,
    lemma_string_views_push, lemma_view_render, opt_view, parent_view, parse_path, part_ok, path_extension_view,
    path_is_absolute, path_parent, path_view, render, render_path, same_path, string_views,
    view_ok, has_extension,
};
use crate::text::{chars_of, push_char};
use super::super::{MarkdownError, MarkdownErrorView};

verus! {

// ---------------------------------------------------------------------------
// Normalisation

/// One step of lexical normalisation: `..` drops the last component (if any),
/// any other component is appended.
pub open spec fn norm_step(acc: Seq<Seq<char>>, p: Seq<char>) -> Seq<Seq<char>> {
    if p == seq!['.', '.'] {
        if acc.len() > 0 {
            acc.drop_last()
        } else {
            acc
        }
    } else {
        acc.push(p)
    }
}

pub open spec fn norm_fold(ps: Seq<Seq<char>>) -> Seq<Seq<char>>
    decreases ps.len(),
{
    if ps.len() == 0 {
        Seq::empty()
    } else {
        norm_step(norm_fold(ps.drop_last()), ps.last())
    }
}

/// The lexical normal form of a path: `.` components dropped, each `..`
/// cancelling the component before it (and vanishing at the start).
pub open spec fn normalize_view(v: PathView) -> PathView {
    PathView { abs: v.abs, cur: false, parts: norm_fold(v.parts) }
}

pub open spec fn normalized(s: Seq<char>) -> Seq<char> {
    render(normalize_view(path_view(s)))
}

pub proof fn lemma_norm_fold_ok(ps: Seq<Seq<char>>)
    requires
        forall|k: int| 0 <= k < ps.len() ==> part_ok(#[trigger] ps[k]),
    ensures
        forall|k: int| 0 <= k < norm_fold(ps).len() ==> part_ok(#[trigger] norm_fold(ps)[k]),
        forall|k: int| 0 <= k < norm_fold(ps).len() ==> #[trigger] norm_fold(ps)[k] != seq!['.', '.'],
    decreases ps.len(),
{
    if ps.len() > 0 {
        lemma_norm_fold_ok(ps.drop_last());
        let prev = norm_fold(ps.drop_last());
        assert(ps.last() == ps[ps.len() - 1]);
        if ps.last() == seq!['.', '.'] {
            if prev.len() > 0 {
                assert forall|k: int| 0 <= k < norm_fold(ps).len() implies part_ok(
                    #[trigger] norm_fold(ps)[k],
                ) && norm_fold(ps)[k] != seq!['.', '.'] by {
                    assert(norm_fold(ps)[k] == prev[k]);
                }
            }
        } else {
            assert forall|k: int| 0 <= k < norm_fold(ps).len() implies part_ok(
                #[trigger] norm_fold(ps)[k],
            ) && norm_fold(ps)[k] != seq!['.', '.'] by {
                if k < prev.len() {
                    assert(norm_fold(ps)[k] == prev[k]);
                }
            }
        }
    }
}

/// A normal form has nothing left to normalise.
pub proof fn lemma_norm_fold_fixed(ps: Seq<Seq<char>>)
    requires
        forall|k: int| 0 <= k < ps.len() ==> #[trigger] ps[k] != seq!['.', '.'],
    ensures
        norm_fold(ps) == ps,
    decreases ps.len(),
{
    if ps.len() > 0 {
        lemma_norm_fold_fixed(ps.drop_last());
        assert(ps.last() == ps[ps.len() - 1]);
        assert(ps.drop_last().push(ps.last()) =~= ps);
    }
}

/// `n` components `..`.
pub open spec fn ups(n: nat) -> Seq<Seq<char>> {
    Seq::new(n, |j: int| seq!['.', '.'])
}

/// Components without `..` are appended as they are.
pub proof fn lemma_norm_fold_append(a: Seq<Seq<char>>, b: Seq<Seq<char>>)
    requires
        forall|k: int| 0 <= k < b.len() ==> #[trigger] b[k] != seq!['.', '.'],
    ensures
        norm_fold(a + b) == norm_fold(a) + b,
    decreases b.len(),
{
    if b.len() == 0 {
        assert(a + b =~= a);
        assert(norm_fold(a) + b =~= norm_fold(a));
    } else {
        let d = b.drop_last();
        assert forall|k: int| 0 <= k < d.len() implies #[trigger] d[k] != seq!['.', '.'] by {
            assert(d[k] == b[k]);
        }
        lemma_norm_fold_append(a, d);
        assert((a + b).drop_last() =~= a + d);
        assert((a + b).last() == b.last());
        assert(b.last() == b[b.len() - 1]);
        assert((norm_fold(a) + d).push(b.last()) =~= norm_fold(a) + b);
    }
}

/// Each `..` after components without `..` removes the last of them.
pub proof fn lemma_norm_fold_ups(a: Seq<Seq<char>>, m: nat)
    requires
        m <= a.len(),
        forall|k: int| 0 <= k < a.len() ==> #[trigger] a[k] != seq!['.', '.'],
    ensures
        norm_fold(a + ups(m)) == a.take(a.len() - m),
    decreases m,
{
    if m == 0 {
        assert(a + ups(0) =~= a);
        lemma_norm_fold_fixed(a);
        assert(a.take(a.len() as int) =~= a);
    } else {
        let m1 = (m - 1) as nat;
        lemma_norm_fold_ups(a, m1);
        assert((a + ups(m)).drop_last() =~= a + ups(m1));
        assert((a + ups(m)).last() == seq!['.', '.']);
        assert(a.take(a.len() - m1).drop_last() =~= a.take(a.len() - m));
    }
}

/// Normalising a path twice gives what normalising it once gives.
pub proof fn lemma_normalize_idempotent(s: Seq<char>)
    ensures
        normalized(normalized(s)) == normalized(s),
{
    let v = path_view(s);
    lemma_path_view_ok(s);
    lemma_norm_fold_ok(v.parts);
    let n = normalize_view(v);
    assert(view_ok(n));
    lemma_view_render(n);
    lemma_norm_fold_fixed(n.parts);
    assert(normalize_view(path_view(normalized(s))) == n);
}

/// Lexically normalises `path`: `.` components are dropped and each `..`
/// removes the component before it.
pub fn normalize_path(path: &str) -> (r: String)
    ensures
        r@ == normalized(path@),
        path_view(r@) == normalize_view(path_view(path@)),
{
    let p = parse_path(path);
    let ghost pv = string_views(p.parts@);
    let mut parts: Vec<String> = Vec::new();
    let mut k: usize = 0;
    assert(string_views(parts@) =~= norm_fold(pv.take(0)));
    while k < p.parts.len()
        invariant
            k <= p.parts@.len(),
            pv == string_views(p.parts@),
            string_views(parts@) == norm_fold(pv.take(k as int)),
        decreases p.parts.len() - k,
    {
        assert(pv.take(k + 1).drop_last() =~= pv.take(k as int));
        assert(pv.take(k + 1).last() == pv[k as int]);
        let ghost before = string_views(parts@);
        let piece = &p.parts[k];
        if is_parent_marker(piece) {
            if parts.len() > 0 {
                let ghost pb = parts@;
                parts.pop();
                assert(string_views(parts@) =~= before.drop_last());
            }
        } else {
            parts.push(piece.clone());
            assert(string_views(parts@) =~= before.push(pv[k as int]));
        }
        k = k + 1;
    }
    assert(pv.take(p.parts@.len() as int) =~= pv);
    assert(view_ok(p@));
    assert(p@.parts == string_views(p.parts@));
    assert(p@.parts == pv);
    assert(forall|j: int| 0 <= j < pv.len() ==> part_ok(#[trigger] pv[j]));
    let q = PathParts { absolute: p.absolute, current: false, parts };
    proof {
        lemma_path_view_ok(path@);
        lemma_norm_fold_ok(pv);
        lemma_view_render(q@);
    }
    render_path(&q)
}

fn is_parent_marker(s: &String) -> (b: bool)
    ensures
        b == (s@ == seq!['.', '.']),
{
    let t = chars_of(s.as_str());
    if t.len() == 2 && t[0] == '.' && t[1] == '.' {
        assert(t@ =~= seq!['.', '.']);
        true
    } else {
        false
    }
}

// ---------------------------------------------------------------------------
// Common prefix

/// Length of the common prefix of `a` and `b` from `i` on.
pub open spec fn common_from(a: Seq<Seq<char>>, b: Seq<Seq<char>>, i: int) -> int
    decreases a.len() - i,
{
    if 0 <= i < a.len() && i < b.len() && a[i] == b[i] {
        common_from(a, b, i + 1)
    } else {
        i
    }
}

/// The longest common leading run of components of two paths.
pub open spec fn common_prefix_view(l: PathView, r: PathView) -> PathView {
    if l.abs != r.abs || l.cur != r.cur {
        PathView { abs: false, cur: false, parts: Seq::empty() }
    } else {
        PathView { abs: l.abs, cur: l.cur, parts: l.parts.take(common_from(l.parts, r.parts, 0)) }
    }
}

pub proof fn lemma_common_from(a: Seq<Seq<char>>, b: Seq<Seq<char>>, i: int)
    requires
        0 <= i <= a.len(),
        i <= b.len(),
    ensures
        i <= common_from(a, b, i) <= a.len(),
        common_from(a, b, i) <= b.len(),
        forall|k: int| i <= k < common_from(a, b, i) ==> a[k] == b[k],
    decreases a.len() - i,
{
    if i < a.len() && i < b.len() && a[i] == b[i] {
        lemma_common_from(a, b, i + 1);
    }
}

/// The directory that `left` and `right` have in common.
pub fn common_prefix_dir(left: &str, right: &str) -> (r: String)
    ensures
        r@ == render(common_prefix_view(path_view(left@), path_view(right@))),
        path_view(r@) == common_prefix_view(path_view(left@), path_view(right@)),
{
    let l = parse_path(left);
    let rp = parse_path(right);
    proof {
        lemma_path_view_ok(left@);
    }
    if l.absolute != rp.absolute || l.current != rp.current {
        let e = PathParts { absolute: false, current: false, parts: Vec::new() };
        assert(string_views(e.parts@) =~= Seq::<Seq<char>>::empty());
        proof {
            lemma_view_render(e@);
        }
        return render_path(&e);
    }
    let ghost lv = string_views(l.parts@);
    let ghost rv = string_views(rp.parts@);
    let mut k: usize = 0;
    while k < l.parts.len() && k < rp.parts.len() && l.parts[k] == rp.parts[k]
        invariant
            k <= l.parts@.len(),
            k <= rp.parts@.len(),
            lv == string_views(l.parts@),
            rv == string_views(rp.parts@),
            common_from(lv, rv, k as int) == common_from(lv, rv, 0),
        decreases l.parts.len() - k,
    {
        k = k + 1;
    }
    let mut parts: Vec<String> = Vec::new();
    let mut m: usize = 0;
    while m < k
        invariant
            m <= k <= l.parts@.len(),
            lv == string_views(l.parts@),
            string_views(parts@) == lv.take(m as int),
        decreases k - m,
    {
        let ghost before = parts@;
        let piece = l.parts[m].clone();
        assert(piece@ == lv[m as int]);
        proof {
            lemma_string_views_push(before, piece);
        }
        parts.push(piece);
        assert(string_views(parts@) =~= lv.take(m + 1));
        m = m + 1;
    }
    let q = PathParts { absolute: l.absolute, current: l.current, parts };
    proof {
        assert forall|j: int| 0 <= j < q@.parts.len() implies part_ok(#[trigger] q@.parts[j]) by {
            assert(q@.parts[j] == lv[j]);
        }
        lemma_view_render(q@);
    }
    render_path(&q)
}

// ---------------------------------------------------------------------------
// Relative links

/// The text that `pathdiff::diff_paths(path, base)` returns.
pub uninterp spec fn diff_paths_result(path: Seq<char>, base: Seq<char>) -> Option<Seq<char>>;

/// A view with no leading `.` and no `..` component.
pub open spec fn plain_view(v: PathView) -> bool {
    !v.cur && forall|k: int| 0 <= k < v.parts.len() ==> #[trigger] v.parts[k] != seq!['.', '.']
}

/// `..` once for each component of `base` below the common prefix, then the
/// components of `path` below it.
pub open spec fn relative_parts(path: PathView, base: PathView) -> Seq<Seq<char>> {
    let k = common_from(path.parts, base.parts, 0);
    ups((base.parts.len() - k) as nat) + path.parts.skip(k)
}

/// `pathdiff::diff_paths(path, base)`: the relative path that leads from the
/// directory `base` to `path`. For two paths that are both absolute or both
/// relative, with no leading `.` and no `..` component, the source walks up
/// from `base` to the common prefix and down to `path`; of other inputs this
/// contract states only that the result is the crate's.
#[verifier::external_body]
fn pathdiff_diff_paths(path: &String, base: &String) -> (r: Option<String>)
    ensures
        opt_view(r) == diff_paths_result(path@, base@),
        path_view(path@).abs == path_view(base@).abs && plain_view(path_view(path@)) && plain_view(
            path_view(base@),
        ) ==> opt_view(r) == Some(join_parts(relative_parts(path_view(path@), path_view(base@)))),
{
    pathdiff::diff_paths(std::path::Path::new(path), std::path::Path::new(base)).map(
        |p| p.to_string_lossy().into_owned(),
    )
}

/// `d` with each backslash replaced by `/`.
pub open spec fn forward_slashes(d: Seq<char>) -> Seq<char> {
    d.map_values(|c: char| if c == '\\' { '/' } else { c })
}

pub open spec fn starts_with(s: Seq<char>, p: Seq<char>) -> bool {
    p.len() <= s.len() && s.subrange(0, p.len() as int) == p
}

/// Link text for a relative path: `./` is put in front unless it already
/// starts with `./` or `../`.
pub open spec fn link_text(display: Seq<char>) -> Seq<char> {
    if starts_with(display, seq!['.', '/']) || starts_with(display, seq!['.', '.', '/']) {
        display
    } else {
        seq!['.', '/'] + display
    }
}

/// What `relative_link_from(from_dir, to_path)` gives for the relative path
/// `rel` that `pathdiff` found (or did not).
pub open spec fn relative_link_outcome(rel: Option<Seq<char>>) -> Result<Seq<char>, ()> {
    match rel {
        None => Err(()),
        Some(d) => if d.len() == 0 {
            Err(())
        } else {
            Ok(link_text(forward_slashes(d)))
        },
    }
}

/// The refusal when no link text comes of `rel`: no relative path at all, or
/// an empty one.
pub open spec fn relative_link_error(from_dir: Seq<char>, to_path: Seq<char>, rel: Option<Seq<char>>) -> MarkdownErrorView {
    match rel {
        None => MarkdownErrorView::RelativePath { from: from_dir, to: to_path },
        Some(_) => MarkdownErrorView::EmptyLink { from: from_dir, to: to_path },
    }
}

/// The link text that leads from the directory `from_dir` to `to_path`,
/// given what `pathdiff` returned for them.
pub fn relative_link_text(from_dir: &String, to_path: &String, relative: Option<String>) -> (r: Result<
    String,
    MarkdownError,
>)
    ensures
        match r {
            Ok(s) => relative_link_outcome(opt_view(relative)) == Ok::<Seq<char>, ()>(s@),
            Err(e) => relative_link_outcome(opt_view(relative)) is Err && e@ == relative_link_error(
                from_dir@,
                to_path@,
                opt_view(relative),
            ),
        },
{
    let rel = match relative {
        Some(r) => r,
        None => {
            return Err(MarkdownError::RelativePath { from: from_dir.clone(), to: to_path.clone() });
        },
    };
    let t = chars_of(rel.as_str());
    let n = t.len();
    if n == 0 {
        return Err(MarkdownError::EmptyLink { from: from_dir.clone(), to: to_path.clone() });
    }
    let mut display: Vec<char> = Vec::new();
    let mut i: usize = 0;
    while i < n
        invariant
            n == t@.len(),
            i <= n,
            display@ == forward_slashes(t@.take(i as int)),
        decreases n - i,
    {
        let c = t[i];
        display.push(if c == '\\' { '/' } else { c });
        assert(display@ =~= forward_slashes(t@.take(i + 1)));
        i = i + 1;
    }
    assert(t@.take(n as int) =~= t@);
    let ghost d = display@;
    let dot_slash = display.len() >= 2 && display[0] == '.' && display[1] == '/';
    let dot_dot_slash = display.len() >= 3 && display[0] == '.' && display[1] == '.' && display[2]
        == '/';
    assert(dot_slash == starts_with(d, seq!['.', '/'])) by {
        if display.len() >= 2 {
            assert(d.subrange(0, 2) =~= seq![d[0], d[1]]);
        }
    }
    assert(dot_dot_slash == starts_with(d, seq!['.', '.', '/'])) by {
        if display.len() >= 3 {
            assert(d.subrange(0, 3) =~= seq![d[0], d[1], d[2]]);
        }
    }
    let mut out = String::new();
    if !dot_slash && !dot_dot_slash {
        push_char(&mut out, '.');
        push_char(&mut out, '/');
    }
    let ghost prefix = out@;
    let mut j: usize = 0;
    while j < display.len()
        invariant
            j <= display@.len(),
            out@ == prefix + display@.take(j as int),
        decreases display.len() - j,
    {
        push_char(&mut out, display[j]);
        assert(out@ =~= prefix + display@.take(j + 1));
        j = j + 1;
    }
    assert(display@.take(display@.len() as int) =~= display@);
    assert(out@ =~= link_text(d));
    Ok(out)
}

/// The relative link from the directory `from_dir` to `to_path`, always
/// starting with `./` or `../`.
pub fn relative_link_from(from_dir: &String, to_path: &String) -> (r: Result<String, MarkdownError>)
    ensures
        match r {
            Ok(s) => relative_link_outcome(diff_paths_result(to_path@, from_dir@)) == Ok::<
                Seq<char>,
                (),
            >(s@),
            Err(e) => relative_link_outcome(diff_paths_result(to_path@, from_dir@)) is Err && e@
                == relative_link_error(from_dir@, to_path@, diff_paths_result(to_path@, from_dir@)),
        },
        path_view(to_path@).abs == path_view(from_dir@).abs && plain_view(path_view(to_path@))
            && plain_view(path_view(from_dir@)) ==> diff_paths_result(to_path@, from_dir@) == Some(
            join_parts(relative_parts(path_view(to_path@), path_view(from_dir@))),
        ),
{
    let relative = pathdiff_diff_paths(to_path, from_dir);
    relative_link_text(from_dir, to_path, relative)
}

// ---------------------------------------------------------------------------
// Resolving the requested moves

/// A requested move with both paths absolute and normalised.
pub struct ResolvedMove {
    pub source_abs: String,
    pub target_abs: String,
}

/// `path` made absolute against the project root (or, without one, the
/// current directory `cwd`) and normalised; `None` where it needs the current
/// directory and none is known.
pub open spec fn project_path(path: Seq<char>, root: Option<Seq<char>>, cwd: Option<Seq<char>>) -> Option<
    Seq<char>,
> {
    if is_abs(path) {
        Some(normalized(path))
    } else {
        match root {
            Some(r) => Some(normalized(render(join_view(path_view(r), path_view(path))))),
            None => match cwd {
                Some(c) => Some(normalized(render(join_view(path_view(c), path_view(path))))),
                None => None,
            },
        }
    }
}

pub open spec fn opt_str_view(o: Option<&str>) -> Option<Seq<char>> {
    match o {
        Some(s) => Some(s@),
        None => None,
    }
}

/// Resolves a path of the request against the project root or the current
/// directory `cwd`.
pub fn resolve_project_path(path: &str, root_path: Option<&str>, cwd: Option<&str>) -> (r: Result<
    String,
    MarkdownError,
>)
    ensures
        match r {
            Ok(s) => project_path(path@, opt_str_view(root_path), opt_str_view(cwd)) == Some(s@),
            Err(e) => project_path(path@, opt_str_view(root_path), opt_str_view(cwd)) is None && e@
                == MarkdownErrorView::NoCurrentDirectory,
        },
{
    if path_is_absolute(path) {
        return Ok(normalize_path(path));
    }
    let base = match root_path {
        Some(root) => root,
        None => match cwd {
            Some(c) => c,
            None => return Err(MarkdownError::NoCurrentDirectory),
        },
    };
    let joined = join_path(base, path);
    proof {
        crate::paths::lemma_joined_text_canonical(base@, path@);
    }
    Ok(normalize_path(joined.as_str()))
}

/// Why a requested move is refused, checked in this order: the source is not
/// a `.md` file name, the target is not, the source is not an existing file,
/// the target exists already, the source or the target repeats an earlier
/// one of the batch.
pub open spec fn move_refusal(
    source: Seq<char>,
    target: Seq<char>,
    source_is_file: bool,
    target_exists: bool,
    earlier: Seq<(Seq<char>, Seq<char>)>,
) -> Option<MarkdownErrorView> {
    if path_extension_view(source) != Some(seq!['m', 'd']) {
        Some(MarkdownErrorView::NotMarkdownSource { path: source })
    } else if path_extension_view(target) != Some(seq!['m', 'd']) {
        Some(MarkdownErrorView::NotMarkdownTarget { path: target })
    } else if !source_is_file {
        Some(MarkdownErrorView::SourceNotFile { path: source })
    } else if path_view(source) != path_view(target) && target_exists {
        Some(MarkdownErrorView::TargetExists { path: target })
    } else if exists|k: int|
        0 <= k < earlier.len() && path_view(#[trigger] earlier[k].0) == path_view(source) {
        Some(MarkdownErrorView::DuplicateSource { path: source })
    } else if exists|k: int|
        0 <= k < earlier.len() && path_view(#[trigger] earlier[k].1) == path_view(target) {
        Some(MarkdownErrorView::DuplicateTarget { path: target })
    } else {
        None
    }
}

pub open spec fn move_views(v: Seq<ResolvedMove>) -> Seq<(Seq<char>, Seq<char>)> {
    v.map_values(|m: ResolvedMove| (m.source_abs@, m.target_abs@))
}

pub open spec fn pair_views(v: Seq<(String, String)>) -> Seq<(Seq<char>, Seq<char>)> {
    v.map_values(|p: (String, String)| (p.0@, p.1@))
}

/// The outcome of resolving the first `n` requested moves: the resolved moves,
/// or the first refusal.
pub open spec fn resolved_moves(
    file_map: Seq<(Seq<char>, Seq<char>)>,
    root: Option<Seq<char>>,
    cwd: Option<Seq<char>>,
    source_is_file: Seq<bool>,
    target_exists: Seq<bool>,
    n: int,
) -> Result<Seq<(Seq<char>, Seq<char>)>, MarkdownErrorView>
    decreases n,
{
    if n <= 0 {
        Ok(Seq::empty())
    } else {
        match resolved_moves(file_map, root, cwd, source_is_file, target_exists, n - 1) {
            Err(e) => Err(e),
            Ok(earlier) => match (
                project_path(file_map[n - 1].0, root, cwd),
                project_path(file_map[n - 1].1, root, cwd),
            ) {
                (Some(s), Some(t)) => match move_refusal(
                    s,
                    t,
                    source_is_file[n - 1],
                    target_exists[n - 1],
                    earlier,
                ) {
                    Some(e) => Err(e),
                    None => Ok(earlier.push((s, t))),
                },
                _ => Err(MarkdownErrorView::NoCurrentDirectory),
            },
        }
    }
}

/// The resolved source and target of the `i`-th requested move, where both
/// resolve.
pub open spec fn resolved_pair(
    file_map: Seq<(Seq<char>, Seq<char>)>,
    root: Option<Seq<char>>,
    cwd: Option<Seq<char>>,
    i: int,
) -> Option<(Seq<char>, Seq<char>)> {
    match (project_path(file_map[i].0, root, cwd), project_path(file_map[i].1, root, cwd)) {
        (Some(s), Some(t)) => Some((s, t)),
        _ => None,
    }
}

/// Whether the `i`-th requested move may be made on its own: both paths
/// resolve to Markdown files, the source is a file, and the target is free
/// or the source itself.
pub open spec fn move_allowed(
    file_map: Seq<(Seq<char>, Seq<char>)>,
    root: Option<Seq<char>>,
    cwd: Option<Seq<char>>,
    source_is_file: Seq<bool>,
    target_exists: Seq<bool>,
    i: int,
) -> bool {
    match resolved_pair(file_map, root, cwd, i) {
        None => false,
        Some((s, t)) => path_extension_view(s) == Some(seq!['m', 'd']) && path_extension_view(t)
            == Some(seq!['m', 'd']) && source_is_file[i] && (path_view(s) == path_view(t)
            || !target_exists[i]),
    }
}

/// Whether the first `n` requested moves are accepted: each may be made on
/// its own, and no two share a source or a target.
pub open spec fn moves_accepted(
    file_map: Seq<(Seq<char>, Seq<char>)>,
    root: Option<Seq<char>>,
    cwd: Option<Seq<char>>,
    source_is_file: Seq<bool>,
    target_exists: Seq<bool>,
    n: int,
) -> bool {
    &&& forall|i: int|
        0 <= i < n ==> #[trigger] move_allowed(file_map, root, cwd, source_is_file, target_exists, i)
    &&& forall|i: int, j: int|
        0 <= i < j < n ==> path_view((#[trigger] resolved_pair(file_map, root, cwd, i))->Some_0.0)
            != path_view((#[trigger] resolved_pair(file_map, root, cwd, j))->Some_0.0) && path_view(
            resolved_pair(file_map, root, cwd, i)->Some_0.1,
        ) != path_view(resolved_pair(file_map, root, cwd, j)->Some_0.1)
}

/// Resolving the requested moves succeeds exactly when they are accepted:
/// each pair is Markdown, its source is a file, its target is free or its
/// source, and sources and targets are each distinct. The moves then come
/// out in the order of the request, resolved.
pub proof fn lemma_resolve_succeeds_exactly(
    file_map: Seq<(Seq<char>, Seq<char>)>,
    root: Option<Seq<char>>,
    cwd: Option<Seq<char>>,
    source_is_file: Seq<bool>,
    target_exists: Seq<bool>,
    n: int,
)
    requires
        0 <= n <= file_map.len(),
        source_is_file.len() == file_map.len(),
        target_exists.len() == file_map.len(),
    ensures
        resolved_moves(file_map, root, cwd, source_is_file, target_exists, n) is Ok <==> moves_accepted(
            file_map,
            root,
            cwd,
            source_is_file,
            target_exists,
            n,
        ),
        resolved_moves(file_map, root, cwd, source_is_file, target_exists, n) matches Ok(v) ==> v.len()
            == n && forall|i: int|
            0 <= i < n ==> Some(#[trigger] v[i]) == resolved_pair(file_map, root, cwd, i),
    decreases n,
{
    let acc = moves_accepted(file_map, root, cwd, source_is_file, target_exists, n);
    if n > 0 {
        lemma_resolve_succeeds_exactly(file_map, root, cwd, source_is_file, target_exists, n - 1);
        let prev = resolved_moves(file_map, root, cwd, source_is_file, target_exists, n - 1);
        let k = n - 1;
        if acc {
            assert forall|i: int| 0 <= i < n - 1 implies #[trigger] move_allowed(
                file_map,
                root,
                cwd,
                source_is_file,
                target_exists,
                i,
            ) by {}
            assert(moves_accepted(file_map, root, cwd, source_is_file, target_exists, n - 1));
            let earlier = prev->Ok_0;
            assert(move_allowed(file_map, root, cwd, source_is_file, target_exists, k));
            let (s, t) = resolved_pair(file_map, root, cwd, k)->Some_0;
            assert(!exists|m: int| 0 <= m < earlier.len() && path_view(#[trigger] earlier[m].0) == path_view(s)) by {
                if exists|m: int| 0 <= m < earlier.len() && path_view(#[trigger] earlier[m].0) == path_view(s) {
                    let m = choose|m: int| 0 <= m < earlier.len() && path_view(#[trigger] earlier[m].0) == path_view(s);
                    assert(Some(earlier[m]) == resolved_pair(file_map, root, cwd, m));
                    assert(resolved_pair(file_map, root, cwd, m) is Some);
                    assert(resolved_pair(file_map, root, cwd, k) is Some);
                }
            }
            assert(!exists|m: int| 0 <= m < earlier.len() && path_view(#[trigger] earlier[m].1) == path_view(t)) by {
                if exists|m: int| 0 <= m < earlier.len() && path_view(#[trigger] earlier[m].1) == path_view(t) {
                    let m = choose|m: int| 0 <= m < earlier.len() && path_view(#[trigger] earlier[m].1) == path_view(t);
                    assert(Some(earlier[m]) == resolved_pair(file_map, root, cwd, m));
                    assert(resolved_pair(file_map, root, cwd, m) is Some);
                    assert(resolved_pair(file_map, root, cwd, k) is Some);
                }
            }
            assert(move_refusal(s, t, source_is_file[k], target_exists[k], earlier) is None);
            let v = earlier.push((s, t));
            assert(resolved_moves(file_map, root, cwd, source_is_file, target_exists, n) == Ok::<
                Seq<(Seq<char>, Seq<char>)>,
                MarkdownErrorView,
            >(v));
            assert forall|i: int| 0 <= i < n implies Some(#[trigger] v[i]) == resolved_pair(
                file_map,
                root,
                cwd,
                i,
            ) by {
                if i < n - 1 {
                    assert(v[i] == earlier[i]);
                }
            }
        } else {
            if resolved_moves(file_map, root, cwd, source_is_file, target_exists, n) is Ok {
                let earlier = prev->Ok_0;
                assert(prev is Ok);
                let (s, t) = resolved_pair(file_map, root, cwd, k)->Some_0;
                assert(resolved_pair(file_map, root, cwd, k) is Some);
                assert(move_refusal(s, t, source_is_file[k], target_exists[k], earlier) is None);
                assert(move_allowed(file_map, root, cwd, source_is_file, target_exists, k));
                assert forall|i: int| 0 <= i < n implies #[trigger] move_allowed(
                    file_map,
                    root,
                    cwd,
                    source_is_file,
                    target_exists,
                    i,
                ) by {
                    if i < n - 1 {
                        assert(moves_accepted(file_map, root, cwd, source_is_file, target_exists, n - 1));
                    }
                }
                assert forall|i: int, j: int| 0 <= i < j < n implies path_view(
                    (#[trigger] resolved_pair(file_map, root, cwd, i))->Some_0.0,
                ) != path_view((#[trigger] resolved_pair(file_map, root, cwd, j))->Some_0.0) && path_view(
                    resolved_pair(file_map, root, cwd, i)->Some_0.1,
                ) != path_view(resolved_pair(file_map, root, cwd, j)->Some_0.1) by {
                    if j < n - 1 {
                        assert(moves_accepted(file_map, root, cwd, source_is_file, target_exists, n - 1));
                    } else {
                        assert(Some(earlier[i]) == resolved_pair(file_map, root, cwd, i));
                        if path_view(earlier[i].0) == path_view(s) {
                            assert(exists|m: int| 0 <= m < earlier.len() && path_view(#[trigger] earlier[m].0) == path_view(s));
                        }
                        if path_view(earlier[i].1) == path_view(t) {
                            assert(exists|m: int| 0 <= m < earlier.len() && path_view(#[trigger] earlier[m].1) == path_view(t));
                        }
                    }
                }
                assert(false);
            }
        }
    }
}

/// Resolves the requested moves. `source_is_file[k]` and `target_exists[k]`
/// report what the file system holds at the resolved paths of the `k`-th move.
pub fn resolve_moves(
    file_map: &Vec<(String, String)>,
    root_path: Option<&str>,
    cwd: Option<&str>,
    source_is_file: &Vec<bool>,
    target_exists: &Vec<bool>,
) -> (r: Result<Vec<ResolvedMove>, MarkdownError>)
    requires
        source_is_file@.len() == file_map@.len(),
        target_exists@.len() == file_map@.len(),
    ensures
        match r {
            Ok(v) => resolved_moves(
                pair_views(file_map@),
                opt_str_view(root_path),
                opt_str_view(cwd),
                source_is_file@,
                target_exists@,
                file_map@.len() as int,
            ) == Ok::<Seq<(Seq<char>, Seq<char>)>, MarkdownErrorView>(move_views(v@)),
            Err(e) => resolved_moves(
                pair_views(file_map@),
                opt_str_view(root_path),
                opt_str_view(cwd),
                source_is_file@,
                target_exists@,
                file_map@.len() as int,
            ) == Err::<Seq<(Seq<char>, Seq<char>)>, MarkdownErrorView>(e@),
        },
{
    let ghost fm = pair_views(file_map@);
    let ghost rt = opt_str_view(root_path);
    let ghost cw = opt_str_view(cwd);
    let ghost n = file_map@.len() as int;
    let mut resolved: Vec<ResolvedMove> = Vec::new();
    let mut k: usize = 0;
    assert(move_views(resolved@) =~= Seq::<(Seq<char>, Seq<char>)>::empty());
    while k < file_map.len()
        invariant
            k <= file_map@.len(),
            n == file_map@.len(),
            source_is_file@.len() == file_map@.len(),
            target_exists@.len() == file_map@.len(),
            fm == pair_views(file_map@),
            rt == opt_str_view(root_path),
            cw == opt_str_view(cwd),
            resolved_moves(fm, rt, cw, source_is_file@, target_exists@, k as int) == Ok::<
                Seq<(Seq<char>, Seq<char>)>,
                MarkdownErrorView,
            >(move_views(resolved@)),
        decreases file_map.len() - k,
    {
        let ghost earlier = move_views(resolved@);
        let ghost next = k + 1;
        let (source, target) = (&file_map[k].0, &file_map[k].1);
        assert(fm[k as int] == (source@, target@));
        let source_abs = match resolve_project_path(source.as_str(), root_path, cwd) {
            Ok(p) => p,
            Err(e) => {
                proof {
                    lemma_resolved_err_stays(fm, rt, cw, source_is_file@, target_exists@, next, n);
                }
                return Err(e);
            },
        };
        let target_abs = match resolve_project_path(target.as_str(), root_path, cwd) {
            Ok(p) => p,
            Err(e) => {
                proof {
                    lemma_resolved_err_stays(fm, rt, cw, source_is_file@, target_exists@, next, n);
                }
                return Err(e);
            },
        };
        proof {
            reveal_strlit("md");
            assert("md"@ =~= seq!['m', 'd']);
        }
        if !has_extension(source_abs.as_str(), "md") {
            proof {
                lemma_resolved_err_stays(fm, rt, cw, source_is_file@, target_exists@, next, n);
            }
            return Err(MarkdownError::NotMarkdownSource { path: source_abs });
        }
        if !has_extension(target_abs.as_str(), "md") {
            proof {
                lemma_resolved_err_stays(fm, rt, cw, source_is_file@, target_exists@, next, n);
            }
            return Err(MarkdownError::NotMarkdownTarget { path: target_abs });
        }
        if !source_is_file[k] {
            proof {
                lemma_resolved_err_stays(fm, rt, cw, source_is_file@, target_exists@, next, n);
            }
            return Err(MarkdownError::SourceNotFile { path: source_abs });
        }
        if !same_path(source_abs.as_str(), target_abs.as_str()) && target_exists[k] {
            proof {
                lemma_resolved_err_stays(fm, rt, cw, source_is_file@, target_exists@, next, n);
            }
            return Err(MarkdownError::TargetExists { path: target_abs });
        }
        let mut m: usize = 0;
        #[verifier::loop_isolation(false)]
        while m < resolved.len()
            invariant
                m <= resolved@.len(),
                earlier == move_views(resolved@),
                forall|j: int|
                    0 <= j < m ==> path_view(#[trigger] earlier[j].0) != path_view(source_abs@),
            decreases resolved.len() - m,
        {
            if same_path(resolved[m].source_abs.as_str(), source_abs.as_str()) {
                assert(earlier[m as int].0 == resolved@[m as int].source_abs@);
                proof {
                    lemma_resolved_err_stays(fm, rt, cw, source_is_file@, target_exists@, next, n);
                }
                return Err(MarkdownError::DuplicateSource { path: source_abs });
            }
            m = m + 1;
        }
        let mut m: usize = 0;
        #[verifier::loop_isolation(false)]
        while m < resolved.len()
            invariant
                m <= resolved@.len(),
                earlier == move_views(resolved@),
                forall|j: int|
                    0 <= j < m ==> path_view(#[trigger] earlier[j].1) != path_view(target_abs@),
            decreases resolved.len() - m,
        {
            if same_path(resolved[m].target_abs.as_str(), target_abs.as_str()) {
                assert(earlier[m as int].1 == resolved@[m as int].target_abs@);
                proof {
                    lemma_resolved_err_stays(fm, rt, cw, source_is_file@, target_exists@, next, n);
                }
                return Err(MarkdownError::DuplicateTarget { path: target_abs });
            }
            m = m + 1;
        }
        let ghost pair = (source_abs@, target_abs@);
        resolved.push(ResolvedMove { source_abs, target_abs });
        assert(move_views(resolved@) =~= earlier.push(pair));
        k = k + 1;
    }
    Ok(resolved)
}

/// Once a refusal comes, it is the outcome of every longer prefix.
pub proof fn lemma_resolved_err_stays(
    file_map: Seq<(Seq<char>, Seq<char>)>,
    root: Option<Seq<char>>,
    cwd: Option<Seq<char>>,
    source_is_file: Seq<bool>,
    target_exists: Seq<bool>,
    k: int,
    n: int,
)
    requires
        0 <= k <= n,
        resolved_moves(file_map, root, cwd, source_is_file, target_exists, k) is Err,
    ensures
        resolved_moves(file_map, root, cwd, source_is_file, target_exists, n) == resolved_moves(
            file_map,
            root,
            cwd,
            source_is_file,
            target_exists,
            k,
        ),
    decreases n - k,
{
    if n > k {
        lemma_resolved_err_stays(file_map, root, cwd, source_is_file, target_exists, k, n - 1);
    }
}

// ---------------------------------------------------------------------------
// Workspace root

/// The parents of the sources and targets, in order (`None` where a path has
/// no parent).
pub open spec fn move_parents(moves: Seq<(Seq<char>, Seq<char>)>) -> Seq<Option<PathView>>
    decreases moves.len(),
{
    if moves.len() == 0 {
        Seq::empty()
    } else {
        move_parents(moves.drop_last()).push(parent_view(path_view(moves.last().0))).push(
            parent_view(path_view(moves.last().1)),
        )
    }
}

/// Folds `common_prefix_view` over the parents that exist, from `acc`.
pub open spec fn fold_common(ps: Seq<Option<PathView>>, acc: Option<PathView>) -> Option<PathView>
    decreases ps.len(),
{
    if ps.len() == 0 {
        acc
    } else {
        let next = match ps[0] {
            None => acc,
            Some(p) => match acc {
                None => Some(p),
                Some(a) => Some(common_prefix_view(a, p)),
            },
        };
        fold_common(ps.drop_first(), next)
    }
}

/// The directory under which the Markdown files of the move are looked for:
/// the normalised project root, or the directory that all sources and
/// targets share.
pub open spec fn workspace_root(
    moves: Seq<(Seq<char>, Seq<char>)>,
    root: Option<Seq<char>>,
    cwd: Option<Seq<char>>,
) -> Result<Seq<char>, MarkdownErrorView> {
    match root {
        Some(r) => if is_abs(r) {
            Ok(normalized(r))
        } else {
            match cwd {
                Some(c) => Ok(normalized(render(join_view(path_view(c), path_view(r))))),
                None => Err(MarkdownErrorView::NoCurrentDirectory),
            }
        },
        None => match fold_common(move_parents(moves), None) {
            Some(v) => Ok(render(v)),
            None => Err(MarkdownErrorView::EmptyMoveSet),
        },
    }
}

/// Determines the workspace root of a Markdown move.
pub fn determine_workspace_root(
    resolved_moves: &Vec<ResolvedMove>,
    root_path: Option<&str>,
    cwd: Option<&str>,
) -> (r: Result<String, MarkdownError>)
    ensures
        match r {
            Ok(s) => workspace_root(move_views(resolved_moves@), opt_str_view(root_path), opt_str_view(cwd))
                == Ok::<Seq<char>, MarkdownErrorView>(s@),
            Err(e) => workspace_root(move_views(resolved_moves@), opt_str_view(root_path), opt_str_view(cwd))
                == Err::<Seq<char>, MarkdownErrorView>(e@),
        },
{
    if let Some(root) = root_path {
        if path_is_absolute(root) {
            return Ok(normalize_path(root));
        }
        match cwd {
            Some(c) => {
                let joined = join_path(c, root);
                proof {
                    crate::paths::lemma_joined_text_canonical(c@, root@);
                }
                return Ok(normalize_path(joined.as_str()));
            },
            None => return Err(MarkdownError::NoCurrentDirectory),
        }
    }
    let ghost mv = move_views(resolved_moves@);
    let mut parents: Vec<Option<String>> = Vec::new();
    let mut k: usize = 0;
    assert(mv.take(0) =~= Seq::<(Seq<char>, Seq<char>)>::empty());
    while k < resolved_moves.len()
        invariant
            k <= resolved_moves@.len(),
            mv == move_views(resolved_moves@),
            parents@.len() == 2 * k,
            forall|j: int|
                0 <= j < parents@.len() ==> (match #[trigger] parents@[j] {
                    Some(p) => move_parents(mv.take(k as int))[j] == Some(path_view(p@)) && p@
                        == render(path_view(p@)),
                    None => move_parents(mv.take(k as int))[j] is None,
                }),
            move_parents(mv.take(k as int)).len() == 2 * k,
        decreases resolved_moves.len() - k,
    {
        let ghost prev = move_parents(mv.take(k as int));
        assert(mv.take(k + 1).drop_last() =~= mv.take(k as int));
        assert(mv.take(k + 1).last() == mv[k as int]);
        let sp = path_parent(resolved_moves[k].source_abs.as_str());
        let tp = path_parent(resolved_moves[k].target_abs.as_str());
        parents.push(sp);
        parents.push(tp);
        proof {
            let cur = move_parents(mv.take(k + 1));
            assert(cur == prev.push(parent_view(path_view(mv[k as int].0))).push(
                parent_view(path_view(mv[k as int].1)),
            ));
            assert forall|j: int| 0 <= j < parents@.len() implies (match #[trigger] parents@[j] {
                Some(p) => cur[j] == Some(path_view(p@)) && p@ == render(path_view(p@)),
                None => cur[j] is None,
            }) by {
                if j < 2 * k {
                    assert(cur[j] == prev[j]);
                } else if j == 2 * k {
                    match parents@[j] {
                        Some(p) => {
                            let pv = parent_view(path_view(mv[k as int].0)).unwrap();
                            lemma_path_view_ok(mv[k as int].0);
                            lemma_parent_ok(path_view(mv[k as int].0));
                            lemma_view_render(pv);
                        },
                        None => {},
                    }
                } else {
                    match parents@[j] {
                        Some(p) => {
                            let pv = parent_view(path_view(mv[k as int].1)).unwrap();
                            lemma_path_view_ok(mv[k as int].1);
                            lemma_parent_ok(path_view(mv[k as int].1));
                            lemma_view_render(pv);
                        },
                        None => {},
                    }
                }
            }
        }
        k = k + 1;
    }
    assert(mv.take(resolved_moves@.len() as int) =~= mv);
    let ghost ps = move_parents(mv);
    let mut acc: Option<String> = None;
    let mut j: usize = 0;
    assert(ps.skip(0) =~= ps);
    while j < parents.len()
        invariant
            j <= parents@.len(),
            ps.len() == parents@.len(),
            forall|m: int|
                0 <= m < parents@.len() ==> (match #[trigger] parents@[m] {
                    Some(p) => ps[m] == Some(path_view(p@)) && p@ == render(path_view(p@)),
                    None => ps[m] is None,
                }),
            fold_common(ps.skip(j as int), opt_path_view(acc)) == fold_common(ps, None),
            acc matches Some(a) ==> a@ == render(path_view(a@)),
        decreases parents.len() - j,
    {
        assert(ps.skip(j as int).drop_first() =~= ps.skip(j + 1));
        assert(ps.skip(j as int)[0] == ps[j as int]);
        match &parents[j] {
            None => {},
            Some(p) => {
                let next = match &acc {
                    None => p.clone(),
                    Some(a) => common_prefix_dir(a.as_str(), p.as_str()),
                };
                acc = Some(next);
            },
        }
        j = j + 1;
    }
    assert(ps.skip(parents@.len() as int) =~= Seq::<Option<PathView>>::empty());
    match acc {
        Some(a) => Ok(a),
        None => Err(MarkdownError::EmptyMoveSet),
    }
}

pub open spec fn opt_path_view(o: Option<String>) -> Option<PathView> {
    match o {
        Some(s) => Some(path_view(s@)),
        None => None,
    }
}

pub proof fn lemma_parent_ok(v: PathView)
    requires
        view_ok(v),
    ensures
        parent_view(v) matches Some(p) ==> view_ok(p),
{
    if v.parts.len() > 0 {
        let p = parent_view(v).unwrap();
        assert forall|k: int| 0 <= k < p.parts.len() implies part_ok(#[trigger] p.parts[k]) by {
            assert(p.parts[k] == v.parts[k]);
        }
    }
}

} // verus!
