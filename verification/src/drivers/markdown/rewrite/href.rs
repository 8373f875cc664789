//! Link destinations: fragments, links that leave the project, and the file
//! that a local link points to.

use vstd::prelude::*;
use crate::paths::{join_path, join_view, opt_view, parent_view, path_parent, path_view, render};
use crate::text::{
    ascii_alnum, ascii_alpha, chars_of, find_char, first_index, is_ascii_alnum, is_ascii_alpha,
    lemma_first_index, push_char, string_from, trim, trim_range,
};
use super::pathing::{normalize_path, normalize_view, opt_str_view};
use super::super::{MarkdownError, MarkdownErrorView};

verus! {

/// `href.split_once('#')`: the part before the first `#` and the fragment
/// after it, or the whole `href` and no fragment.
pub open spec fn split_href(h: Seq<char>) -> (Seq<char>, Option<Seq<char>>) {
    let k = first_index(h, '#', 0);
    if k < h.len() {
        (h.take(k), Some(h.skip(k + 1)))
    } else {
        (h, None)
    }
}

/// `path`, then `#` and the fragment where there is a non-empty one.
pub open spec fn rebuilt_href(path: Seq<char>, fragment: Option<Seq<char>>) -> Seq<char> {
    match fragment {
        Some(f) => if f.len() > 0 {
            path + seq!['#'] + f
        } else {
            path
        },
        None => path,
    }
}

/// A character that may stand in a URI scheme.
pub open spec fn is_scheme_char(c: char) -> bool {
    is_ascii_alnum(c) || c == '+' || c == '-' || c == '.'
}

/// Whether `h` starts with a URI scheme and a colon: two or more scheme
/// characters, the first a letter (a single letter is a drive letter).
pub open spec fn has_scheme(h: Seq<char>) -> bool {
    let k = first_index(h, ':', 0);
    &&& k < h.len()
    &&& k >= 2
    &&& is_ascii_alpha(h[0])
    &&& forall|i: int| 0 <= i < k ==> is_scheme_char(#[trigger] h[i])
}

/// Whether a link leaves the files of the project: once trimmed, it is an
/// anchor in the same file, a rooted path, or a URI.
pub open spec fn is_external(h: Seq<char>) -> bool {
    let t = trim(h);
    (t.len() > 0 && (t[0] == '#' || t[0] == '/')) || has_scheme(t)
}

/// Where the link `h` of the file `original` points: `None` for a link that
/// leaves the project or has no path, else the normalised file it names and
/// its fragment.
pub open spec fn classify_href(original: Seq<char>, h: Seq<char>) -> Result<
    Option<(Seq<char>, Option<Seq<char>>)>,
    MarkdownErrorView,
> {
    if is_external(h) {
        Ok(None)
    } else {
        let (p, f) = split_href(h);
        if p.len() == 0 {
            Ok(None)
        } else {
            match parent_view(path_view(original)) {
                None => Err(MarkdownErrorView::MissingParent { path: original }),
                Some(d) => Ok(Some((render(normalize_view(join_view(d, path_view(p)))), f))),
            }
        }
    }
}

/// A local link: the file it names and its fragment.
pub struct ResolvedHref {
    pub absolute_path: String,
    pub fragment: Option<String>,
}

impl View for ResolvedHref {
    type V = (Seq<char>, Option<Seq<char>>);

    open spec fn view(&self) -> (Seq<char>, Option<Seq<char>>) {
        (self.absolute_path@, opt_view(self.fragment))
    }
}

/// Splits `href` at its first `#`.
pub fn split_href_fragment(href: &str) -> (r: (String, Option<String>))
    ensures
        (r.0@, opt_view(r.1)) == split_href(href@),
{
    let t = chars_of(href);
    let n = t.len();
    let k = find_char(&t, '#');
    if k < n {
        let p = string_from(&t, 0, k);
        let f = string_from(&t, k + 1, n);
        assert(t@.subrange(0, k as int) =~= t@.take(k as int));
        assert(t@.subrange(k + 1, n as int) =~= t@.skip(k + 1));
        (p, Some(f))
    } else {
        let p = string_from(&t, 0, n);
        assert(t@.subrange(0, n as int) =~= t@);
        (p, None)
    }
}

/// `path`, followed by `#fragment` where the fragment is not empty.
pub fn rebuild_href(path: &str, fragment: Option<&str>) -> (r: String)
    ensures
        r@ == rebuilt_href(path@, opt_str_view(fragment)),
{
    let t = chars_of(path);
    let mut out = string_from(&t, 0, t.len());
    assert(t@.subrange(0, t@.len() as int) =~= t@);
    if let Some(f) = fragment {
        let ft = chars_of(f);
        if ft.len() > 0 {
            push_char(&mut out, '#');
            let ghost before = out@;
            let mut i: usize = 0;
            while i < ft.len()
                invariant
                    i <= ft@.len(),
                    out@ == before + ft@.take(i as int),
                decreases ft.len() - i,
            {
                push_char(&mut out, ft[i]);
                i = i + 1;
                assert(out@ =~= before + ft@.take(i as int));
            }
            assert(ft@.take(ft@.len() as int) =~= ft@);
        }
    }
    out
}

fn has_scheme_chars(t: &Vec<char>) -> (b: bool)
    ensures
        b == has_scheme(t@),
{
    let n = t.len();
    let k = find_char(t, ':');
    if k >= n || k < 2 || !ascii_alpha(t[0]) {
        return false;
    }
    let mut i: usize = 0;
    while i < k
        invariant
            n == t@.len(),
            k < n,
            k == first_index(t@, ':', 0),
            i <= k,
            forall|j: int| 0 <= j < i ==> is_scheme_char(#[trigger] t@[j]),
        decreases k - i,
    {
        let c = t[i];
        if !(ascii_alnum(c) || c == '+' || c == '-' || c == '.') {
            assert(!is_scheme_char(t@[i as int]));
            return false;
        }
        i = i + 1;
    }
    true
}

/// Whether `href` starts with a URI scheme such as `https:`; a single letter
/// before the colon is taken for a drive letter.
pub fn has_uri_scheme(href: &str) -> (b: bool)
    ensures
        b == has_scheme(href@),
{
    let t = chars_of(href);
    has_scheme_chars(&t)
}

/// Whether `href` leaves the files of the project (an anchor, a rooted path
/// or a URI).
pub fn is_external_href(href: &str) -> (b: bool)
    ensures
        b == is_external(href@),
{
    let t = chars_of(href);
    let (a, z) = trim_range(&t, 0, t.len());
    let mut trimmed: Vec<char> = Vec::new();
    let mut i = a;
    while i < z
        invariant
            a <= i <= z <= t@.len(),
            trimmed@ == t@.subrange(a as int, i as int),
        decreases z - i,
    {
        trimmed.push(t[i]);
        i = i + 1;
        assert(trimmed@ =~= t@.subrange(a as int, i as int));
    }
    assert(trimmed@ == trim(href@));
    (trimmed.len() > 0 && (trimmed[0] == '#' || trimmed[0] == '/')) || has_scheme_chars(&trimmed)
}

/// Where the link `href` of the file `original_file` points.
pub fn classify_link_target(original_file: &str, href: &str) -> (r: Result<
    Option<ResolvedHref>,
    MarkdownError,
>)
    ensures
        match r {
            Ok(None) => classify_href(original_file@, href@) == Ok::<
                Option<(Seq<char>, Option<Seq<char>>)>,
                MarkdownErrorView,
            >(None),
            Ok(Some(x)) => classify_href(original_file@, href@) == Ok::<
                Option<(Seq<char>, Option<Seq<char>>)>,
                MarkdownErrorView,
            >(Some(x@)),
            Err(e) => classify_href(original_file@, href@) == Err::<
                Option<(Seq<char>, Option<Seq<char>>)>,
                MarkdownErrorView,
            >(e@),
        },
{
    if is_external_href(href) {
        return Ok(None);
    }
    let (path_part, fragment) = split_href_fragment(href);
    if path_part.as_str().is_empty() {
        return Ok(None);
    }
    let original_dir = match path_parent(original_file) {
        Some(d) => d,
        None => {
            return Err(MarkdownError::MissingParent { path: original_file.to_owned() });
        },
    };
    let joined = join_path(original_dir.as_str(), path_part.as_str());
    let absolute_path = normalize_path(joined.as_str());
    Ok(Some(ResolvedHref { absolute_path, fragment }))
}

/// Splitting a link at its first `#` and rebuilding it gives it back, unless
/// that `#` ends the link (an empty fragment is dropped).
pub proof fn lemma_rebuild_split(h: Seq<char>)
    requires
        first_index(h, '#', 0) != h.len() - 1,
    ensures
        rebuilt_href(split_href(h).0, split_href(h).1) == h,
{
    lemma_first_index(h, '#', 0);
    let k = first_index(h, '#', 0);
    if k < h.len() {
        assert(h.take(k) + seq!['#'] + h.skip(k + 1) =~= h);
    }
}

} // verus!
