//! Lines, identifiers and UTF-16 columns of source text, as the Go and Rust
//! drivers read them to find a declaration.
//!
//! A line runs from its first character to the next line feed (or the end
//! of the text); offsets count characters.

use vstd::prelude::*;
use crate::drivers::markdown::parser::shared::{advance_line, lemma_line_end, line_end_exec, line_end_from};
use crate::drivers::lsp_client::{Position, utf16_len, utf16_width};
use crate::text::{
    ascii_alnum, is_ascii_alnum, is_unicode_ws, lemma_back_unicode_ws, lemma_skip_unicode_ws,
    matches_at, skip_unicode_ws, string_from, trim_bounds, trim_range, unicode_ws,
};

verus! {

/// A character of an identifier: an ASCII letter or digit, or `_`.
pub open spec fn is_ident_char(c: char) -> bool {
    is_ascii_alnum(c) || c == '_'
}

/// The end of the identifier characters that start at `s`, before `e`.
pub open spec fn ident_end(t: Seq<char>, s: int, e: int) -> int
    decreases e - s,
{
    if 0 <= s < e && s < t.len() && is_ident_char(t[s]) {
        ident_end(t, s + 1, e)
    } else {
        s
    }
}

pub proof fn lemma_ident_end(t: Seq<char>, s: int, e: int)
    ensures
        s <= e ==> s <= ident_end(t, s, e) <= e,
        s > e ==> ident_end(t, s, e) == s,
        forall|k: int| s <= k < ident_end(t, s, e) ==> is_ident_char(#[trigger] t[k]),
    decreases e - s,
{
    if 0 <= s < e && s < t.len() && is_ident_char(t[s]) {
        lemma_ident_end(t, s + 1, e);
    }
}

/// The end of the identifier characters of `t` from `s`, before `e`.
pub fn ident_end_exec(t: &Vec<char>, s: usize, e: usize) -> (r: usize)
    requires
        e <= t@.len(),
    ensures
        r as int == ident_end(t@, s as int, e as int),
{
    let mut r = s;
    while r < e && (ascii_alnum(t[r]) || t[r] == '_')
        invariant
            e <= t@.len(),
            s <= r,
            ident_end(t@, r as int, e as int) == ident_end(t@, s as int, e as int),
        decreases e - r,
    {
        r = r + 1;
    }
    r
}

/// How many UTF-16 code units encode `t[a..b]`.
pub open spec fn utf16_units(t: Seq<char>, a: int, b: int) -> int
    decreases b - a,
{
    if a >= b {
        0
    } else {
        utf16_units(t, a, b - 1) + utf16_width(t[b - 1])
    }
}

pub proof fn lemma_utf16_units_bound(t: Seq<char>, a: int, b: int)
    ensures
        0 <= utf16_units(t, a, b),
        a <= b ==> utf16_units(t, a, b) <= 2 * (b - a),
    decreases b - a,
{
    if a < b {
        lemma_utf16_units_bound(t, a, b - 1);
    }
}

/// How many UTF-16 code units encode `t[a..b]`.
pub fn utf16_count(t: &Vec<char>, a: usize, b: usize) -> (n: usize)
    requires
        a <= b <= t@.len(),
        t@.len() <= usize::MAX / 2,
    ensures
        n as int == utf16_units(t@, a as int, b as int),
{
    let mut n: usize = 0;
    let mut i = a;
    while i < b
        invariant
            a <= i <= b <= t@.len(),
            t@.len() <= usize::MAX / 2,
            n as int == utf16_units(t@, a as int, i as int),
        decreases b - i,
    {
        proof {
            lemma_utf16_units_bound(t@, a as int, i + 1);
        }
        n = n + utf16_len(t[i]);
        i = i + 1;
    }
    n
}

/// The first place in `t[s..e]` where `pat` stands whole.
pub open spec fn find_pat(t: Seq<char>, s: int, e: int, pat: Seq<char>) -> Option<int>
    decreases e + 1 - s,
{
    if s < 0 || s + pat.len() > e {
        None
    } else if matches_at(t, s, pat) {
        Some(s)
    } else {
        find_pat(t, s + 1, e, pat)
    }
}

pub proof fn lemma_find_pat(t: Seq<char>, s: int, e: int, pat: Seq<char>)
    ensures
        find_pat(t, s, e, pat) matches Some(f) ==> s <= f && f + pat.len() <= e && matches_at(
            t,
            f,
            pat,
        ),
    decreases e + 1 - s,
{
    if !(s < 0 || s + pat.len() > e) && !matches_at(t, s, pat) {
        lemma_find_pat(t, s + 1, e, pat);
    }
}

/// The first place in `t[s..e]` where `pat` stands whole.
pub fn find_pat_exec(t: &Vec<char>, s: usize, e: usize, pat: &Vec<char>) -> (r: Option<usize>)
    requires
        e <= t@.len(),
        e < usize::MAX,
    ensures
        match r {
            Some(f) => find_pat(t@, s as int, e as int, pat@) == Some(f as int),
            None => find_pat(t@, s as int, e as int, pat@) is None,
        },
{
    let mut i = s;
    while i <= e && pat.len() <= e - i
        invariant
            e <= t@.len(),
            e < usize::MAX,
            s <= i,
            find_pat(t@, i as int, e as int, pat@) == find_pat(t@, s as int, e as int, pat@),
        decreases e + 1 - i,
    {
        if crate::text::matches_at_exec(t, i, pat) {
            return Some(i);
        }
        i = i + 1;
    }
    None
}

/// Whether, after whitespace, `;` follows `ne` on the line that ends at `e`.
pub open spec fn semicolon_follows(t: Seq<char>, ne: int, e: int) -> bool {
    let q = skip_unicode_ws(t, ne, e);
    q < e && t[q] == ';'
}

/// Where the name of the first `mod name` of `t[s..e]` starts; with `semi`,
/// only one that `;` follows counts.
pub open spec fn mod_name_in_line(t: Seq<char>, s: int, e: int, name: Seq<char>, semi: bool) -> Option<int>
    decreases e + 2 - s,
{
    match find_pat(t, s, e, "mod "@) {
        None => None,
        Some(f) => {
            let ns = f + 4;
            let ne = ident_end(t, ns, e);
            if ne > ns && t.subrange(ns, ne) == name && (!semi || semicolon_follows(t, ne, e)) {
                Some(ns)
            } else {
                let next = if ne > ns + 1 {
                    ne
                } else {
                    ns + 1
                };
                if s < next <= e + 1 {
                    mod_name_in_line(t, next, e, name, semi)
                } else {
                    None
                }
            }
        },
    }
}

pub proof fn lemma_mod_name_in_line(t: Seq<char>, s: int, e: int, name: Seq<char>, semi: bool)
    ensures
        mod_name_in_line(t, s, e, name, semi) matches Some(ns) ==> s + 4 <= ns <= e,
    decreases e + 2 - s,
{
    lemma_find_pat(t, s, e, "mod "@);
    match find_pat(t, s, e, "mod "@) {
        None => {},
        Some(f) => {
            let ns = f + 4;
            let ne = ident_end(t, ns, e);
            let next = if ne > ns + 1 {
                ne
            } else {
                ns + 1
            };
            if !(ne > ns && t.subrange(ns, ne) == name && (!semi || semicolon_follows(t, ne, e)))
                && s < next <= e + 1 {
                lemma_mod_name_in_line(t, next, e, name, semi);
            }
        },
    }
}

/// Whether the line `t[p..e]` is a `//` comment (after leading whitespace).
pub open spec fn is_comment_line(t: Seq<char>, p: int, e: int) -> bool {
    let q = skip_unicode_ws(t, p, e);
    q + 2 <= e && matches_at(t, q, "//"@)
}

/// The line and the character offset of the name in the first declaration
/// `mod name` outside a comment line, from the line at `p` (the `k`-th).
pub open spec fn module_name_scan(t: Seq<char>, p: int, k: int, name: Seq<char>) -> Option<(int, int, int)>
    decreases t.len() + 1 - p,
{
    if p < 0 || p >= t.len() {
        None
    } else {
        let e = line_end_from(t, p);
        if !is_comment_line(t, p, e) && mod_name_in_line(t, p, e, name, false) is Some {
            Some((k, p, mod_name_in_line(t, p, e, name, false).unwrap()))
        } else {
            proof {
                lemma_line_end(t, p);
            }
            module_name_scan(t, e + 1, k + 1, name)
        }
    }
}

/// The position of the name in the first declaration `mod name` of `t`
/// outside a comment line: its line, and its column in UTF-16 code units.
pub open spec fn module_name_position_view(t: Seq<char>, name: Seq<char>) -> Option<Position> {
    match module_name_scan(t, 0, 0, name) {
        None => None,
        Some((k, p, ns)) => Some(
            Position { line: k as u32, character: utf16_units(t, p, ns) as u32 },
        ),
    }
}

fn semicolon_follows_exec(t: &Vec<char>, ne: usize, e: usize) -> (b: bool)
    requires
        ne <= e <= t@.len(),
    ensures
        b == semicolon_follows(t@, ne as int, e as int),
{
    let mut q = ne;
    while q < e && unicode_ws(t[q])
        invariant
            ne <= q <= e <= t@.len(),
            skip_unicode_ws(t@, q as int, e as int) == skip_unicode_ws(t@, ne as int, e as int),
        decreases e - q,
    {
        q = q + 1;
    }
    q < e && t[q] == ';'
}

fn comment_line_exec(t: &Vec<char>, p: usize, e: usize, slashes: &Vec<char>) -> (b: bool)
    requires
        p <= e <= t@.len(),
        t@.len() <= usize::MAX / 2,
        slashes@ == "//"@,
    ensures
        b == is_comment_line(t@, p as int, e as int),
{
    let mut q = p;
    while q < e && unicode_ws(t[q])
        invariant
            p <= q <= e <= t@.len(),
            skip_unicode_ws(t@, q as int, e as int) == skip_unicode_ws(t@, p as int, e as int),
        decreases e - q,
    {
        q = q + 1;
    }
    q + 2 <= e && crate::text::matches_at_exec(t, q, slashes)
}

fn mod_name_in_line_exec(
    t: &Vec<char>,
    s: usize,
    e: usize,
    name: &Vec<char>,
    pat: &Vec<char>,
    semi: bool,
) -> (r: Option<usize>)
    requires
        s <= e <= t@.len(),
        t@.len() <= usize::MAX / 2,
        pat@ == "mod "@,
    ensures
        match r {
            Some(ns) => mod_name_in_line(t@, s as int, e as int, name@, semi) == Some(ns as int),
            None => mod_name_in_line(t@, s as int, e as int, name@, semi) is None,
        },
{
    proof {
        reveal_strlit("mod ");
    }
    let mut start = s;
    while start <= e
        invariant
            s <= start,
            e <= t@.len(),
            t@.len() <= usize::MAX / 2,
            pat@ == "mod "@,
            pat@.len() == 4,
            mod_name_in_line(t@, start as int, e as int, name@, semi) == mod_name_in_line(
                t@,
                s as int,
                e as int,
                name@,
                semi,
            ),
        decreases e + 1 - start,
    {
        proof {
            lemma_find_pat(t@, start as int, e as int, pat@);
        }
        let f = match find_pat_exec(t, start, e, pat) {
            None => return None,
            Some(f) => f,
        };
        let ns = f + 4;
        let ne = ident_end_exec(t, ns, e);
        proof {
            lemma_ident_end(t@, ns as int, e as int);
        }
        if ne > ns {
            let mut same = ne - ns == name.len();
            if !same {
                assert(t@.subrange(ns as int, ne as int).len() != name@.len());
            }
            let mut j: usize = 0;
            while j < name.len()
                invariant
                    ns <= ne <= e <= t@.len(),
                    same ==> ne - ns == name@.len(),
                    j <= name@.len(),
                    same ==> forall|m: int| 0 <= m < j ==> t@[ns + m] == name@[m],
                    !same ==> t@.subrange(ns as int, ne as int) != name@,
                decreases name.len() - j,
            {
                if same && t[ns + j] != name[j] {
                    assert(t@.subrange(ns as int, ne as int)[j as int] != name@[j as int]);
                    same = false;
                }
                j = j + 1;
            }
            if same {
                assert(t@.subrange(ns as int, ne as int) =~= name@);
                if !semi || semicolon_follows_exec(t, ne, e) {
                    return Some(ns);
                }
            }
        }
        let next = if ne > ns + 1 {
            ne
        } else {
            ns + 1
        };
        start = next;
    }
    None
}

/// The position of the name in the first declaration `mod module_name` of
/// `content` outside a comment line.
pub fn find_module_name_position(t: &Vec<char>, module_name: &str) -> (r: Option<Position>)
    requires
        t@.len() <= usize::MAX / 2,
    ensures
        r == module_name_position_view(t@, module_name@),
        r matches Some(pos) ==> exists|ns: int|
            4 <= ns && ns + module_name@.len() <= t@.len() && t@.subrange(ns - 4, ns) == "mod "@
                && t@.subrange(ns, ns + module_name@.len()) == module_name@ && pos.line == newline_count(
                #[trigger] t@.take(ns),
            ) as u32 && pos.character == utf16_units(t@, line_start_at(t@, ns), ns) as u32,
{
    let name = crate::text::chars_of(module_name);
    let pat = crate::text::chars_of("mod ");
    let slashes = crate::text::chars_of("//");
    proof {
        reveal_strlit("mod ");
        reveal_strlit("//");
    }
    let n = t.len();
    let mut p: usize = 0;
    let mut k: usize = 0;
    while p < n
        invariant
            n == t@.len(),
            n <= usize::MAX / 2,
            p <= n + 1,
            k <= p,
            name@ == module_name@,
            pat@ == "mod "@,
            slashes@ == "//"@,
            module_name_scan(t@, p as int, k as int, name@) == module_name_scan(t@, 0, 0, name@),
        decreases n + 1 - p,
    {
        let e = line_end_exec(t, p);
        if !comment_line_exec(t, p, e, &slashes) {
            if let Some(ns) = mod_name_in_line_exec(t, p, e, &name, &pat, false) {
                proof {
                    lemma_mod_name_in_line(t@, p as int, e as int, name@, false);
                    lemma_module_position_lines(t@, module_name@);
                }
                let units = utf16_count(t, p, ns);
                return Some(Position { line: k as u32, character: units as u32 });
            }
        }
        proof {
            lemma_line_end(t@, p as int);
        }
        p = e + 1;
        k = k + 1;
    }
    None
}

// ---------------------------------------------------------------------------
// Module declarations

/// The first line that declares `mod name;` outside a comment, from the line
/// at `p`: its start, the start of the next line (past the line feed), and
/// where `mod` starts.
pub open spec fn declaration_scan(t: Seq<char>, p: int, name: Seq<char>) -> Option<(int, int, int)>
    decreases t.len() + 1 - p,
{
    if p < 0 || p >= t.len() {
        None
    } else {
        let e = line_end_from(t, p);
        if !is_comment_line(t, p, e) && mod_name_in_line(t, p, e, name, true) is Some {
            Some((p, advance_line(t, p), mod_name_in_line(t, p, e, name, true).unwrap() - 4))
        } else {
            proof {
                lemma_line_end(t, p);
            }
            declaration_scan(t, e + 1, name)
        }
    }
}

/// The line of `t` that declares `mod module_name;`: its range (with its
/// line feed) and the text before `mod` (the visibility).
pub fn find_module_declaration(t: &Vec<char>, module_name: &str) -> (r: Option<(usize, usize, String)>)
    requires
        t@.len() <= usize::MAX / 2,
    ensures
        match r {
            Some((a, b, v)) => declaration_scan(t@, 0, module_name@) == Some(
                (a as int, b as int, a as int + v@.len()),
            ) && v@ == t@.subrange(a as int, a as int + v@.len()),
            None => declaration_scan(t@, 0, module_name@) is None,
        },
{
    let name = crate::text::chars_of(module_name);
    let pat = crate::text::chars_of("mod ");
    let slashes = crate::text::chars_of("//");
    proof {
        reveal_strlit("mod ");
        reveal_strlit("//");
    }
    let n = t.len();
    let mut p: usize = 0;
    while p < n
        invariant
            n == t@.len(),
            n <= usize::MAX / 2,
            p <= n + 1,
            name@ == module_name@,
            pat@ == "mod "@,
            slashes@ == "//"@,
            declaration_scan(t@, p as int, name@) == declaration_scan(t@, 0, name@),
        decreases n + 1 - p,
    {
        let e = line_end_exec(t, p);
        proof {
            lemma_line_end(t@, p as int);
        }
        if !comment_line_exec(t, p, e, &slashes) {
            if let Some(ns) = mod_name_in_line_exec(t, p, e, &name, &pat, true) {
                proof {
                    lemma_mod_name_in_line(t@, p as int, e as int, name@, true);
                }
                let next = if e < n {
                    e + 1
                } else {
                    e
                };
                let visibility = string_from(t, p, ns - 4);
                return Some((p, next, visibility));
            }
        }
        p = e + 1;
    }
    None
}

// ---------------------------------------------------------------------------
// Go

/// The line and the character offset of the package name in the first
/// line that starts with `package ` (after whitespace) and names one, from
/// the line at `p` (the `k`-th).
pub open spec fn package_scan(t: Seq<char>, p: int, k: int) -> Option<(int, int, int)>
    decreases t.len() + 1 - p,
{
    if p < 0 || p >= t.len() {
        None
    } else {
        let e = line_end_from(t, p);
        let q = skip_unicode_ws(t, p, e);
        if q + 8 <= e && matches_at(t, q, "package "@) && ident_end(t, q + 8, e) > q + 8 {
            Some((k, p, q + 8))
        } else {
            proof {
                lemma_line_end(t, p);
            }
            package_scan(t, e + 1, k + 1)
        }
    }
}

/// Where the package name of a Go file stands.
pub open spec fn package_position_view(t: Seq<char>) -> Option<Position> {
    match package_scan(t, 0, 0) {
        None => None,
        Some((k, p, ns)) => Some(
            Position { line: k as u32, character: utf16_units(t, p, ns) as u32 },
        ),
    }
}

/// Where the package name of the Go file `t` stands: the first line whose
/// text, after leading whitespace, is `package ` and an identifier.
pub fn find_package_name_position(t: &Vec<char>) -> (r: Option<Position>)
    requires
        t@.len() <= usize::MAX / 2,
    ensures
        r == package_position_view(t@),
        r matches Some(pos) ==> exists|ns: int|
            8 <= ns <= t@.len() && t@.subrange(ns - 8, ns) == "package "@ && ident_end(
                t@,
                ns,
                t@.len() as int,
            ) > ns && pos.line == newline_count(#[trigger] t@.take(ns)) as u32 && pos.character
                == utf16_units(t@, line_start_at(t@, ns), ns) as u32,
{
    let pat = crate::text::chars_of("package ");
    proof {
        reveal_strlit("package ");
    }
    let n = t.len();
    let mut p: usize = 0;
    let mut k: usize = 0;
    while p < n
        invariant
            n == t@.len(),
            n <= usize::MAX / 2,
            p <= n + 1,
            k <= p,
            pat@ == "package "@,
            pat@.len() == 8,
            package_scan(t@, p as int, k as int) == package_scan(t@, 0, 0),
        decreases n + 1 - p,
    {
        let e = line_end_exec(t, p);
        let mut q = p;
        while q < e && unicode_ws(t[q])
            invariant
                p <= q <= e <= n,
                n == t@.len(),
                skip_unicode_ws(t@, q as int, e as int) == skip_unicode_ws(t@, p as int, e as int),
            decreases e - q,
        {
            q = q + 1;
        }
        if q + 8 <= e && crate::text::matches_at_exec(t, q, &pat) {
            let ne = ident_end_exec(t, q + 8, e);
            if ne > q + 8 {
                let units = utf16_count(t, p, q + 8);
                proof {
                    lemma_package_position_lines(t@);
                }
                return Some(Position { line: k as u32, character: units as u32 });
            }
        }
        proof {
            lemma_line_end(t@, p as int);
        }
        p = e + 1;
        k = k + 1;
    }
    None
}

/// The first index at or after `i` (before `hi`) that is not `c`.
pub open spec fn skip_char(t: Seq<char>, i: int, hi: int, c: char) -> int
    decreases hi - i,
{
    if 0 <= i < hi && i < t.len() && t[i] == c {
        skip_char(t, i + 1, hi, c)
    } else {
        i
    }
}

/// The last boundary at or before `j` (above `lo`) that `c` does not precede.
pub open spec fn back_char(t: Seq<char>, lo: int, j: int, c: char) -> int
    decreases j - lo,
{
    if lo < j && 0 < j <= t.len() && t[j - 1] == c {
        back_char(t, lo, j - 1, c)
    } else {
        j
    }
}

/// The bounds of the module path of the first line of a `go.mod` text that
/// is neither blank nor a `//` comment and starts with `module `, from the
/// line at `p`: the rest of the line, trimmed and without surrounding
/// quotes.
pub open spec fn go_module_scan(t: Seq<char>, p: int) -> Option<(int, int)>
    decreases t.len() + 1 - p,
{
    if p < 0 || p >= t.len() {
        None
    } else {
        let e = line_end_from(t, p);
        let (a, b) = trim_bounds(t, p, e);
        if a < b && !(a + 2 <= b && matches_at(t, a, "//"@)) && a + 7 <= b && matches_at(
            t,
            a,
            "module "@,
        ) {
            let (c, d) = trim_bounds(t, a + 7, b);
            let c2 = skip_char(t, c, d, '"');
            Some((c2, back_char(t, c2, d, '"')))
        } else {
            proof {
                lemma_line_end(t, p);
            }
            go_module_scan(t, e + 1)
        }
    }
}

/// The module path that a `go.mod` text declares.
pub open spec fn go_module_path_view(t: Seq<char>) -> Option<Seq<char>> {
    match go_module_scan(t, 0) {
        None => None,
        Some((c, d)) => Some(t.subrange(c, d)),
    }
}

/// The module path that the `go.mod` text `t` declares.
pub fn find_go_module_path(t: &Vec<char>) -> (r: Option<String>)
    requires
        t@.len() <= usize::MAX / 2,
    ensures
        opt_string_view(r) == go_module_path_view(t@),
{
    let slashes = crate::text::chars_of("//");
    let module_kw = crate::text::chars_of("module ");
    proof {
        reveal_strlit("//");
        reveal_strlit("module ");
    }
    let n = t.len();
    let mut p: usize = 0;
    while p < n
        invariant
            n == t@.len(),
            n <= usize::MAX / 2,
            p <= n + 1,
            slashes@ == "//"@,
            slashes@.len() == 2,
            module_kw@ == "module "@,
            module_kw@.len() == 7,
            go_module_scan(t@, p as int) == go_module_scan(t@, 0),
        decreases n + 1 - p,
    {
        let e = line_end_exec(t, p);
        let (a, b) = trim_range(t, p, e);
        if a < b && !(a + 2 <= b && crate::text::matches_at_exec(t, a, &slashes)) && a + 7 <= b
            && crate::text::matches_at_exec(t, a, &module_kw) {
            let (c, d) = trim_range(t, a + 7, b);
            let mut c2 = c;
            while c2 < d && t[c2] == '"'
                invariant
                    c <= c2 <= d <= t@.len(),
                    skip_char(t@, c2 as int, d as int, '"') == skip_char(t@, c as int, d as int, '"'),
                decreases d - c2,
            {
                c2 = c2 + 1;
            }
            let mut d2 = d;
            while d2 > c2 && t[d2 - 1] == '"'
                invariant
                    c2 <= d2 <= d <= t@.len(),
                    back_char(t@, c2 as int, d2 as int, '"') == back_char(t@, c2 as int, d as int, '"'),
                decreases d2,
            {
                d2 = d2 - 1;
            }
            return Some(string_from(t, c2, d2));
        }
        proof {
            lemma_line_end(t@, p as int);
        }
        p = e + 1;
    }
    None
}

pub open spec fn opt_string_view(o: Option<String>) -> Option<Seq<char>> {
    match o {
        Some(s) => Some(s@),
        None => None,
    }
}

// ---------------------------------------------------------------------------
// Line numbers

/// How many line feeds `s` holds.
pub open spec fn newline_count(s: Seq<char>) -> nat
    decreases s.len(),
{
    if s.len() == 0 {
        0
    } else {
        newline_count(s.drop_last()) + if s.last() == '\n' {
            1nat
        } else {
            0nat
        }
    }
}

/// The start of the line that holds the offset `i`: just past the last line
/// feed before it, or 0.
pub open spec fn line_start_at(t: Seq<char>, i: int) -> int
    decreases i,
{
    if i <= 0 {
        0
    } else if t[i - 1] == '\n' {
        i
    } else {
        line_start_at(t, i - 1)
    }
}

/// Whether `p` starts a line of `t`.
pub open spec fn starts_line(t: Seq<char>, p: int) -> bool {
    p == 0 || (0 < p <= t.len() && t[p - 1] == '\n')
}

proof fn lemma_newlines_step(t: Seq<char>, j: int)
    requires
        0 <= j < t.len(),
    ensures
        newline_count(t.take(j + 1)) == newline_count(t.take(j)) + if t[j] == '\n' {
            1nat
        } else {
            0nat
        },
{
    assert(t.take(j + 1).drop_last() =~= t.take(j));
    assert(t.take(j + 1).last() == t[j]);
}

proof fn lemma_newlines_flat(t: Seq<char>, p: int, j: int)
    requires
        0 <= p <= j <= t.len(),
        forall|m: int| p <= m < j ==> t[m] != '\n',
    ensures
        newline_count(t.take(j)) == newline_count(t.take(p)),
        starts_line(t, p) ==> line_start_at(t, j) == p,
    decreases j - p,
{
    if j > p {
        lemma_newlines_flat(t, p, j - 1);
        lemma_newlines_step(t, j - 1);
    }
}

/// Where a line-by-line scan from the line start `p` (the `k`-th line, `k`
/// counting the line feeds before it) goes next: past the line's end, with
/// one line more counted.
proof fn lemma_next_line(t: Seq<char>, p: int, k: int)
    requires
        starts_line(t, p),
        p < t.len(),
        k == newline_count(t.take(p)),
    ensures
        p <= line_end_from(t, p) <= t.len(),
        forall|m: int| p <= m < line_end_from(t, p) ==> t[m] != '\n',
        line_end_from(t, p) + 1 > t.len() || (starts_line(t, line_end_from(t, p) + 1) && k + 1
            == newline_count(t.take(line_end_from(t, p) + 1))),
{
    lemma_line_end(t, p);
    let e = line_end_from(t, p);
    lemma_newlines_flat(t, p, e);
    if e < t.len() {
        lemma_newlines_step(t, e);
    }
}

proof fn lemma_package_scan_lines(t: Seq<char>, p: int, k: int)
    requires
        p > t.len() || (starts_line(t, p) && k == newline_count(t.take(p))),
    ensures
        package_scan(t, p, k) matches Some((line, start, ns)) ==> {
            &&& 8 <= ns <= t.len()
            &&& t.subrange(ns - 8, ns) == "package "@
            &&& ident_end(t, ns, t.len() as int) > ns
            &&& line == newline_count(t.take(ns))
            &&& start == line_start_at(t, ns)
        },
    decreases t.len() + 1 - p,
{
    if 0 <= p < t.len() {
        lemma_next_line(t, p, k);
        let e = line_end_from(t, p);
        let q = skip_unicode_ws(t, p, e);
        lemma_skip_unicode_ws(t, p, e);
        if q + 8 <= e && matches_at(t, q, "package "@) && ident_end(t, q + 8, e) > q + 8 {
            lemma_newlines_flat(t, p, q + 8);
            lemma_ident_end(t, q + 8, e);
            assert(is_ident_char(t[q + 8]));
            lemma_ident_end(t, q + 9, t.len() as int);
            assert(ident_end(t, q + 8, t.len() as int) == ident_end(t, q + 9, t.len() as int));
            reveal_strlit("package ");
            assert(t.subrange(q, q + 8) == "package "@);
            assert(line_start_at(t, q + 8) == p);
            assert(k == newline_count(t.take(q + 8)));
        } else {
            lemma_package_scan_lines(t, e + 1, k + 1);
        }
    }
}

/// The package name of a Go file is reported on the line that holds it:
/// its line number counts every line feed before it (blank lines among
/// them), and its column is counted from the start of that line. The name
/// follows `package ` there.
pub proof fn lemma_package_position_lines(t: Seq<char>)
    ensures
        package_position_view(t) matches Some(pos) ==> exists|ns: int|
            8 <= ns <= t.len() && t.subrange(ns - 8, ns) == "package "@ && ident_end(
                t,
                ns,
                t.len() as int,
            ) > ns && pos.line == newline_count(#[trigger] t.take(ns)) as u32 && pos.character
                == utf16_units(t, line_start_at(t, ns), ns) as u32,
{
    assert(t.take(0) =~= Seq::<char>::empty());
    lemma_package_scan_lines(t, 0, 0);
    if let Some((line, start, ns)) = package_scan(t, 0, 0) {
        assert(t.take(ns) == t.take(ns));
    }
}

proof fn lemma_mod_name_found(t: Seq<char>, s: int, e: int, name: Seq<char>, semi: bool)
    requires
        0 <= s,
        e <= t.len(),
    ensures
        mod_name_in_line(t, s, e, name, semi) matches Some(ns) ==> {
            &&& s + 4 <= ns
            &&& ns + name.len() <= e
            &&& t.subrange(ns - 4, ns) == "mod "@
            &&& t.subrange(ns, ns + name.len()) == name
        },
    decreases e + 2 - s,
{
    reveal_strlit("mod ");
    lemma_find_pat(t, s, e, "mod "@);
    match find_pat(t, s, e, "mod "@) {
        None => {},
        Some(f) => {
            let ns = f + 4;
            let ne = ident_end(t, ns, e);
            lemma_ident_end(t, ns, e);
            let next = if ne > ns + 1 {
                ne
            } else {
                ns + 1
            };
            if ne > ns && t.subrange(ns, ne) == name && (!semi || semicolon_follows(t, ne, e)) {
                assert(ne - ns == name.len());
            } else if s < next <= e + 1 {
                lemma_mod_name_found(t, next, e, name, semi);
            }
        },
    }
}

proof fn lemma_module_scan_lines(t: Seq<char>, p: int, k: int, name: Seq<char>)
    requires
        p > t.len() || (starts_line(t, p) && k == newline_count(t.take(p))),
    ensures
        module_name_scan(t, p, k, name) matches Some((line, start, ns)) ==> {
            &&& 4 <= ns
            &&& ns + name.len() <= t.len()
            &&& t.subrange(ns - 4, ns) == "mod "@
            &&& t.subrange(ns, ns + name.len()) == name
            &&& line == newline_count(t.take(ns))
            &&& start == line_start_at(t, ns)
        },
    decreases t.len() + 1 - p,
{
    if 0 <= p < t.len() {
        lemma_next_line(t, p, k);
        let e = line_end_from(t, p);
        if !is_comment_line(t, p, e) && mod_name_in_line(t, p, e, name, false) is Some {
            let ns = mod_name_in_line(t, p, e, name, false).unwrap();
            lemma_mod_name_found(t, p, e, name, false);
            lemma_newlines_flat(t, p, ns);
        } else {
            lemma_module_scan_lines(t, e + 1, k + 1, name);
        }
    }
}

/// A `mod name` declaration is reported on the line that holds its name: the
/// line number counts every line feed before the name (blank lines among
/// them), and the column is counted from the start of that line. The name
/// stands there whole, after `mod `.
pub proof fn lemma_module_position_lines(t: Seq<char>, name: Seq<char>)
    ensures
        module_name_position_view(t, name) matches Some(pos) ==> exists|ns: int|
            4 <= ns && ns + name.len() <= t.len() && t.subrange(ns - 4, ns) == "mod "@ && t.subrange(
                ns,
                ns + name.len(),
            ) == name && pos.line == newline_count(#[trigger] t.take(ns)) as u32 && pos.character
                == utf16_units(t, line_start_at(t, ns), ns) as u32,
{
    assert(t.take(0) =~= Seq::<char>::empty());
    lemma_module_scan_lines(t, 0, 0, name);
    if let Some((line, start, ns)) = module_name_scan(t, 0, 0, name) {
        assert(t.take(ns) == t.take(ns));
    }
}

} // verus!
