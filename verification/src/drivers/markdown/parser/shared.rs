//! Scanning primitives shared by the Markdown link parsers: bracket matching,
//! link destinations, reference labels and the code regions in which links
//! are not recognised.

use vstd::prelude::*;
use crate::text::{
    ascii_lower, ascii_ws, char_lowercase, is_ascii_char, is_ascii_ws, is_unicode_ws, lemma_back_unicode_ws, lemma_skip_unicode_ws,
    push_char, push_lowercase, skip_unicode_ws, back_unicode_ws, trim, trim_bounds, trim_range, unicode_ws,
};

verus! {

/// `o` with its position widened to `int`.
pub open spec fn opt_int(o: Option<usize>) -> Option<int> {
    match o {
        Some(k) => Some(k as int),
        None => None,
    }
}

// ---------------------------------------------------------------------------
// Lines

/// Index of the first `'\n'` at or after `p`, or the end of `t`.
pub open spec fn line_end_from(t: Seq<char>, p: int) -> int
    decreases t.len() - p,
{
    if 0 <= p < t.len() && t[p] != '\n' {
        line_end_from(t, p + 1)
    } else {
        p
    }
}

/// Start of the line after the one that holds `p` (past its `'\n'`), or the end
/// of `t`.
pub open spec fn advance_line(t: Seq<char>, p: int) -> int {
    let e = line_end_from(t, p);
    if e < t.len() {
        e + 1
    } else {
        e
    }
}

pub proof fn lemma_line_end(t: Seq<char>, p: int)
    requires
        0 <= p <= t.len(),
    ensures
        p <= line_end_from(t, p) <= t.len(),
        line_end_from(t, p) < t.len() ==> t[line_end_from(t, p)] == '\n',
        forall|k: int| p <= k < line_end_from(t, p) ==> t[k] != '\n',
        p <= advance_line(t, p) <= t.len(),
        p < t.len() ==> p < advance_line(t, p),
    decreases t.len() - p,
{
    if p < t.len() && t[p] != '\n' {
        lemma_line_end(t, p + 1);
    }
}

pub fn line_end_exec(t: &Vec<char>, p: usize) -> (e: usize)
    requires
        p <= t@.len(),
    ensures
        e as int == line_end_from(t@, p as int),
        p <= e <= t@.len(),
{
    let n = t.len();
    let mut e = p;
    while e < n && t[e] != '\n'
        invariant
            n == t@.len(),
            p <= e <= n,
            line_end_from(t@, e as int) == line_end_from(t@, p as int),
        decreases n - e,
    {
        e = e + 1;
    }
    e
}

/// Advances `pos` past the current line (including its `'\n'` if present).
pub fn advance_line_exec(t: &Vec<char>, pos: usize) -> (r: usize)
    requires
        pos <= t@.len(),
    ensures
        r as int == advance_line(t@, pos as int),
        pos <= r <= t@.len(),
        pos < t@.len() ==> pos < r,
{
    proof {
        lemma_line_end(t@, pos as int);
    }
    let e = line_end_exec(t, pos);
    if e < t.len() {
        e + 1
    } else {
        e
    }
}

// ---------------------------------------------------------------------------
// Brackets

/// Scans from `i` for the `]` that closes the bracket nesting; a backslash
/// skips the character after it.
pub open spec fn bracket_scan(t: Seq<char>, i: int, depth: nat) -> Option<int>
    decreases t.len() + 1 - i,
{
    if i < 0 || i >= t.len() {
        None
    } else if t[i] == '\\' {
        bracket_scan(t, i + 2, depth)
    } else if t[i] == '[' {
        bracket_scan(t, i + 1, depth + 1)
    } else if t[i] == ']' {
        if depth <= 1 {
            Some(i)
        } else {
            bracket_scan(t, i + 1, (depth - 1) as nat)
        }
    } else {
        bracket_scan(t, i + 1, depth)
    }
}

/// The `]` that matches the `[` at `open`.
pub open spec fn matching_bracket(t: Seq<char>, open: int) -> Option<int> {
    bracket_scan(t, open, 0)
}

pub proof fn lemma_bracket_scan(t: Seq<char>, i: int, depth: nat)
    ensures
        bracket_scan(t, i, depth) matches Some(k) ==> i <= k < t.len() && t[k] == ']',
    decreases t.len() + 1 - i,
{
    if i < 0 || i >= t.len() {
    } else if t[i] == '\\' {
        lemma_bracket_scan(t, i + 2, depth);
    } else if t[i] == '[' {
        lemma_bracket_scan(t, i + 1, depth + 1);
    } else if t[i] == ']' {
        if depth > 1 {
            lemma_bracket_scan(t, i + 1, (depth - 1) as nat);
        }
    } else {
        lemma_bracket_scan(t, i + 1, depth);
    }
}

pub fn find_matching_bracket(t: &Vec<char>, open_index: usize) -> (r: Option<usize>)
    ensures
        opt_int(r) == matching_bracket(t@, open_index as int),
        r matches Some(k) ==> open_index <= k < t@.len() && t@[k as int] == ']',
{
    proof {
        lemma_bracket_scan(t@, open_index as int, 0);
    }
    let n = t.len();
    let mut depth: usize = 0;
    let mut index = open_index;
    while index < n
        invariant
            n == t@.len(),
            depth <= index,
            open_index <= index,
            bracket_scan(t@, index as int, depth as nat) == matching_bracket(t@, open_index as int),
        decreases n - index,
    {
        let c = t[index];
        if c == '\\' {
            assert(index + 2 >= n ==> bracket_scan(t@, index + 2, depth as nat) is None);
            index = if n - index >= 2 { index + 2 } else { n };
        } else if c == '[' {
            depth = depth + 1;
            index = index + 1;
        } else if c == ']' {
            if depth <= 1 {
                return Some(index);
            }
            depth = depth - 1;
            index = index + 1;
        } else {
            index = index + 1;
        }
    }
    None
}

// ---------------------------------------------------------------------------
// Whitespace runs

/// First index at or after `i` (below `hi`) that is not ASCII whitespace.
pub open spec fn skip_ascii_ws(t: Seq<char>, i: int, hi: int) -> int
    decreases hi - i,
{
    if 0 <= i < hi && i < t.len() && is_ascii_ws(t[i]) {
        skip_ascii_ws(t, i + 1, hi)
    } else {
        i
    }
}

pub proof fn lemma_skip_ascii_ws(t: Seq<char>, i: int, hi: int)
    requires
        0 <= i,
    ensures
        i <= skip_ascii_ws(t, i, hi),
        i <= hi && hi <= t.len() ==> skip_ascii_ws(t, i, hi) <= hi,
        skip_ascii_ws(t, i, hi) < hi && skip_ascii_ws(t, i, hi) < t.len() ==> !is_ascii_ws(
            t[skip_ascii_ws(t, i, hi)],
        ),
    decreases hi - i,
{
    if 0 <= i < hi && i < t.len() && is_ascii_ws(t[i]) {
        lemma_skip_ascii_ws(t, i + 1, hi);
    }
}

pub fn skip_ascii_ws_exec(t: &Vec<char>, i: usize, hi: usize) -> (r: usize)
    requires
        i <= hi <= t@.len(),
    ensures
        r as int == skip_ascii_ws(t@, i as int, hi as int),
        i <= r <= hi,
{
    proof {
        lemma_skip_ascii_ws(t@, i as int, hi as int);
    }
    let mut k = i;
    while k < hi && ascii_ws(t[k])
        invariant
            i <= k <= hi <= t@.len(),
            skip_ascii_ws(t@, k as int, hi as int) == skip_ascii_ws(t@, i as int, hi as int),
        decreases hi - k,
    {
        k = k + 1;
    }
    k
}

// ---------------------------------------------------------------------------
// Inline destinations: `(href "title")` and `(<href>)`

/// From `c`, the first `>` (or a position at or past the end); a backslash
/// skips the character after it.
pub open spec fn angle_scan(t: Seq<char>, c: int, hi: int) -> int
    decreases hi + 1 - c,
{
    if c < 0 || c >= hi || c >= t.len() {
        c
    } else if t[c] == '>' {
        c
    } else if t[c] == '\\' {
        angle_scan(t, c + 2, hi)
    } else {
        angle_scan(t, c + 1, hi)
    }
}

pub proof fn lemma_angle_scan(t: Seq<char>, c: int, hi: int)
    requires
        0 <= c,
    ensures
        c <= angle_scan(t, c, hi),
        c <= hi ==> angle_scan(t, c, hi) <= hi + 1,
        angle_scan(t, c, hi) < hi && angle_scan(t, c, hi) < t.len() ==> t[angle_scan(t, c, hi)]
            == '>',
    decreases hi + 1 - c,
{
    if c < 0 || c >= hi || c >= t.len() {
    } else if t[c] == '>' {
    } else if t[c] == '\\' {
        lemma_angle_scan(t, c + 2, hi);
    } else {
        lemma_angle_scan(t, c + 1, hi);
    }
}

/// The unbracketed destination: scans from `i` for the `)` that closes the
/// link at parenthesis depth 0. The destination ends at the first whitespace
/// run at depth 0 (a title may follow), else at that `)`. The result is
/// `(href_end, closing_paren)`.
pub open spec fn plain_dest_scan(t: Seq<char>, i: int, depth: nat, href_end: Option<int>) -> Option<
    (int, int),
>
    decreases t.len() + 1 - i,
{
    if i < 0 || i >= t.len() {
        None
    } else if t[i] == '\\' {
        plain_dest_scan(t, i + 2, depth, href_end)
    } else if t[i] == '(' {
        plain_dest_scan(t, i + 1, depth + 1, href_end)
    } else if t[i] == ')' {
        if depth == 0 {
            Some(
                (
                    match href_end {
                        Some(e) => e,
                        None => i,
                    },
                    i,
                ),
            )
        } else {
            plain_dest_scan(t, i + 1, (depth - 1) as nat, href_end)
        }
    } else if is_ascii_ws(t[i]) && depth == 0 {
        let j = skip_ascii_ws(t, i + 1, t.len() as int);
        proof {
            lemma_skip_ascii_ws(t, i + 1, t.len() as int);
        }
        plain_dest_scan(t, j, depth, Some(i))
    } else {
        plain_dest_scan(t, i + 1, depth, href_end)
    }
}

/// The destination of an inline link whose `(` stands at `open_paren`, as
/// `(href_start, href_end, closing_paren)`.
pub open spec fn inline_destination(t: Seq<char>, open_paren: int) -> Option<(int, int, int)> {
    let index = skip_ascii_ws(t, open_paren + 1, t.len() as int);
    if index >= t.len() {
        None
    } else if t[index] == '<' {
        let href_start = index + 1;
        let cursor = angle_scan(t, href_start, t.len() as int);
        if !(cursor < t.len() && t[cursor] == '>') {
            None
        } else {
            let after = skip_ascii_ws(t, cursor + 1, t.len() as int);
            if after < t.len() && t[after] == ')' {
                Some((href_start, cursor, after))
            } else {
                None
            }
        }
    } else {
        match plain_dest_scan(t, index, 0, None) {
            Some((end, close)) => Some((index, end, close)),
            None => None,
        }
    }
}

pub proof fn lemma_plain_dest_scan(t: Seq<char>, i: int, depth: nat, href_end: Option<int>, lo: int)
    requires
        0 <= lo <= i,
        href_end matches Some(e) ==> lo <= e < i,
    ensures
        plain_dest_scan(t, i, depth, href_end) matches Some((e, c)) ==> lo <= e <= c && i <= c
            < t.len() && t[c] == ')',
    decreases t.len() + 1 - i,
{
    if i < 0 || i >= t.len() {
    } else if t[i] == '\\' {
        lemma_plain_dest_scan(t, i + 2, depth, href_end, lo);
    } else if t[i] == '(' {
        lemma_plain_dest_scan(t, i + 1, depth + 1, href_end, lo);
    } else if t[i] == ')' {
        if depth != 0 {
            lemma_plain_dest_scan(t, i + 1, (depth - 1) as nat, href_end, lo);
        }
    } else if is_ascii_ws(t[i]) && depth == 0 {
        lemma_skip_ascii_ws(t, i + 1, t.len() as int);
        lemma_plain_dest_scan(t, skip_ascii_ws(t, i + 1, t.len() as int), depth, Some(i), lo);
    } else {
        lemma_plain_dest_scan(t, i + 1, depth, href_end, lo);
    }
}

pub proof fn lemma_inline_destination(t: Seq<char>, open_paren: int)
    requires
        0 <= open_paren < t.len(),
    ensures
        inline_destination(t, open_paren) matches Some((s, e, c)) ==> open_paren < s <= e <= c
            < t.len() && t[c] == ')',
{
    lemma_skip_ascii_ws(t, open_paren + 1, t.len() as int);
    let index = skip_ascii_ws(t, open_paren + 1, t.len() as int);
    if index < t.len() {
        if t[index] == '<' {
            lemma_angle_scan(t, index + 1, t.len() as int);
            let cursor = angle_scan(t, index + 1, t.len() as int);
            if cursor < t.len() {
                lemma_skip_ascii_ws(t, cursor + 1, t.len() as int);
            }
        } else {
            lemma_plain_dest_scan(t, index, 0, None, index);
        }
    }
}

fn angle_scan_exec(t: &Vec<char>, c: usize, hi: usize) -> (r: usize)
    requires
        hi <= t@.len(),
        c <= hi,
    ensures
        r as int == angle_scan(t@, c as int, hi as int) || (r == hi && angle_scan(
            t@,
            c as int,
            hi as int,
        ) >= hi),
        c <= r <= hi,
{
    let mut k = c;
    while k < hi && t[k] != '>'
        invariant
            c <= k <= hi <= t@.len(),
            angle_scan(t@, k as int, hi as int) == angle_scan(t@, c as int, hi as int),
        decreases hi - k,
    {
        if t[k] == '\\' {
            if hi - k >= 2 {
                k = k + 2;
            } else {
                proof {
                    lemma_angle_scan(t@, k + 2, hi as int);
                }
                return hi;
            }
        } else {
            k = k + 1;
        }
    }
    k
}

fn plain_dest_exec(t: &Vec<char>, start: usize) -> (r: Option<(usize, usize)>)
    requires
        start <= t@.len(),
    ensures
        match r {
            Some((e, c)) => plain_dest_scan(t@, start as int, 0, None) == Some((e as int, c as int)),
            None => plain_dest_scan(t@, start as int, 0, None) is None,
        },
{
    let n = t.len();
    let mut index = start;
    let mut depth: usize = 0;
    let mut href_end: Option<usize> = None;
    while index < n
        invariant
            n == t@.len(),
            start <= index <= n,
            depth <= index,
            href_end matches Some(e) ==> e < index,
            plain_dest_scan(t@, index as int, depth as nat, opt_int(href_end)) == plain_dest_scan(
                t@,
                start as int,
                0,
                None,
            ),
        decreases n - index,
    {
        let c = t[index];
        if c == '\\' {
            assert(index + 2 >= n ==> plain_dest_scan(t@, index + 2, depth as nat, opt_int(href_end))
                is None);
            index = if n - index >= 2 { index + 2 } else { n };
        } else if c == '(' {
            depth = depth + 1;
            index = index + 1;
        } else if c == ')' {
            if depth == 0 {
                let resolved_end = match href_end {
                    Some(e) => e,
                    None => index,
                };
                return Some((resolved_end, index));
            }
            depth = depth - 1;
            index = index + 1;
        } else if ascii_ws(c) && depth == 0 {
            href_end = Some(index);
            index = skip_ascii_ws_exec(t, index + 1, n);
        } else {
            index = index + 1;
        }
    }
    None
}

/// The destination of the inline link whose `(` stands at `open_paren`:
/// `(href_start, href_end, closing_paren)`.
pub fn parse_inline_destination(t: &Vec<char>, open_paren: usize) -> (r: Option<
    (usize, usize, usize),
>)
    requires
        open_paren < usize::MAX,
    ensures
        match r {
            Some((s, e, c)) => inline_destination(t@, open_paren as int) == Some(
                (s as int, e as int, c as int),
            ),
            None => inline_destination(t@, open_paren as int) is None,
        },
        r matches Some((s, e, c)) ==> open_paren < s <= e <= c < t@.len() && t@[c as int] == ')',
{
    let n = t.len();
    if open_paren >= n {
        return None;
    }
    proof {
        lemma_inline_destination(t@, open_paren as int);
    }
    let index = skip_ascii_ws_exec(t, open_paren + 1, n);
    if index >= n {
        return None;
    }
    if t[index] == '<' {
        let href_start = index + 1;
        let cursor = angle_scan_exec(t, href_start, n);
        proof {
            lemma_angle_scan(t@, href_start as int, n as int);
        }
        if !(cursor < n && t[cursor] == '>') {
            return None;
        }
        let after = skip_ascii_ws_exec(t, cursor + 1, n);
        if after < n && t[after] == ')' {
            return Some((href_start, cursor, after));
        }
        return None;
    }
    match plain_dest_exec(t, index) {
        Some((end, close)) => Some((index, end, close)),
        None => None,
    }
}

// ---------------------------------------------------------------------------
// Reference definition destinations: `[label]: href "title"`

/// First index at or after `i` (below `hi`) that is ASCII whitespace; a
/// backslash skips the character after it, so the result may be `hi + 1`.
pub open spec fn bare_scan(t: Seq<char>, i: int, hi: int) -> int
    decreases hi + 1 - i,
{
    if 0 <= i < hi && i < t.len() && !is_ascii_ws(t[i]) {
        if t[i] == '\\' {
            bare_scan(t, i + 2, hi)
        } else {
            bare_scan(t, i + 1, hi)
        }
    } else {
        i
    }
}

/// The destination of a reference definition whose `:` stands at
/// `colon_index`, within the line that ends at `line_end`, as
/// `(href_start, href_end)`.
pub open spec fn definition_destination(t: Seq<char>, colon_index: int, line_end: int) -> Option<
    (int, int),
> {
    let index = skip_ascii_ws(t, colon_index + 1, line_end);
    if index >= line_end {
        None
    } else if t[index] == '<' {
        let href_start = index + 1;
        let cursor = angle_scan(t, href_start, line_end);
        if cursor >= line_end || t[cursor] != '>' || cursor == href_start {
            None
        } else {
            Some((href_start, cursor))
        }
    } else {
        let end = bare_scan(t, index, line_end);
        if end == index {
            None
        } else {
            Some((index, end))
        }
    }
}

pub proof fn lemma_bare_scan(t: Seq<char>, i: int, hi: int)
    requires
        0 <= i <= hi <= t.len(),
    ensures
        i <= bare_scan(t, i, hi) <= hi + 1,
        bare_scan(t, i, hi) == hi + 1 ==> hi >= 1 && t[hi - 1] == '\\',
    decreases hi + 1 - i,
{
    if 0 <= i < hi && i < t.len() && !is_ascii_ws(t[i]) {
        if t[i] == '\\' {
            if i + 2 <= hi {
                lemma_bare_scan(t, i + 2, hi);
            } else {
                assert(bare_scan(t, i + 2, hi) == i + 2);
            }
        } else {
            lemma_bare_scan(t, i + 1, hi);
        }
    }
}

pub proof fn lemma_definition_destination(t: Seq<char>, colon_index: int, line_end: int)
    requires
        0 <= colon_index,
        colon_index + 1 <= line_end <= t.len(),
    ensures
        definition_destination(t, colon_index, line_end) matches Some((s, e)) ==> colon_index < s
            < e <= line_end + 1,
{
    lemma_skip_ascii_ws(t, colon_index + 1, line_end);
    let index = skip_ascii_ws(t, colon_index + 1, line_end);
    if index < line_end {
        if t[index] == '<' {
            lemma_angle_scan(t, index + 1, line_end);
        } else {
            lemma_bare_scan(t, index, line_end);
        }
    }
}

/// The destination of the reference definition whose `:` stands at
/// `colon_index`, in the line that ends at `line_end`; `Err` when a trailing
/// escape carries it past the end of `t`.
pub fn definition_destination_core(
    t: &Vec<char>,
    colon_index: usize,
    line_end: usize,
) -> (r: Result<Option<(usize, usize)>, ()>)
    requires
        colon_index < line_end <= t@.len(),
    ensures
        match r {
            Ok(Some((s, e))) => definition_destination(t@, colon_index as int, line_end as int)
                == Some((s as int, e as int)),
            Ok(None) => definition_destination(t@, colon_index as int, line_end as int) is None,
            Err(()) => match definition_destination(t@, colon_index as int, line_end as int) {
                None => false,
                Some((_, e)) => e > t@.len(),
            },
        },
        r matches Ok(Some((s, e))) ==> s < e <= t@.len(),
{
    proof {
        lemma_definition_destination(t@, colon_index as int, line_end as int);
    }
    let mut index = skip_ascii_ws_exec(t, colon_index + 1, line_end);
    if index >= line_end {
        return Ok(None);
    }
    if t[index] == '<' {
        let href_start = index + 1;
        let cursor = angle_scan_exec(t, href_start, line_end);
        proof {
            lemma_angle_scan(t@, href_start as int, line_end as int);
        }
        if cursor >= line_end || t[cursor] != '>' || cursor == href_start {
            return Ok(None);
        }
        return Ok(Some((href_start, cursor)));
    }
    let href_start = index;
    while index < line_end && !ascii_ws(t[index])
        invariant
            href_start <= index <= line_end <= t@.len(),
            colon_index < line_end,
            href_start as int == skip_ascii_ws(t@, colon_index + 1, line_end as int),
            href_start < line_end,
            t@[href_start as int] != '<',
            bare_scan(t@, index as int, line_end as int) == bare_scan(
                t@,
                href_start as int,
                line_end as int,
            ),
        decreases line_end - index,
    {
        if t[index] == '\\' {
            if line_end - index >= 2 {
                index = index + 2;
            } else {
                // The escape runs one character past the end of the line.
                assert(bare_scan(t@, index + 2, line_end as int) == line_end + 1);
                assert(bare_scan(t@, index as int, line_end as int) == line_end + 1);
                assert(bare_scan(t@, href_start as int, line_end as int) == line_end + 1);
                assert(definition_destination(t@, colon_index as int, line_end as int) == Some(
                    (href_start as int, line_end + 1),
                ));
                if line_end < t.len() {
                    return Ok(Some((href_start, line_end + 1)));
                }
                return Err(());
            }
        } else {
            index = index + 1;
        }
    }
    if href_start == index {
        Ok(None)
    } else {
        Ok(Some((href_start, index)))
    }
}

/// The destination of the reference definition whose `:` stands at
/// `colon_index`, in the line that ends at `line_end`, as
/// `(href_start, href_end)`.
pub fn parse_reference_definition_destination(
    t: &Vec<char>,
    colon_index: usize,
    line_end: usize,
) -> (r: Option<(usize, usize)>)
    requires
        colon_index < line_end <= t@.len(),
        definition_destination(t@, colon_index as int, line_end as int) matches Some((_, e)) ==> e
            <= t@.len(),
    ensures
        opt_pair(r) == definition_destination(t@, colon_index as int, line_end as int),
{
    match definition_destination_core(t, colon_index, line_end) {
        Ok(r) => r,
        Err(()) => None,
    }
}

/// `o` with its positions widened to `int`.
pub open spec fn opt_pair(o: Option<(usize, usize)>) -> Option<(int, int)> {
    match o {
        Some((a, b)) => Some((a as int, b as int)),
        None => None,
    }
}

// ---------------------------------------------------------------------------
// Reference labels

/// Case-folds and collapses whitespace after trimming: the fold state is the
/// output so far and whether a space is pending.
pub open spec fn label_fold(s: Seq<char>, i: int, out: Seq<char>, pending: bool) -> Seq<char>
    decreases s.len() - i,
{
    if i < 0 || i >= s.len() {
        out
    } else if is_unicode_ws(s[i]) {
        label_fold(s, i + 1, out, out.len() > 0)
    } else if pending {
        label_fold(s, i + 1, out.push(' ') + char_lowercase(s[i]), false)
    } else {
        label_fold(s, i + 1, out + char_lowercase(s[i]), false)
    }
}

/// The normalised form of a reference label: trimmed, lowercased, and with
/// each inner whitespace run collapsed to one space.
pub open spec fn normalize_label(label: Seq<char>) -> Seq<char> {
    label_fold(trim(label), 0, Seq::empty(), false)
}

/// Normalises the label `t[lo..hi]`.
pub fn normalize_reference_label(t: &Vec<char>, lo: usize, hi: usize) -> (r: String)
    requires
        lo <= hi <= t@.len(),
    ensures
        r@ == normalize_label(t@.subrange(lo as int, hi as int)),
        forall|j: int|
            0 <= j < trim(t@.subrange(lo as int, hi as int)).len() && is_ascii_char(
                #[trigger] trim(t@.subrange(lo as int, hi as int))[j],
            ) ==> char_lowercase(trim(t@.subrange(lo as int, hi as int))[j]) == seq![
                ascii_lower(trim(t@.subrange(lo as int, hi as int))[j]),
            ] || is_unicode_ws(trim(t@.subrange(lo as int, hi as int))[j]),
{
    let ghost label = t@.subrange(lo as int, hi as int);
    let (a, b) = trim_range(t, lo, hi);
    proof {
        lemma_trim_shift(t@, lo as int, hi as int);
    }
    let ghost trimmed = t@.subrange(a as int, b as int);
    assert(trimmed == trim(label));
    let mut normalized = String::new();
    let mut pending_space = false;
    let mut i = a;
    while i < b
        invariant
            a <= i <= b <= t@.len(),
            trimmed == t@.subrange(a as int, b as int),
            label_fold(trimmed, i - a, normalized@, pending_space) == label_fold(
                trimmed,
                0,
                Seq::empty(),
                false,
            ),
            forall|j: int|
                0 <= j < i - a && is_ascii_char(#[trigger] trimmed[j]) ==> char_lowercase(trimmed[j])
                    == seq![ascii_lower(trimmed[j])] || is_unicode_ws(trimmed[j]),
        decreases b - i,
    {
        let ch = t[i];
        assert(trimmed[i - a] == ch);
        if unicode_ws(ch) {
            pending_space = string_nonempty(&normalized);
            i = i + 1;
            continue;
        }
        if pending_space {
            push_char(&mut normalized, ' ');
            pending_space = false;
        }
        push_lowercase(&mut normalized, ch);
        i = i + 1;
    }
    normalized
}

fn string_nonempty(s: &String) -> (b: bool)
    ensures
        b == (s@.len() > 0),
{
    !s.as_str().is_empty()
}

proof fn lemma_trim_shift(t: Seq<char>, lo: int, hi: int)
    requires
        0 <= lo <= hi <= t.len(),
    ensures
        ({
            let (a, b) = trim_bounds(t, lo, hi);
            t.subrange(a, b) == trim(t.subrange(lo, hi))
        }),
{
    let s = t.subrange(lo, hi);
    lemma_skip_shift(t, lo, hi, lo);
    lemma_skip_unicode_ws(t, lo, hi);
    let a = skip_unicode_ws(t, lo, hi);
    lemma_back_shift(t, lo, hi, a, hi);
    lemma_back_unicode_ws(t, a, hi);
    let b = back_unicode_ws(t, a, hi);
    assert(t.subrange(a, b) =~= s.subrange(a - lo, b - lo));
}

proof fn lemma_skip_shift(t: Seq<char>, lo: int, hi: int, i: int)
    requires
        0 <= lo <= i <= hi <= t.len(),
    ensures
        skip_unicode_ws(t, i, hi) - lo == skip_unicode_ws(
            t.subrange(lo, hi),
            i - lo,
            hi - lo,
        ),
    decreases hi - i,
{
    if i < hi && is_unicode_ws(t[i]) {
        lemma_skip_shift(t, lo, hi, i + 1);
    }
}

proof fn lemma_back_shift(t: Seq<char>, lo: int, hi: int, a: int, j: int)
    requires
        0 <= lo <= a <= j <= hi <= t.len(),
    ensures
        back_unicode_ws(t, a, j) - lo == back_unicode_ws(t.subrange(lo, hi), a - lo, j - lo),
    decreases j - a,
{
    if j > a && is_unicode_ws(t[j - 1]) {
        lemma_back_shift(t, lo, hi, a, j - 1);
    }
}

// ---------------------------------------------------------------------------
// Code regions

/// Whether `pos` falls inside any of the half-open `ranges`.
pub open spec fn in_ranges(pos: int, ranges: Seq<(usize, usize)>) -> bool {
    exists|k: int| 0 <= k < ranges.len() && (#[trigger] ranges[k]).0 <= pos < ranges[k].1
}

/// Returns true if `pos` falls inside any of the suppressed ranges.
pub fn is_suppressed(pos: usize, ranges: &Vec<(usize, usize)>) -> (b: bool)
    ensures
        b == in_ranges(pos as int, ranges@),
{
    let mut k: usize = 0;
    while k < ranges.len()
        invariant
            k <= ranges@.len(),
            forall|m: int| 0 <= m < k ==> !((#[trigger] ranges@[m]).0 <= pos < ranges@[m].1),
        decreases ranges.len() - k,
    {
        let (s, e) = ranges[k];
        if s <= pos && pos < e {
            return true;
        }
        k = k + 1;
    }
    false
}

/// Up to three spaces of indentation from `i`.
pub open spec fn indent_from(t: Seq<char>, i: int, k: int) -> int
    decreases 3 - k,
{
    if 0 <= k < 3 && 0 <= i + k < t.len() && t[i + k] == ' ' {
        indent_from(t, i, k + 1)
    } else {
        i + k
    }
}

pub open spec fn skip_indent(t: Seq<char>, i: int) -> int {
    indent_from(t, i, 0)
}

/// End of the run of `ch` that starts at `c`.
pub open spec fn run_end(t: Seq<char>, c: int, ch: char) -> int
    decreases t.len() - c,
{
    if 0 <= c < t.len() && t[c] == ch {
        run_end(t, c + 1, ch)
    } else {
        c
    }
}

/// Whether `ch` occurs between `c` and the end of its line.
pub open spec fn line_has(t: Seq<char>, c: int, ch: char) -> bool
    decreases t.len() - c,
{
    if 0 <= c < t.len() && t[c] != '\n' {
        t[c] == ch || line_has(t, c + 1, ch)
    } else {
        false
    }
}

/// Whether the rest of the line from `r` is ASCII whitespace.
pub open spec fn rest_is_ws(t: Seq<char>, r: int) -> bool
    decreases t.len() - r,
{
    if 0 <= r < t.len() && t[r] != '\n' {
        is_ascii_ws(t[r]) && rest_is_ws(t, r + 1)
    } else {
        true
    }
}

/// Whether the line at `j` closes a fence of `len` characters `fc`.
pub open spec fn closes_fence(t: Seq<char>, j: int, fc: char, len: int) -> bool {
    let cc = skip_indent(t, j);
    &&& cc < t.len()
    &&& t[cc] == fc
    &&& run_end(t, cc, fc) - cc >= len
    &&& rest_is_ws(t, run_end(t, cc, fc))
}

/// From the line at `j`, the end (past its `'\n'`) of the first line that
/// closes the fence.
pub open spec fn find_fence_close(t: Seq<char>, j: int, fc: char, len: int) -> Option<int>
    decreases t.len() - j,
{
    if j < 0 || j >= t.len() {
        None
    } else if closes_fence(t, j, fc, len) {
        Some(advance_line(t, j))
    } else {
        proof {
            lemma_line_end(t, j);
        }
        find_fence_close(t, advance_line(t, j), fc, len)
    }
}

pub proof fn lemma_find_fence_close(t: Seq<char>, j: int, fc: char, len: int)
    requires
        0 <= j,
    ensures
        find_fence_close(t, j, fc, len) matches Some(e) ==> j < e <= t.len(),
    decreases t.len() - j,
{
    if j < t.len() {
        lemma_line_end(t, j);
        if !closes_fence(t, j, fc, len) {
            lemma_find_fence_close(t, advance_line(t, j), fc, len);
        }
    }
}

/// Pass over the lines from `i` that collects fenced code blocks (opened by
/// three or more backticks or tildes after at most three spaces, closed by a
/// run at least as long, or running to the end of `t`).
pub open spec fn fence_pass(t: Seq<char>, i: int, acc: Seq<(usize, usize)>) -> Seq<(usize, usize)>
    decreases t.len() - i,
{
    if i < 0 || i >= t.len() {
        acc
    } else {
        let col = skip_indent(t, i);
        proof {
            lemma_line_end(t, i);
        }
        if !(col < t.len() && (t[col] == '`' || t[col] == '~')) {
            fence_pass(t, advance_line(t, i), acc)
        } else {
            let fc = t[col];
            let ce = run_end(t, col, fc);
            if ce - col < 3 || (fc == '`' && line_has(t, ce, '`')) {
                fence_pass(t, advance_line(t, i), acc)
            } else {
                proof {
                    lemma_find_fence_close(t, advance_line(t, i), fc, ce - col);
                }
                match find_fence_close(t, advance_line(t, i), fc, ce - col) {
                    Some(e) => fence_pass(t, e, acc.push((i as usize, e as usize))),
                    None => acc.push((i as usize, t.len() as usize)),
                }
            }
        }
    }
}

/// From `j`, the end of the first unsuppressed backtick run of exactly `tick`
/// backticks.
pub open spec fn find_tick_close(t: Seq<char>, j: int, tick: int, sup: Seq<(usize, usize)>) -> Option<
    int,
>
    decreases t.len() - j,
{
    if j < 0 || j >= t.len() {
        None
    } else if in_ranges(j, sup) {
        find_tick_close(t, j + 1, tick, sup)
    } else if t[j] == '`' {
        let e = run_end(t, j, '`');
        proof {
            lemma_run_end(t, j, '`');
        }
        if e - j == tick {
            Some(e)
        } else {
            find_tick_close(t, e, tick, sup)
        }
    } else {
        find_tick_close(t, j + 1, tick, sup)
    }
}

/// Pass from `i` that adds inline code spans (backtick runs closed by a run of
/// the same length) outside the ranges found so far.
pub open spec fn span_pass(t: Seq<char>, i: int, sup: Seq<(usize, usize)>) -> Seq<(usize, usize)>
    decreases t.len() - i,
{
    if i < 0 || i >= t.len() {
        sup
    } else if in_ranges(i, sup) {
        span_pass(t, i + 1, sup)
    } else if t[i] != '`' {
        span_pass(t, i + 1, sup)
    } else {
        let oe = run_end(t, i, '`');
        proof {
            lemma_run_end(t, i, '`');
            lemma_find_tick_close(t, oe, oe - i, sup);
        }
        match find_tick_close(t, oe, oe - i, sup) {
            Some(j) => span_pass(t, j, sup.push((i as usize, j as usize))),
            None => span_pass(t, oe, sup),
        }
    }
}

/// The character ranges in which links are not recognised: fenced code blocks
/// first, then inline code spans outside them.
pub open spec fn suppressed_ranges(t: Seq<char>) -> Seq<(usize, usize)> {
    span_pass(t, 0, fence_pass(t, 0, Seq::empty()))
}

pub proof fn lemma_run_end(t: Seq<char>, c: int, ch: char)
    requires
        0 <= c <= t.len(),
    ensures
        c <= run_end(t, c, ch) <= t.len(),
        c < t.len() && t[c] == ch ==> c < run_end(t, c, ch),
    decreases t.len() - c,
{
    if c < t.len() && t[c] == ch {
        lemma_run_end(t, c + 1, ch);
    }
}

pub proof fn lemma_find_tick_close(t: Seq<char>, j: int, tick: int, sup: Seq<(usize, usize)>)
    requires
        0 <= j,
    ensures
        find_tick_close(t, j, tick, sup) matches Some(e) ==> j < e <= t.len(),
    decreases t.len() - j,
{
    if 0 <= j < t.len() {
        if in_ranges(j, sup) {
            lemma_find_tick_close(t, j + 1, tick, sup);
        } else if t[j] == '`' {
            lemma_run_end(t, j, '`');
            if run_end(t, j, '`') - j != tick {
                lemma_find_tick_close(t, run_end(t, j, '`'), tick, sup);
            }
        } else {
            lemma_find_tick_close(t, j + 1, tick, sup);
        }
    }
}

fn skip_indent_exec(t: &Vec<char>, i: usize) -> (r: usize)
    requires
        i <= t@.len(),
    ensures
        r as int == skip_indent(t@, i as int),
        i <= r <= t@.len(),
        r <= i + 3,
{
    let n = t.len();
    let mut col = i;
    while col < n && col - i < 3 && t[col] == ' '
        invariant
            n == t@.len(),
            i <= col <= n,
            col <= i + 3,
            indent_from(t@, i as int, col - i) == skip_indent(t@, i as int),
        decreases n - col,
    {
        col = col + 1;
    }
    col
}

fn run_end_exec(t: &Vec<char>, c: usize, ch: char) -> (r: usize)
    requires
        c <= t@.len(),
    ensures
        r as int == run_end(t@, c as int, ch),
        c <= r <= t@.len(),
{
    let n = t.len();
    let mut k = c;
    while k < n && t[k] == ch
        invariant
            n == t@.len(),
            c <= k <= n,
            run_end(t@, k as int, ch) == run_end(t@, c as int, ch),
        decreases n - k,
    {
        k = k + 1;
    }
    k
}

fn line_has_exec(t: &Vec<char>, c: usize, ch: char) -> (b: bool)
    requires
        c <= t@.len(),
    ensures
        b == line_has(t@, c as int, ch),
{
    let n = t.len();
    let mut k = c;
    while k < n && t[k] != '\n'
        invariant
            n == t@.len(),
            c <= k <= n,
            line_has(t@, k as int, ch) == line_has(t@, c as int, ch),
        decreases n - k,
    {
        if t[k] == ch {
            return true;
        }
        k = k + 1;
    }
    false
}

fn rest_is_ws_exec(t: &Vec<char>, r: usize) -> (b: bool)
    requires
        r <= t@.len(),
    ensures
        b == rest_is_ws(t@, r as int),
{
    let n = t.len();
    let mut k = r;
    while k < n && t[k] != '\n'
        invariant
            n == t@.len(),
            r <= k <= n,
            rest_is_ws(t@, k as int) == rest_is_ws(t@, r as int),
        decreases n - k,
    {
        if !ascii_ws(t[k]) {
            return false;
        }
        k = k + 1;
    }
    true
}

fn find_fence_close_exec(t: &Vec<char>, start: usize, fc: char, len: usize) -> (r: Option<usize>)
    requires
        start <= t@.len(),
    ensures
        opt_int(r) == find_fence_close(t@, start as int, fc, len as int),
{
    let n = t.len();
    let mut j = start;
    while j < n
        invariant
            n == t@.len(),
            start <= j <= n,
            find_fence_close(t@, j as int, fc, len as int) == find_fence_close(
                t@,
                start as int,
                fc,
                len as int,
            ),
        decreases n - j,
    {
        let cc = skip_indent_exec(t, j);
        if cc < n && t[cc] == fc {
            let ce = run_end_exec(t, cc, fc);
            if ce - cc >= len && rest_is_ws_exec(t, ce) {
                return Some(advance_line_exec(t, j));
            }
        }
        j = advance_line_exec(t, j);
    }
    None
}

fn find_tick_close_exec(t: &Vec<char>, start: usize, tick: usize, sup: &Vec<(usize, usize)>) -> (r:
    Option<usize>)
    requires
        start <= t@.len(),
    ensures
        opt_int(r) == find_tick_close(t@, start as int, tick as int, sup@),
{
    let n = t.len();
    let mut j = start;
    while j < n
        invariant
            n == t@.len(),
            start <= j <= n,
            find_tick_close(t@, j as int, tick as int, sup@) == find_tick_close(
                t@,
                start as int,
                tick as int,
                sup@,
            ),
        decreases n - j,
    {
        if is_suppressed(j, sup) {
            j = j + 1;
            continue;
        }
        if t[j] == '`' {
            let close_start = j;
            proof {
                lemma_run_end(t@, j as int, '`');
            }
            j = run_end_exec(t, j, '`');
            if j - close_start == tick {
                return Some(j);
            }
        } else {
            j = j + 1;
        }
    }
    None
}

/// Whether every range of `rs` is non-empty and lies within `t`.
pub open spec fn ranges_within(t: Seq<char>, rs: Seq<(usize, usize)>) -> bool {
    forall|k: int| 0 <= k < rs.len() ==> (#[trigger] rs[k]).0 < rs[k].1 && rs[k].1 <= t.len()
}

/// Whether `t` holds no backtick and no tilde.
pub open spec fn no_code_marks(t: Seq<char>) -> bool {
    forall|k: int| 0 <= k < t.len() ==> #[trigger] t[k] != '`' && t[k] != '~'
}

proof fn lemma_fence_pass_within(t: Seq<char>, i: int, acc: Seq<(usize, usize)>)
    requires
        0 <= i,
        t.len() <= usize::MAX,
        ranges_within(t, acc),
    ensures
        ranges_within(t, fence_pass(t, i, acc)),
        no_code_marks(t) ==> fence_pass(t, i, acc) == acc,
    decreases t.len() - i,
{
    if i < t.len() {
        lemma_line_end(t, i);
        let col = skip_indent(t, i);
        let next = advance_line(t, i);
        if !(col < t.len() && (t[col] == '`' || t[col] == '~')) {
            lemma_fence_pass_within(t, next, acc);
        } else {
            let fc = t[col];
            let ce = run_end(t, col, fc);
            if ce - col < 3 || (fc == '`' && line_has(t, ce, '`')) {
                lemma_fence_pass_within(t, next, acc);
            } else {
                lemma_find_fence_close(t, next, fc, ce - col);
                match find_fence_close(t, next, fc, ce - col) {
                    Some(e) => {
                        let acc2 = acc.push((i as usize, e as usize));
                        assert(ranges_within(t, acc2)) by {
                            assert forall|k: int| 0 <= k < acc2.len() implies (#[trigger] acc2[k]).0
                                < acc2[k].1 && acc2[k].1 <= t.len() by {
                                if k < acc.len() {
                                    assert(acc2[k] == acc[k]);
                                }
                            }
                        }
                        lemma_fence_pass_within(t, e, acc2);
                    },
                    None => {
                        let acc2 = acc.push((i as usize, t.len() as usize));
                        assert forall|k: int| 0 <= k < acc2.len() implies (#[trigger] acc2[k]).0 < acc2[k].1
                            && acc2[k].1 <= t.len() by {
                            if k < acc.len() {
                                assert(acc2[k] == acc[k]);
                            }
                        }
                    },
                }
            }
        }
    }
}

proof fn lemma_span_pass_within(t: Seq<char>, i: int, sup: Seq<(usize, usize)>)
    requires
        0 <= i,
        t.len() <= usize::MAX,
        ranges_within(t, sup),
    ensures
        ranges_within(t, span_pass(t, i, sup)),
        no_code_marks(t) ==> span_pass(t, i, sup) == sup,
    decreases t.len() - i,
{
    if i < t.len() {
        if in_ranges(i, sup) {
            lemma_span_pass_within(t, i + 1, sup);
        } else if t[i] != '`' {
            lemma_span_pass_within(t, i + 1, sup);
        } else {
            let oe = run_end(t, i, '`');
            lemma_run_end(t, i, '`');
            lemma_find_tick_close(t, oe, oe - i, sup);
            match find_tick_close(t, oe, oe - i, sup) {
                Some(j) => {
                    let sup2 = sup.push((i as usize, j as usize));
                    assert forall|k: int| 0 <= k < sup2.len() implies (#[trigger] sup2[k]).0 < sup2[k].1
                        && sup2[k].1 <= t.len() by {
                        if k < sup.len() {
                            assert(sup2[k] == sup[k]);
                        }
                    }
                    lemma_span_pass_within(t, j, sup2);
                },
                None => {
                    lemma_span_pass_within(t, oe, sup);
                },
            }
        }
    }
}

/// Every suppressed range is non-empty and lies within the text, and a text
/// with neither a backtick nor a tilde has none.
pub proof fn lemma_suppressed_ranges_within(t: Seq<char>)
    requires
        t.len() <= usize::MAX,
    ensures
        ranges_within(t, suppressed_ranges(t)),
        no_code_marks(t) ==> suppressed_ranges(t) == Seq::<(usize, usize)>::empty(),
{
    lemma_fence_pass_within(t, 0, Seq::empty());
    lemma_span_pass_within(t, 0, fence_pass(t, 0, Seq::empty()));
}

/// Computes the character ranges that link parsing skips: fenced code blocks
/// (``` or ~~~) and inline code spans (backtick pairs).
pub fn compute_suppressed_ranges(t: &Vec<char>) -> (r: Vec<(usize, usize)>)
    ensures
        r@ == suppressed_ranges(t@),
        ranges_within(t@, r@),
        no_code_marks(t@) ==> r@.len() == 0,
{
    let n = t.len();
    proof {
        lemma_suppressed_ranges_within(t@);
    }
    let mut suppressed: Vec<(usize, usize)> = Vec::new();

    // Pass 1: fenced code blocks, line by line.
    let mut i: usize = 0;
    while i < n
        invariant
            n == t@.len(),
            i <= n,
            fence_pass(t@, i as int, suppressed@) == fence_pass(t@, 0, Seq::empty()),
        decreases n - i,
    {
        let line_start = i;
        let col = skip_indent_exec(t, i);
        if !(col < n && (t[col] == '`' || t[col] == '~')) {
            i = advance_line_exec(t, i);
            continue;
        }
        let fc = t[col];
        let ce = run_end_exec(t, col, fc);
        if ce - col < 3 || (fc == '`' && line_has_exec(t, ce, '`')) {
            i = advance_line_exec(t, i);
            continue;
        }
        let after = advance_line_exec(t, i);
        proof {
            lemma_find_fence_close(t@, after as int, fc, (ce - col) as int);
        }
        match find_fence_close_exec(t, after, fc, ce - col) {
            Some(close_end) => {
                suppressed.push((line_start, close_end));
                i = close_end;
            },
            None => {
                suppressed.push((line_start, n));
                i = n;
            },
        }
    }
    assert(suppressed@ == fence_pass(t@, 0, Seq::empty()));

    // Pass 2: inline code spans outside the regions found so far.
    let ghost fences = suppressed@;
    let mut i: usize = 0;
    while i < n
        invariant
            n == t@.len(),
            i <= n,
            span_pass(t@, i as int, suppressed@) == span_pass(t@, 0, fences),
        decreases n - i,
    {
        if is_suppressed(i, &suppressed) {
            i = i + 1;
            continue;
        }
        if t[i] != '`' {
            i = i + 1;
            continue;
        }
        let span_start = i;
        proof {
            lemma_run_end(t@, i as int, '`');
        }
        i = run_end_exec(t, i, '`');
        let tick_len = i - span_start;
        proof {
            lemma_find_tick_close(t@, i as int, tick_len as int, suppressed@);
        }
        match find_tick_close_exec(t, i, tick_len, &suppressed) {
            Some(j) => {
                suppressed.push((span_start, j));
                i = j;
            },
            None => {},
        }
    }
    suppressed
}

} // verus!
