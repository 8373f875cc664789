//! Character-level helpers over `String` and `&str`.
//!
//! Text is handled as a sequence of `char`s, and offsets inside the library
//! count characters; `byte_offsets` turns them into UTF-8 byte offsets.

use vstd::prelude::*;
use vstd::std_specs::iter::IteratorSpec;

verus! {

/// The characters of `s`, in order.
pub fn chars_of(s: &str) -> (v: Vec<char>)
    ensures
        v@ == s@,
{
    let mut v: Vec<char> = Vec::new();
    let it = s.chars();
    for c in iter: it
        invariant
            iter.seq() == s@,
            v@ == iter.seq().take(iter.index() as int),
    {
        v.push(c);
    }
    assert(v@ =~= s@);
    v
}

/// How many bytes encode `c` in UTF-8.
pub open spec fn utf8_width(c: char) -> nat {
    if (c as u32) < 0x80 {
        1
    } else if (c as u32) < 0x800 {
        2
    } else if (c as u32) < 0x10000 {
        3
    } else {
        4
    }
}

/// How many bytes encode `s` in UTF-8.
pub open spec fn utf8_len(s: Seq<char>) -> nat
    decreases s.len(),
{
    if s.len() == 0 {
        0
    } else {
        utf8_len(s.drop_last()) + utf8_width(s.last())
    }
}

pub proof fn lemma_utf8_len_concat(a: Seq<char>, b: Seq<char>)
    ensures
        utf8_len(a + b) == utf8_len(a) + utf8_len(b),
    decreases b.len(),
{
    if b.len() == 0 {
        assert(a + b =~= a);
    } else {
        lemma_utf8_len_concat(a, b.drop_last());
        assert((a + b).drop_last() =~= a + b.drop_last());
        assert((a + b).last() == b.last());
    }
}

proof fn lemma_utf8_len_encoded(s: Seq<char>)
    ensures
        utf8_len(s) == vstd::utf8::encode_utf8(s).len(),
    decreases s.len(),
{
    if s.len() > 0 {
        lemma_utf8_len_encoded(s.drop_first());
        lemma_utf8_len_concat(seq![s[0]], s.drop_first());
        assert(seq![s[0]] + s.drop_first() =~= s);
        assert(seq![s[0]].drop_last() =~= Seq::<char>::empty());
        assert(utf8_len(Seq::<char>::empty()) == 0);
        assert(seq![s[0]].last() == s[0]);
        assert(utf8_len(seq![s[0]]) == utf8_width(s[0]));
        vstd::utf8::char_is_scalar(s[0]);
        let u = s[0] as u32;
        assert(vstd::utf8::encode_scalar(u).len() == utf8_width(s[0]));
        assert(vstd::utf8::encode_utf8(s) == vstd::utf8::encode_scalar(u) + vstd::utf8::encode_utf8(
            s.drop_first(),
        ));
    }
}

/// The UTF-8 offset of each character position of `s`: `v[i]` is how many
/// bytes encode the first `i` characters.
pub fn byte_offsets(s: &str) -> (v: Vec<usize>)
    ensures
        v@.len() == s@.len() + 1,
        forall|i: int| 0 <= i <= s@.len() ==> #[trigger] v@[i] == utf8_len(s@.take(i)),
{
    let t = chars_of(s);
    let total = s.as_bytes().len();
    proof {
        lemma_utf8_len_encoded(s@);
    }
    let mut v: Vec<usize> = Vec::new();
    v.push(0);
    let mut n: usize = 0;
    let mut i: usize = 0;
    assert(s@.take(0) =~= Seq::<char>::empty());
    while i < t.len()
        invariant
            t@ == s@,
            i <= t@.len(),
            total == utf8_len(s@),
            n == utf8_len(s@.take(i as int)),
            v@.len() == i + 1,
            forall|j: int| 0 <= j <= i ==> #[trigger] v@[j] == utf8_len(s@.take(j)),
        decreases t.len() - i,
    {
        assert(s@.take(i + 1).drop_last() =~= s@.take(i as int));
        assert(s@.take(i + 1).last() == s@[i as int]);
        proof {
            lemma_utf8_len_concat(s@.take(i + 1), s@.skip(i + 1));
            assert(s@.take(i + 1) + s@.skip(i + 1) =~= s@);
        }
        let c = t[i] as u32;
        let w: usize = if c < 0x80 {
            1
        } else if c < 0x800 {
            2
        } else if c < 0x10000 {
            3
        } else {
            4
        };
        n = n + w;
        v.push(n);
        i = i + 1;
    }
    v
}

/// Appends one character to `s` (`String::push`).
#[verifier::external_body]
pub(crate) fn push_char(s: &mut String, c: char)
    ensures
        final(s)@ == old(s)@.push(c),
{
    s.push(c);
}

/// The lowercase mapping of `c` as `char::to_lowercase` yields it.
pub uninterp spec fn char_lowercase(c: char) -> Seq<char>;

/// The uppercase mapping of `c` as `char::to_uppercase` yields it.
pub uninterp spec fn char_uppercase(c: char) -> Seq<char>;

/// Whether `c` is an ASCII character.
pub open spec fn is_ascii_char(c: char) -> bool {
    (c as u32) < 0x80
}

/// `c` with an ASCII capital letter made small (`char::to_ascii_lowercase`).
pub open spec fn ascii_lower(c: char) -> char {
    if 'A' <= c <= 'Z' {
        ((c as u32) + 32) as char
    } else {
        c
    }
}

/// `c` with an ASCII small letter made capital (`char::to_ascii_uppercase`).
pub open spec fn ascii_upper(c: char) -> char {
    if 'a' <= c <= 'z' {
        ((c as u32) - 32) as char
    } else {
        c
    }
}

/// The characters of `char::to_lowercase` on `c`, collected into a string.
/// The standard library documents one or more characters, and for an ASCII
/// character the one character that `char::to_ascii_lowercase` gives.
#[verifier::external_body]
pub(crate) fn lowercase_of(c: char) -> (r: String)
    ensures
        r@ == char_lowercase(c),
        r@.len() > 0,
        is_ascii_char(c) ==> r@ == seq![ascii_lower(c)],
{
    c.to_lowercase().collect()
}

/// The characters of `char::to_uppercase` on `c`, collected into a string.
/// The standard library documents one or more characters, and for an ASCII
/// character the one character that `char::to_ascii_uppercase` gives.
#[verifier::external_body]
pub(crate) fn uppercase_of(c: char) -> (r: String)
    ensures
        r@ == char_uppercase(c),
        r@.len() > 0,
        is_ascii_char(c) ==> r@ == seq![ascii_upper(c)],
{
    c.to_uppercase().collect()
}

/// Appends the lowercase mapping of `c`.
pub(crate) fn push_lowercase(s: &mut String, c: char)
    ensures
        final(s)@ == old(s)@ + char_lowercase(c),
        final(s)@.len() > old(s)@.len(),
        is_ascii_char(c) ==> char_lowercase(c) == seq![ascii_lower(c)],
{
    let l = lowercase_of(c);
    push_str(s, l.as_str());
}

/// Appends the uppercase mapping of `c`.
pub(crate) fn push_uppercase(s: &mut String, c: char)
    ensures
        final(s)@ == old(s)@ + char_uppercase(c),
        final(s)@.len() > old(s)@.len(),
        is_ascii_char(c) ==> char_uppercase(c) == seq![ascii_upper(c)],
{
    let u = uppercase_of(c);
    push_str(s, u.as_str());
}

/// ASCII whitespace as `u8::is_ascii_whitespace` and `char::is_ascii_whitespace`
/// define it: space, tab, line feed, form feed and carriage return.
pub open spec fn is_ascii_ws(c: char) -> bool {
    c == ' ' || c == '\t' || c == '\n' || c == '\x0C' || c == '\r'
}

pub fn ascii_ws(c: char) -> (b: bool)
    ensures
        b == is_ascii_ws(c),
{
    c == ' ' || c == '\t' || c == '\n' || c == '\x0C' || c == '\r'
}

/// The Unicode `White_Space` property, which `char::is_whitespace` and
/// `str::trim` use.
pub open spec fn is_unicode_ws(c: char) -> bool {
    ('\t' <= c && c <= '\r') || c == ' ' || c == '\u{85}' || c == '\u{A0}' || c == '\u{1680}'
        || ('\u{2000}' <= c && c <= '\u{200A}') || c == '\u{2028}' || c == '\u{2029}'
        || c == '\u{202F}' || c == '\u{205F}' || c == '\u{3000}'
}

pub fn unicode_ws(c: char) -> (b: bool)
    ensures
        b == is_unicode_ws(c),
{
    ('\t' <= c && c <= '\r') || c == ' ' || c == '\u{85}' || c == '\u{A0}' || c == '\u{1680}'
        || ('\u{2000}' <= c && c <= '\u{200A}') || c == '\u{2028}' || c == '\u{2029}'
        || c == '\u{202F}' || c == '\u{205F}' || c == '\u{3000}'
}

pub open spec fn is_ascii_alnum(c: char) -> bool {
    ('a' <= c && c <= 'z') || ('A' <= c && c <= 'Z') || ('0' <= c && c <= '9')
}

pub open spec fn is_ascii_alpha(c: char) -> bool {
    ('a' <= c && c <= 'z') || ('A' <= c && c <= 'Z')
}

pub fn ascii_alnum(c: char) -> (b: bool)
    ensures
        b == is_ascii_alnum(c),
{
    ('a' <= c && c <= 'z') || ('A' <= c && c <= 'Z') || ('0' <= c && c <= '9')
}

pub fn ascii_alpha(c: char) -> (b: bool)
    ensures
        b == is_ascii_alpha(c),
{
    ('a' <= c && c <= 'z') || ('A' <= c && c <= 'Z')
}

/// First index at or after `i` (below `hi`) whose character is not Unicode
/// whitespace.
pub open spec fn skip_unicode_ws(t: Seq<char>, i: int, hi: int) -> int
    decreases hi - i,
{
    if i < hi && 0 <= i < t.len() && is_unicode_ws(t[i]) {
        skip_unicode_ws(t, i + 1, hi)
    } else {
        i
    }
}

/// Last boundary at or before `j` (above `lo`) that is not preceded by Unicode
/// whitespace.
pub open spec fn back_unicode_ws(t: Seq<char>, lo: int, j: int) -> int
    decreases j - lo,
{
    if j > lo && 0 < j <= t.len() && is_unicode_ws(t[j - 1]) {
        back_unicode_ws(t, lo, j - 1)
    } else {
        j
    }
}

/// `t[lo..hi].trim()` as a pair of bounds into `t`.
pub open spec fn trim_bounds(t: Seq<char>, lo: int, hi: int) -> (int, int) {
    let s = skip_unicode_ws(t, lo, hi);
    (s, back_unicode_ws(t, s, hi))
}

/// `s.trim()`.
pub open spec fn trim(s: Seq<char>) -> Seq<char> {
    let (a, b) = trim_bounds(s, 0, s.len() as int);
    s.subrange(a, b)
}

/// `s.trim_start()`.
pub open spec fn trim_start(s: Seq<char>) -> Seq<char> {
    s.subrange(skip_unicode_ws(s, 0, s.len() as int), s.len() as int)
}

pub proof fn lemma_skip_unicode_ws(t: Seq<char>, i: int, hi: int)
    requires
        0 <= i <= hi <= t.len(),
    ensures
        i <= skip_unicode_ws(t, i, hi) <= hi,
        forall|k: int| i <= k < skip_unicode_ws(t, i, hi) ==> is_unicode_ws(#[trigger] t[k]),
        skip_unicode_ws(t, i, hi) < hi ==> !is_unicode_ws(t[skip_unicode_ws(t, i, hi)]),
    decreases hi - i,
{
    if i < hi && is_unicode_ws(t[i]) {
        lemma_skip_unicode_ws(t, i + 1, hi);
    }
}

pub proof fn lemma_back_unicode_ws(t: Seq<char>, lo: int, j: int)
    requires
        0 <= lo <= j <= t.len(),
    ensures
        lo <= back_unicode_ws(t, lo, j) <= j,
        forall|k: int| back_unicode_ws(t, lo, j) <= k < j ==> is_unicode_ws(#[trigger] t[k]),
        back_unicode_ws(t, lo, j) > lo ==> !is_unicode_ws(t[back_unicode_ws(t, lo, j) - 1]),
    decreases j - lo,
{
    if j > lo && is_unicode_ws(t[j - 1]) {
        lemma_back_unicode_ws(t, lo, j - 1);
    }
}

/// Bounds of `t[lo..hi].trim()`.
pub fn trim_range(t: &Vec<char>, lo: usize, hi: usize) -> (r: (usize, usize))
    requires
        lo <= hi <= t@.len(),
    ensures
        r.0 as int == trim_bounds(t@, lo as int, hi as int).0,
        r.1 as int == trim_bounds(t@, lo as int, hi as int).1,
        lo <= r.0 <= r.1 <= hi,
{
    let mut a = lo;
    while a < hi && unicode_ws(t[a])
        invariant
            lo <= a <= hi <= t@.len(),
            skip_unicode_ws(t@, a as int, hi as int) == skip_unicode_ws(t@, lo as int, hi as int),
        decreases hi - a,
    {
        a = a + 1;
    }
    let mut b = hi;
    while b > a && unicode_ws(t[b - 1])
        invariant
            lo <= a <= b <= hi <= t@.len(),
            skip_unicode_ws(t@, lo as int, hi as int) == a,
            back_unicode_ws(t@, a as int, b as int) == back_unicode_ws(t@, a as int, hi as int),
        decreases b,
    {
        b = b - 1;
    }
    (a, b)
}

/// A `String` holding `t[lo..hi]`.
pub fn string_from(t: &Vec<char>, lo: usize, hi: usize) -> (s: String)
    requires
        lo <= hi <= t@.len(),
    ensures
        s@ == t@.subrange(lo as int, hi as int),
{
    let mut s = String::new();
    let mut i = lo;
    while i < hi
        invariant
            lo <= i <= hi <= t@.len(),
            s@ == t@.subrange(lo as int, i as int),
        decreases hi - i,
    {
        push_char(&mut s, t[i]);
        i = i + 1;
        assert(s@ =~= t@.subrange(lo as int, i as int));
    }
    s
}

/// Index of the first `c` in `s` at or after `i`; `s.len()` where there is none.
pub open spec fn first_index(s: Seq<char>, c: char, i: int) -> int
    decreases s.len() - i,
{
    if i >= s.len() {
        s.len() as int
    } else if s[i] == c {
        i
    } else {
        first_index(s, c, i + 1)
    }
}

pub proof fn lemma_first_index(s: Seq<char>, c: char, i: int)
    requires
        0 <= i <= s.len(),
    ensures
        i <= first_index(s, c, i) <= s.len(),
        first_index(s, c, i) < s.len() ==> s[first_index(s, c, i)] == c,
        forall|k: int| i <= k < first_index(s, c, i) ==> #[trigger] s[k] != c,
    decreases s.len() - i,
{
    if i < s.len() && s[i] != c {
        lemma_first_index(s, c, i + 1);
    }
}

/// `str::find(c)` on a character sequence.
pub fn find_char(t: &Vec<char>, c: char) -> (k: usize)
    ensures
        k == first_index(t@, c, 0),
        k <= t@.len(),
{
    let n = t.len();
    let mut k: usize = 0;
    while k < n && t[k] != c
        invariant
            n == t@.len(),
            k <= n,
            first_index(t@, c, k as int) == first_index(t@, c, 0),
        decreases n - k,
    {
        k = k + 1;
    }
    k
}

/// `t[lo..hi] == pat`.
pub open spec fn matches_at(t: Seq<char>, lo: int, pat: Seq<char>) -> bool {
    0 <= lo && lo + pat.len() <= t.len() && t.subrange(lo, lo + pat.len()) == pat
}

/// Whether `pat` occurs in `t` at `lo`.
pub fn matches_at_exec(t: &Vec<char>, lo: usize, pat: &Vec<char>) -> (b: bool)
    ensures
        b == matches_at(t@, lo as int, pat@),
{
    if lo > t.len() || pat.len() > t.len() - lo {
        return false;
    }
    let tl = t.len();
    let mut k: usize = 0;
    while k < pat.len()
        invariant
            tl == t@.len(),
            lo + pat@.len() <= t@.len(),
            k <= pat@.len(),
            forall|m: int| 0 <= m < k ==> t@[lo + m] == pat@[m],
        decreases pat.len() - k,
    {
        if t[lo + k] != pat[k] {
            assert(t@.subrange(lo as int, lo + pat@.len())[k as int] != pat@[k as int]);
            return false;
        }
        k = k + 1;
    }
    assert(t@.subrange(lo as int, lo + pat@.len()) =~= pat@);
    true
}

/// Whether the characters of `a` and `b` agree.
pub fn same_chars(a: &Vec<char>, b: &Vec<char>) -> (r: bool)
    ensures
        r == (a@ == b@),
{
    if a.len() != b.len() {
        return false;
    }
    let mut k: usize = 0;
    while k < a.len()
        invariant
            a@.len() == b@.len(),
            k <= a@.len(),
            forall|m: int| 0 <= m < k ==> a@[m] == b@[m],
        decreases a.len() - k,
    {
        if a[k] != b[k] {
            return false;
        }
        k = k + 1;
    }
    assert(a@ =~= b@);
    true
}

/// Appends the characters of `t[lo..hi]` to `s`.
pub fn push_range(s: &mut String, t: &Vec<char>, lo: usize, hi: usize)
    requires
        lo <= hi <= t@.len(),
    ensures
        final(s)@ == old(s)@ + t@.subrange(lo as int, hi as int),
{
    let ghost start = s@;
    let mut i = lo;
    while i < hi
        invariant
            lo <= i <= hi <= t@.len(),
            s@ == start + t@.subrange(lo as int, i as int),
        decreases hi - i,
    {
        push_char(s, t[i]);
        i = i + 1;
        assert(s@ =~= start + t@.subrange(lo as int, i as int));
    }
}

/// The decimal digit `d` (`d < 10`).
pub open spec fn digit(d: nat) -> char {
    if d == 0 {
        '0'
    } else if d == 1 {
        '1'
    } else if d == 2 {
        '2'
    } else if d == 3 {
        '3'
    } else if d == 4 {
        '4'
    } else if d == 5 {
        '5'
    } else if d == 6 {
        '6'
    } else if d == 7 {
        '7'
    } else if d == 8 {
        '8'
    } else {
        '9'
    }
}

/// `n` written in decimal, as `{}` formats an unsigned integer.
pub open spec fn decimal(n: nat) -> Seq<char>
    decreases n,
{
    if n < 10 {
        seq![digit(n)]
    } else {
        decimal(n / 10).push(digit(n % 10))
    }
}

/// `n` written in decimal, as `{}` formats a signed integer.
pub open spec fn signed_decimal(n: int) -> Seq<char> {
    if n < 0 {
        seq!['-'] + decimal((-n) as nat)
    } else {
        decimal(n as nat)
    }
}

fn digit_char(d: u64) -> (c: char)
    requires
        d < 10,
    ensures
        c == digit(d as nat),
{
    if d == 0 {
        '0'
    } else if d == 1 {
        '1'
    } else if d == 2 {
        '2'
    } else if d == 3 {
        '3'
    } else if d == 4 {
        '4'
    } else if d == 5 {
        '5'
    } else if d == 6 {
        '6'
    } else if d == 7 {
        '7'
    } else if d == 8 {
        '8'
    } else {
        '9'
    }
}

/// Appends `n` in decimal.
pub fn push_decimal(s: &mut String, n: u64)
    ensures
        final(s)@ == old(s)@ + decimal(n as nat),
    decreases n,
{
    if n >= 10 {
        push_decimal(s, n / 10);
    }
    push_char(s, digit_char(n % 10));
    assert(n >= 10 ==> decimal(n as nat) == decimal((n / 10) as nat).push(digit((n % 10) as nat)));
}

/// Appends `n` in decimal, with a leading `-` where it is negative.
pub fn push_signed_decimal(s: &mut String, n: i64)
    ensures
        final(s)@ == old(s)@ + signed_decimal(n as int),
{
    if n < 0 {
        push_char(s, '-');
        let m: u64 = if n == i64::MIN {
            9223372036854775808u64
        } else {
            (-n) as u64
        };
        push_decimal(s, m);
    } else {
        push_decimal(s, n as u64);
    }
}

/// Appends the characters of `t`.
pub fn push_str(s: &mut String, t: &str)
    ensures
        final(s)@ == old(s)@ + t@,
{
    s.append(t);
}

} // verus!
