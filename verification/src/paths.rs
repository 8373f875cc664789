//! Unix paths as `/`-separated strings, read the way `std::path::Path`
//! reads them: a root, an optional leading `.`, and the remaining
//! components. Repeated separators and inner `.` components carry no
//! meaning, so two paths are the same path when their views agree.

use vstd::prelude::*;
use crate::text::{chars_of, push_char};

verus! {

/// The pieces of `s` between `/` separators (`str::split('/')`).
pub open spec fn split_pieces(s: Seq<char>) -> Seq<Seq<char>>
    decreases s.len(),
{
    if s.len() == 0 {
        seq![Seq::empty()]
    } else {
        let p = split_pieces(s.drop_last());
        if s.last() == '/' {
            p.push(Seq::empty())
        } else {
            p.update(p.len() - 1, p.last().push(s.last()))
        }
    }
}

/// A piece that names a component: not empty and not `.`.
pub open spec fn is_normal_piece(p: Seq<char>) -> bool {
    p.len() > 0 && p != seq!['.']
}

/// The pieces that name components, in order.
pub open spec fn keep_normal(ps: Seq<Seq<char>>) -> Seq<Seq<char>>
    decreases ps.len(),
{
    if ps.len() == 0 {
        Seq::empty()
    } else if is_normal_piece(ps.last()) {
        keep_normal(ps.drop_last()).push(ps.last())
    } else {
        keep_normal(ps.drop_last())
    }
}

/// A path as `std::path::Path::components` sees it: rooted or not, whether a
/// relative path starts with `.`, and its other components (`..` among them).
pub struct PathView {
    pub abs: bool,
    pub cur: bool,
    pub parts: Seq<Seq<char>>,
}

pub open spec fn is_abs(s: Seq<char>) -> bool {
    s.len() > 0 && s[0] == '/'
}

pub open spec fn path_view(s: Seq<char>) -> PathView {
    PathView {
        abs: is_abs(s),
        cur: !is_abs(s) && split_pieces(s)[0] == seq!['.'],
        parts: keep_normal(split_pieces(s)),
    }
}

/// A part that can stand in a path: not empty, no separator, not `.`.
pub open spec fn part_ok(p: Seq<char>) -> bool {
    is_normal_piece(p) && !p.contains('/')
}

/// Views that `path_view` can produce.
pub open spec fn view_ok(v: PathView) -> bool {
    &&& !(v.abs && v.cur)
    &&& forall|k: int| 0 <= k < v.parts.len() ==> part_ok(#[trigger] v.parts[k])
}

/// `parts` joined with `/`.
pub open spec fn join_parts(parts: Seq<Seq<char>>) -> Seq<char>
    decreases parts.len(),
{
    if parts.len() == 0 {
        Seq::empty()
    } else if parts.len() == 1 {
        parts[0]
    } else {
        join_parts(parts.drop_last()) + seq!['/'] + parts.last()
    }
}

/// The canonical text of a path view.
pub open spec fn render(v: PathView) -> Seq<char> {
    if v.abs {
        seq!['/'] + join_parts(v.parts)
    } else if v.cur {
        if v.parts.len() == 0 {
            seq!['.']
        } else {
            seq!['.', '/'] + join_parts(v.parts)
        }
    } else {
        join_parts(v.parts)
    }
}

// ---------------------------------------------------------------------------
// Lemmas on splitting and joining

pub proof fn lemma_split_nonempty(s: Seq<char>)
    ensures
        split_pieces(s).len() >= 1,
        forall|k: int| 0 <= k < split_pieces(s).len() ==> !(#[trigger] split_pieces(s)[k]).contains(
            '/',
        ),
    decreases s.len(),
{
    if s.len() > 0 {
        lemma_split_nonempty(s.drop_last());
        let p = split_pieces(s.drop_last());
        if s.last() != '/' {
            assert forall|k: int| 0 <= k < split_pieces(s).len() implies !(
            #[trigger] split_pieces(s)[k]).contains('/') by {
                if k == p.len() - 1 {
                    let q = p.last().push(s.last());
                    if q.contains('/') {
                        let j = choose|j: int| 0 <= j < q.len() && q[j] == '/';
                        assert(p.last()[j] == '/');
                    }
                }
            }
        }
    }
}

/// Splitting a text with no separator gives the text itself.
pub proof fn lemma_split_plain(s: Seq<char>)
    requires
        !s.contains('/'),
    ensures
        split_pieces(s) == seq![s],
    decreases s.len(),
{
    if s.len() > 0 {
        assert(!s.drop_last().contains('/')) by {
            if s.drop_last().contains('/') {
                let j = choose|j: int| 0 <= j < s.drop_last().len() && s.drop_last()[j] == '/';
                assert(s[j] == '/');
            }
        }
        lemma_split_plain(s.drop_last());
        assert(s.last() != '/') by {
            assert(s[s.len() - 1] == s.last());
        }
        assert(s.drop_last().push(s.last()) =~= s);
    } else {
        assert(s =~= Seq::<char>::empty());
    }
}

/// Splitting `a / b` splits `a` and `b`.
pub proof fn lemma_split_concat(a: Seq<char>, b: Seq<char>)
    ensures
        ({
            let pa = split_pieces(a);
            let pb = split_pieces(b);
            split_pieces(a + seq!['/'] + b) == pa + pb
        }),
    decreases b.len(),
{
    lemma_split_nonempty(a);
    lemma_split_nonempty(b);
    if b.len() == 0 {
        assert((a + seq!['/'] + b).drop_last() =~= a);
        assert(split_pieces(b) == seq![Seq::<char>::empty()]);
        assert(split_pieces(a).push(Seq::<char>::empty()) =~= split_pieces(a) + seq![
            Seq::<char>::empty(),
        ]);
    } else {
        lemma_split_concat(a, b.drop_last());
        assert((a + seq!['/'] + b).drop_last() =~= a + seq!['/'] + b.drop_last());
        assert((a + seq!['/'] + b).last() == b.last());
        lemma_split_nonempty(b.drop_last());
        let pa = split_pieces(a);
        let pb0 = split_pieces(b.drop_last());
        if b.last() == '/' {
            assert((pa + pb0).push(Seq::<char>::empty()) =~= pa + pb0.push(Seq::<char>::empty()));
        } else {
            let q = pa + pb0;
            assert(q.update(q.len() - 1, q.last().push(b.last())) =~= pa + pb0.update(
                pb0.len() - 1,
                pb0.last().push(b.last()),
            ));
        }
    }
}

pub proof fn lemma_keep_normal_concat(a: Seq<Seq<char>>, b: Seq<Seq<char>>)
    ensures
        keep_normal(a + b) == keep_normal(a) + keep_normal(b),
    decreases b.len(),
{
    if b.len() == 0 {
        assert(a + b =~= a);
        assert(keep_normal(a) + keep_normal(b) =~= keep_normal(a));
    } else {
        lemma_keep_normal_concat(a, b.drop_last());
        assert((a + b).drop_last() =~= a + b.drop_last());
        assert((a + b).last() == b.last());
        if is_normal_piece(b.last()) {
            assert((keep_normal(a) + keep_normal(b.drop_last())).push(b.last()) =~= keep_normal(a)
                + keep_normal(b.drop_last()).push(b.last()));
        }
    }
}

/// The pieces of joined parts are the parts.
pub proof fn lemma_split_join(parts: Seq<Seq<char>>)
    requires
        parts.len() >= 1,
        forall|k: int| 0 <= k < parts.len() ==> !(#[trigger] parts[k]).contains('/'),
    ensures
        split_pieces(join_parts(parts)) == parts,
    decreases parts.len(),
{
    if parts.len() == 1 {
        lemma_split_plain(parts[0]);
        assert(seq![parts[0]] =~= parts);
    } else {
        lemma_split_join(parts.drop_last());
        lemma_split_concat(join_parts(parts.drop_last()), parts.last());
        lemma_split_plain(parts.last());
        assert(parts.drop_last() + seq![parts.last()] =~= parts);
    }
}

pub proof fn lemma_keep_normal_all(parts: Seq<Seq<char>>)
    requires
        forall|k: int| 0 <= k < parts.len() ==> is_normal_piece(#[trigger] parts[k]),
    ensures
        keep_normal(parts) == parts,
    decreases parts.len(),
{
    if parts.len() > 0 {
        lemma_keep_normal_all(parts.drop_last());
        assert(parts.drop_last().push(parts.last()) =~= parts);
    }
}

/// A character other than `/` that no part holds is not in the joined text.
pub proof fn lemma_join_parts_avoids(parts: Seq<Seq<char>>, c: char)
    requires
        c != '/',
        forall|k: int| 0 <= k < parts.len() ==> !(#[trigger] parts[k]).contains(c),
    ensures
        forall|i: int| 0 <= i < join_parts(parts).len() ==> #[trigger] join_parts(parts)[i] != c,
    decreases parts.len(),
{
    if parts.len() == 1 {
        assert forall|i: int| 0 <= i < join_parts(parts).len() implies #[trigger] join_parts(
            parts,
        )[i] != c by {
            if parts[0][i] == c {
                assert(parts[0].contains(c));
            }
        }
    } else if parts.len() > 1 {
        let d = parts.drop_last();
        assert forall|k: int| 0 <= k < d.len() implies !(#[trigger] d[k]).contains(c) by {
            assert(d[k] == parts[k]);
        }
        lemma_join_parts_avoids(d, c);
        let a = join_parts(d);
        let l = parts.last();
        assert(parts[parts.len() - 1] == l);
        assert forall|i: int| 0 <= i < join_parts(parts).len() implies #[trigger] join_parts(
            parts,
        )[i] != c by {
            if i < a.len() {
                assert(join_parts(parts)[i] == a[i]);
            } else if i == a.len() {
                assert(join_parts(parts)[i] == '/');
            } else {
                assert(join_parts(parts)[i] == l[i - a.len() - 1]);
                if l[i - a.len() - 1] == c {
                    assert(l.contains(c));
                }
            }
        }
    }
}

/// `path_view` reads back every view from its canonical text.
pub proof fn lemma_view_render(v: PathView)
    requires
        view_ok(v),
    ensures
        path_view(render(v)) == v,
{
    let r = render(v);
    let e: Seq<char> = Seq::empty();
    let dot: Seq<char> = seq!['.'];
    assert(seq![e].drop_last() =~= Seq::<Seq<char>>::empty());
    assert(seq![dot].drop_last() =~= Seq::<Seq<char>>::empty());
    assert(seq![dot].last() == dot);
    assert(seq![e].last() == e);
    assert(!is_normal_piece(dot));
    assert(!is_normal_piece(e));
    assert(keep_normal(Seq::<Seq<char>>::empty()) =~= Seq::<Seq<char>>::empty());
    assert(keep_normal(seq![dot]) == keep_normal(seq![dot].drop_last()));
    assert(keep_normal(seq![dot]) =~= Seq::<Seq<char>>::empty());
    assert(keep_normal(seq![e]) =~= Seq::<Seq<char>>::empty());
    if v.parts.len() > 0 {
        lemma_split_join(v.parts);
        lemma_keep_normal_all(v.parts);
    }
    if v.abs {
        if v.parts.len() > 0 {
            assert(r =~= e + seq!['/'] + join_parts(v.parts));
            lemma_split_concat(e, join_parts(v.parts));
            assert(split_pieces(e) == seq![e]);
            lemma_keep_normal_concat(seq![e], v.parts);
            assert(seq![e].last() == e);
            assert(keep_normal(seq![e]) == keep_normal(Seq::<Seq<char>>::empty()));
            assert(keep_normal(seq![e]) =~= Seq::<Seq<char>>::empty());
            assert(keep_normal(split_pieces(r)) =~= v.parts);
        } else {
            assert(r =~= seq!['/']);
            assert(r.drop_last() =~= e);
            assert(r.last() == '/');
            assert(split_pieces(e) == seq![e]);
            assert(split_pieces(r) == split_pieces(e).push(e));
            assert(split_pieces(r) =~= seq![e, e]);
            assert(seq![e, e].drop_last() =~= seq![e]);
            assert(keep_normal(seq![e]) == keep_normal(Seq::<Seq<char>>::empty()));
            assert(keep_normal(seq![e, e]) == keep_normal(seq![e]));
            assert(keep_normal(split_pieces(r)) =~= v.parts);
        }
        assert(r[0] == '/');
        assert(path_view(r).abs == v.abs);
        assert(path_view(r).cur == v.cur);
        assert(path_view(r).parts == v.parts);
    } else if v.cur {
        if v.parts.len() == 0 {
            lemma_split_plain(dot);
            assert(keep_normal(seq![dot]) =~= Seq::<Seq<char>>::empty());
            assert(r == dot);
            assert(keep_normal(split_pieces(r)) =~= v.parts);
        } else {
            assert(r =~= dot + seq!['/'] + join_parts(v.parts));
            lemma_split_concat(dot, join_parts(v.parts));
            lemma_split_plain(dot);
            lemma_keep_normal_concat(seq![dot], v.parts);
            assert(keep_normal(seq![dot]) =~= Seq::<Seq<char>>::empty());
            assert(split_pieces(r) == seq![dot] + v.parts);
            assert(split_pieces(r)[0] == dot);
            assert(keep_normal(split_pieces(r)) =~= v.parts);
        }
        assert(r[0] == '.');
        assert(path_view(r).abs == v.abs);
        assert(path_view(r).cur == v.cur);
        assert(path_view(r).parts == v.parts);
    } else {
        if v.parts.len() == 0 {
            assert(r =~= e);
            assert(split_pieces(r) == seq![e]);
            assert(keep_normal(seq![e]) =~= Seq::<Seq<char>>::empty());
            assert(!is_abs(r));
            assert(split_pieces(r)[0] != dot);
        } else {
            assert(split_pieces(r)[0] == v.parts[0]);
            assert(is_normal_piece(v.parts[0]));
            assert(part_ok(v.parts[0]));
            if r.len() > 0 && r[0] == '/' {
                lemma_join_first(v.parts);
                assert(v.parts[0].contains('/'));
            }
            assert(!is_abs(r));
        }
        assert(path_view(r).abs == v.abs);
        assert(path_view(r).cur == v.cur);
        assert(path_view(r).parts == v.parts);
    }
}

/// Joined parts are not empty where the first part is not.
pub proof fn lemma_join_parts_nonempty(parts: Seq<Seq<char>>)
    requires
        parts.len() > 0,
        parts[0].len() > 0,
    ensures
        join_parts(parts).len() > 0,
{
    if parts.len() > 1 {
        assert(join_parts(parts) == join_parts(parts.drop_last()) + seq!['/'] + parts.last());
    }
}

proof fn lemma_join_first(parts: Seq<Seq<char>>)
    requires
        parts.len() >= 1,
        parts[0].len() > 0,
        !parts[0].contains('/'),
    ensures
        join_parts(parts)[0] == parts[0][0],
    decreases parts.len(),
{
    if parts.len() > 1 {
        lemma_join_first(parts.drop_last());
        lemma_join_len(parts.drop_last());
    }
}

proof fn lemma_join_len(parts: Seq<Seq<char>>)
    requires
        parts.len() >= 1,
        parts[0].len() > 0,
    ensures
        join_parts(parts).len() >= parts[0].len(),
    decreases parts.len(),
{
    if parts.len() > 1 {
        lemma_join_len(parts.drop_last());
    }
}

/// Every view that `path_view` produces can be rendered and read back.
pub proof fn lemma_path_view_ok(s: Seq<char>)
    ensures
        view_ok(path_view(s)),
{
    lemma_split_nonempty(s);
    lemma_keep_normal_ok(split_pieces(s));
}

proof fn lemma_keep_normal_ok(ps: Seq<Seq<char>>)
    requires
        forall|k: int| 0 <= k < ps.len() ==> !(#[trigger] ps[k]).contains('/'),
    ensures
        forall|k: int| 0 <= k < keep_normal(ps).len() ==> part_ok(#[trigger] keep_normal(ps)[k]),
    decreases ps.len(),
{
    if ps.len() > 0 {
        assert(ps.last() == ps[ps.len() - 1]);
        lemma_keep_normal_ok(ps.drop_last());
        let kd = keep_normal(ps.drop_last());
        if is_normal_piece(ps.last()) {
            assert forall|k: int| 0 <= k < keep_normal(ps).len() implies part_ok(
                #[trigger] keep_normal(ps)[k],
            ) by {
                if k < kd.len() {
                    assert(keep_normal(ps)[k] == kd[k]);
                }
            }
        }
    }
}

// ---------------------------------------------------------------------------
// Executable paths

/// A path split into its components.
pub struct PathParts {
    pub absolute: bool,
    pub current: bool,
    pub parts: Vec<String>,
}

pub open spec fn string_views(v: Seq<String>) -> Seq<Seq<char>> {
    v.map_values(|s: String| s@)
}

pub proof fn lemma_string_views_push(v: Seq<String>, s: String)
    ensures
        string_views(v.push(s)) == string_views(v).push(s@),
{
    assert(string_views(v.push(s)) =~= string_views(v).push(s@));
}

impl View for PathParts {
    type V = PathView;

    open spec fn view(&self) -> PathView {
        PathView { abs: self.absolute, cur: self.current, parts: string_views(self.parts@) }
    }
}

/// Splits `s` into its components.
pub fn parse_path(s: &str) -> (p: PathParts)
    ensures
        p@ == path_view(s@),
        view_ok(p@),
{
    proof {
        lemma_path_view_ok(s@);
        lemma_split_nonempty(s@);
    }
    let t = chars_of(s);
    let n = t.len();
    let absolute = n > 0 && t[0] == '/';
    let mut parts: Vec<String> = Vec::new();
    let mut current_piece = String::new();
    let mut first_piece_is_dot = false;
    let mut seen_separator = false;
    let mut i: usize = 0;
    assert(t@.take(0) =~= Seq::<char>::empty());
    while i < n
        invariant
            n == t@.len(),
            t@ == s@,
            i <= n,
            ({
                let ps = split_pieces(t@.take(i as int));
                &&& ps.len() >= 1
                &&& current_piece@ == ps.last()
                &&& string_views(parts@) == keep_normal(ps.drop_last())
                &&& seen_separator == (ps.len() > 1)
                &&& seen_separator ==> first_piece_is_dot == (ps[0] == seq!['.'])
            }),
        decreases n - i,
    {
        proof {
            lemma_split_nonempty(t@.take(i as int));
            lemma_split_nonempty(t@.take(i + 1));
        }
        let ghost prev = split_pieces(t@.take(i as int));
        assert(t@.take(i + 1).drop_last() =~= t@.take(i as int));
        assert(t@.take(i + 1).last() == t@[i as int]);
        let c = t[i];
        if c == '/' {
            if !seen_separator {
                first_piece_is_dot = is_dot(&current_piece);
                seen_separator = true;
            }
            let normal = !is_dot(&current_piece) && !current_piece.as_str().is_empty();
            let ghost before = parts@;
            if normal {
                parts.push(current_piece);
                assert(string_views(parts@) =~= string_views(before).push(prev.last()));
            }
            current_piece = String::new();
            proof {
                let ps = split_pieces(t@.take(i + 1));
                assert(ps == prev.push(Seq::<char>::empty()));
                assert(ps.drop_last() =~= prev);
                assert(prev.drop_last().push(prev.last()) =~= prev);
            }
        } else {
            push_char(&mut current_piece, c);
            proof {
                let ps = split_pieces(t@.take(i + 1));
                assert(ps.drop_last() =~= prev.drop_last());
            }
        }
        i = i + 1;
    }
    assert(t@.take(n as int) =~= t@);
    let ghost ps = split_pieces(t@);
    let last_normal = !is_dot(&current_piece) && !current_piece.as_str().is_empty();
    let ghost before = parts@;
    let current = if seen_separator {
        !absolute && first_piece_is_dot
    } else {
        !absolute && is_dot(&current_piece)
    };
    if last_normal {
        parts.push(current_piece);
        assert(string_views(parts@) =~= string_views(before).push(ps.last()));
    }
    assert(ps.drop_last().push(ps.last()) =~= ps);
    PathParts { absolute, current, parts }
}

fn is_dot(s: &String) -> (b: bool)
    ensures
        b == (s@ == seq!['.']),
{
    let t = chars_of(s.as_str());
    if t.len() == 1 && t[0] == '.' {
        assert(t@ =~= seq!['.']);
        true
    } else {
        false
    }
}

/// Appends the characters of `p` to `s`.
pub fn push_string(s: &mut String, p: &String)
    ensures
        final(s)@ == old(s)@ + p@,
{
    s.append(p.as_str());
}

/// The canonical text of `p`.
pub fn render_path(p: &PathParts) -> (s: String)
    ensures
        s@ == render(p@),
{
    let mut s = String::new();
    if p.absolute {
        push_char(&mut s, '/');
    } else if p.current {
        push_char(&mut s, '.');
        if p.parts.len() > 0 {
            push_char(&mut s, '/');
        }
    }
    let ghost prefix = s@;
    let mut k: usize = 0;
    while k < p.parts.len()
        invariant
            k <= p.parts@.len(),
            s@ == prefix + join_parts(string_views(p.parts@).take(k as int)),
        decreases p.parts.len() - k,
    {
        let ghost sv = string_views(p.parts@);
        assert(sv.take(k + 1).drop_last() =~= sv.take(k as int));
        assert(sv.take(k + 1).last() == p.parts@[k as int]@);
        if k > 0 {
            push_char(&mut s, '/');
        }
        push_string(&mut s, &p.parts[k]);
        k = k + 1;
        assert(k == 1 ==> sv.take(1) =~= seq![sv[0]]);
    }
    assert(string_views(p.parts@).take(p.parts@.len() as int) =~= string_views(p.parts@));
    if p.absolute {
        assert(s@ =~= render(p@));
    } else if p.current {
        assert(s@ =~= render(p@));
    } else {
        assert(s@ =~= render(p@));
    }
    s
}

/// Whether `s` is an absolute path.
pub fn path_is_absolute(s: &str) -> (b: bool)
    ensures
        b == is_abs(s@),
{
    let t = chars_of(s);
    t.len() > 0 && t[0] == '/'
}

/// Whether the parts agree.
pub fn same_parts(a: &Vec<String>, b: &Vec<String>) -> (r: bool)
    ensures
        r == (string_views(a@) == string_views(b@)),
{
    if a.len() != b.len() {
        assert(string_views(a@).len() != string_views(b@).len());
        return false;
    }
    let mut k: usize = 0;
    while k < a.len()
        invariant
            a@.len() == b@.len(),
            k <= a@.len(),
            forall|m: int| 0 <= m < k ==> a@[m]@ == b@[m]@,
        decreases a.len() - k,
    {
        if a[k] != b[k] {
            assert(string_views(a@)[k as int] != string_views(b@)[k as int]);
            return false;
        }
        k = k + 1;
    }
    assert(string_views(a@) =~= string_views(b@));
    true
}

/// Whether `a` and `b` name the same path (`Path`'s `==`).
pub fn same_path(a: &str, b: &str) -> (r: bool)
    ensures
        r == (path_view(a@) == path_view(b@)),
{
    let pa = parse_path(a);
    let pb = parse_path(b);
    pa.absolute == pb.absolute && pa.current == pb.current && same_parts(&pa.parts, &pb.parts)
}

pub open spec fn opt_view(o: Option<String>) -> Option<Seq<char>> {
    match o {
        Some(s) => Some(s@),
        None => None,
    }
}

/// `Path::parent` on views: the path without its last component; `None` for
/// a root and for the empty path.
pub open spec fn parent_view(v: PathView) -> Option<PathView> {
    if v.parts.len() > 0 {
        Some(PathView { abs: v.abs, cur: v.cur, parts: v.parts.drop_last() })
    } else if v.cur {
        Some(PathView { abs: false, cur: false, parts: Seq::empty() })
    } else {
        None
    }
}

/// `Path::parent`, rendered canonically.
pub fn path_parent(s: &str) -> (r: Option<String>)
    ensures
        match r {
            Some(p) => parent_view(path_view(s@)) == Some(path_view(p@)) && p@ == render(
                parent_view(path_view(s@)).unwrap(),
            ),
            None => parent_view(path_view(s@)) is None,
        },
{
    let mut p = parse_path(s);
    if p.parts.len() > 0 {
        let ghost before = p.parts@;
        p.parts.pop();
        assert(string_views(p.parts@) =~= string_views(before).drop_last());
        let r = render_path(&p);
        proof {
            lemma_view_render(p@);
        }
        Some(r)
    } else if p.current {
        let q = PathParts { absolute: false, current: false, parts: Vec::new() };
        assert(string_views(q.parts@) =~= Seq::<Seq<char>>::empty());
        let r = render_path(&q);
        proof {
            lemma_view_render(q@);
        }
        Some(r)
    } else {
        None
    }
}

/// `Path::file_name`: the last component, unless it is `..`.
pub open spec fn file_name_view(v: PathView) -> Option<Seq<char>> {
    if v.parts.len() > 0 && v.parts.last() != seq!['.', '.'] {
        Some(v.parts.last())
    } else {
        None
    }
}

pub fn path_file_name(s: &str) -> (r: Option<String>)
    ensures
        opt_view(r) == file_name_view(path_view(s@)),
{
    let mut p = parse_path(s);
    match p.parts.pop() {
        Some(last) => {
            if is_dot_dot(&last) {
                None
            } else {
                Some(last)
            }
        },
        None => None,
    }
}

fn is_dot_dot(s: &String) -> (b: bool)
    ensures
        b == (s@ == seq!['.', '.']),
{
    let t = chars_of(s.as_str());
    if t.len() == 2 && t[0] == '.' && t[1] == '.' {
        assert(t@ =~= seq!['.', '.']);
        true
    } else {
        false
    }
}

/// Index of the last `.` in `name`, if any.
pub open spec fn last_dot(name: Seq<char>, k: int) -> Option<int>
    decreases k,
{
    if k <= 0 {
        None
    } else if name[k - 1] == '.' {
        Some(k - 1)
    } else {
        last_dot(name, k - 1)
    }
}

/// `Path::extension` of a file name: the text after its last `.`, unless the
/// only `.` starts the name.
pub open spec fn extension_of(name: Seq<char>) -> Option<Seq<char>> {
    match last_dot(name, name.len() as int) {
        Some(d) => if d == 0 {
            None
        } else {
            Some(name.subrange(d + 1, name.len() as int))
        },
        None => None,
    }
}

/// `Path::file_stem` of a file name: the text before its last `.`, or the whole
/// name when it has no extension.
pub open spec fn stem_of(name: Seq<char>) -> Seq<char> {
    match last_dot(name, name.len() as int) {
        Some(d) => if d == 0 {
            name
        } else {
            name.subrange(0, d)
        },
        None => name,
    }
}

proof fn lemma_last_dot(name: Seq<char>, k: int)
    requires
        0 <= k <= name.len(),
    ensures
        last_dot(name, k) matches Some(d) ==> 0 <= d < k && name[d] == '.',
    decreases k,
{
    if k > 0 && name[k - 1] != '.' {
        lemma_last_dot(name, k - 1);
    }
}

fn find_last_dot(t: &Vec<char>) -> (r: Option<usize>)
    ensures
        match r {
            Some(d) => last_dot(t@, t@.len() as int) == Some(d as int) && d < t@.len(),
            None => last_dot(t@, t@.len() as int) is None,
        },
{
    let mut k = t.len();
    while k > 0
        invariant
            k <= t@.len(),
            last_dot(t@, k as int) == last_dot(t@, t@.len() as int),
        decreases k,
    {
        if t[k - 1] == '.' {
            return Some(k - 1);
        }
        k = k - 1;
    }
    None
}

/// The extension of the file name of `s` (`Path::extension`).
pub open spec fn path_extension_view(s: Seq<char>) -> Option<Seq<char>> {
    match file_name_view(path_view(s)) {
        Some(name) => extension_of(name),
        None => None,
    }
}

/// The stem of the file name of `s` (`Path::file_stem`).
pub open spec fn path_stem_view(s: Seq<char>) -> Option<Seq<char>> {
    match file_name_view(path_view(s)) {
        Some(name) => Some(stem_of(name)),
        None => None,
    }
}

pub fn path_extension(s: &str) -> (r: Option<String>)
    ensures
        opt_view(r) == path_extension_view(s@),
{
    match path_file_name(s) {
        Some(name) => {
            let t = chars_of(name.as_str());
            let n = t.len();
            match find_last_dot(&t) {
                Some(d) => {
                    if d == 0 {
                        None
                    } else {
                        Some(crate::text::string_from(&t, d + 1, n))
                    }
                },
                None => None,
            }
        },
        None => None,
    }
}

pub fn path_file_stem(s: &str) -> (r: Option<String>)
    ensures
        opt_view(r) == path_stem_view(s@),
{
    match path_file_name(s) {
        Some(name) => {
            let t = chars_of(name.as_str());
            match find_last_dot(&t) {
                Some(d) => {
                    if d == 0 {
                        Some(name)
                    } else {
                        Some(crate::text::string_from(&t, 0, d))
                    }
                },
                None => Some(name),
            }
        },
        None => None,
    }
}

/// Whether the extension of `s` is `ext`.
pub fn has_extension(s: &str, ext: &str) -> (b: bool)
    ensures
        b == (path_extension_view(s@) == Some(ext@)),
{
    match path_extension(s) {
        Some(e) => {
            let a = chars_of(e.as_str());
            let b = chars_of(ext);
            crate::text::same_chars(&a, &b)
        },
        None => false,
    }
}

/// `PathBuf::push` on views: an absolute `rel` replaces `base`; otherwise the
/// components of `rel` follow those of `base`.
pub open spec fn join_view(base: PathView, rel: PathView) -> PathView {
    if rel.abs {
        rel
    } else {
        PathView {
            abs: base.abs,
            cur: base.cur || (!base.abs && base.parts.len() == 0 && rel.cur),
            parts: base.parts + rel.parts,
        }
    }
}

/// The text of `Path::new(base).join(rel)`: `rel` where it is absolute,
/// else `base` and `rel` with a `/` between them unless `base` is empty or
/// already ends with one.
pub open spec fn joined_text(base: Seq<char>, rel: Seq<char>) -> Seq<char> {
    if is_abs(rel) {
        rel
    } else if base.len() > 0 && base.last() != '/' {
        base + seq!['/'] + rel
    } else {
        base + rel
    }
}

/// The joined text names the path that `join_view` gives.
pub proof fn lemma_joined_text_view(base: Seq<char>, rel: Seq<char>)
    ensures
        path_view(joined_text(base, rel)) == join_view(path_view(base), path_view(rel)),
{
    lemma_split_nonempty(base);
    lemma_split_nonempty(rel);
    if is_abs(rel) {
    } else if base.len() == 0 {
        assert(base + rel =~= rel);
        assert(split_pieces(base) =~= seq![Seq::<char>::empty()]);
        lemma_keep_normal_one(Seq::<char>::empty());
        assert(Seq::<Seq<char>>::empty() + keep_normal(split_pieces(rel)) =~= keep_normal(split_pieces(rel)));
    } else {
        let b2 = if base.last() != '/' { base } else { base.drop_last() };
        let t = joined_text(base, rel);
        assert(t =~= b2 + seq!['/'] + rel);
        lemma_split_concat(b2, rel);
        lemma_split_nonempty(b2);
        lemma_keep_normal_concat(split_pieces(b2), split_pieces(rel));
        if base.last() == '/' {
            assert(base =~= b2 + seq!['/'] + Seq::<char>::empty());
            lemma_split_concat(b2, Seq::<char>::empty());
            assert(split_pieces(Seq::<char>::empty()) =~= seq![Seq::<char>::empty()]);
            lemma_keep_normal_concat(split_pieces(b2), seq![Seq::<char>::empty()]);
            lemma_keep_normal_one(Seq::<char>::empty());
            assert(keep_normal(split_pieces(b2)) + Seq::<Seq<char>>::empty() =~= keep_normal(split_pieces(b2)));
            assert(keep_normal(split_pieces(base)) =~= keep_normal(split_pieces(b2)));
            assert(split_pieces(base)[0] == split_pieces(b2)[0]);
        }
        assert(split_pieces(t)[0] == split_pieces(b2)[0]);
        assert(t[0] == base[0]);
        let bv = path_view(base);
        if !bv.abs && bv.parts.len() == 0 && !bv.cur {
            // A relative text without components starts with an empty or `.`
            // piece; an empty one would make it absolute or empty.
            lemma_first_piece(base);
            lemma_keep_normal_none(split_pieces(base));
            assert(!is_normal_piece(split_pieces(base)[0]));
            assert(false);
        }
    }
}

/// The joined text and the canonical rendering of the joined view name the
/// same path.
pub proof fn lemma_joined_text_canonical(base: Seq<char>, rel: Seq<char>)
    ensures
        path_view(joined_text(base, rel)) == path_view(render(join_view(path_view(base), path_view(rel)))),
{
    lemma_joined_text_view(base, rel);
    lemma_path_view_ok(base);
    lemma_path_view_ok(rel);
    let v = join_view(path_view(base), path_view(rel));
    assert(view_ok(v)) by {
        if !path_view(rel).abs {
            assert forall|k: int| 0 <= k < v.parts.len() implies part_ok(#[trigger] v.parts[k]) by {
                if k < path_view(base).parts.len() {
                    assert(v.parts[k] == path_view(base).parts[k]);
                } else {
                    assert(v.parts[k] == path_view(rel).parts[k - path_view(base).parts.len()]);
                }
            }
        }
    }
    lemma_view_render(v);
}

proof fn lemma_first_piece(s: Seq<char>)
    requires
        s.len() > 0,
        !is_abs(s),
    ensures
        split_pieces(s)[0].len() > 0,
    decreases s.len(),
{
    lemma_split_nonempty(s);
    if s.len() == 1 {
        assert(s.drop_last() =~= Seq::<char>::empty());
        assert(split_pieces(s.drop_last()) =~= seq![Seq::<char>::empty()]);
        assert(split_pieces(s)[0] =~= seq![s[0]]);
    } else {
        lemma_first_piece(s.drop_last());
        assert(s.drop_last()[0] == s[0]);
        let p = split_pieces(s.drop_last());
        lemma_split_nonempty(s.drop_last());
        if s.last() == '/' {
            assert(split_pieces(s)[0] == p[0]);
        } else if p.len() == 1 {
            assert(split_pieces(s)[0] == p[0].push(s.last()));
        } else {
            assert(split_pieces(s)[0] == p[0]);
        }
    }
}

proof fn lemma_keep_normal_one(x: Seq<char>)
    ensures
        keep_normal(seq![x]) == (if is_normal_piece(x) { seq![x] } else { Seq::<Seq<char>>::empty() }),
{
    assert(seq![x].drop_last() =~= Seq::<Seq<char>>::empty());
    assert(keep_normal(Seq::<Seq<char>>::empty()) == Seq::<Seq<char>>::empty());
    assert(seq![x].last() == x);
    if is_normal_piece(x) {
        assert(Seq::<Seq<char>>::empty().push(x) =~= seq![x]);
    }
}

proof fn lemma_keep_normal_none(ps: Seq<Seq<char>>)
    ensures
        keep_normal(ps).len() == 0 ==> forall|k: int| 0 <= k < ps.len() ==> !is_normal_piece(#[trigger] ps[k]),
    decreases ps.len(),
{
    if ps.len() > 0 {
        lemma_keep_normal_none(ps.drop_last());
        if keep_normal(ps).len() == 0 {
            assert(!is_normal_piece(ps.last()));
            assert forall|k: int| 0 <= k < ps.len() implies !is_normal_piece(#[trigger] ps[k]) by {
                if k < ps.len() - 1 {
                    assert(ps[k] == ps.drop_last()[k]);
                }
            }
        }
    }
}

/// `Path::new(base).join(rel)`.
pub fn join_path(base: &str, rel: &str) -> (r: String)
    ensures
        r@ == joined_text(base@, rel@),
        path_view(r@) == join_view(path_view(base@), path_view(rel@)),
{
    proof {
        lemma_joined_text_view(base@, rel@);
    }
    if path_is_absolute(rel) {
        return rel.to_owned();
    }
    let t = chars_of(base);
    let mut r = String::new();
    let mut k: usize = 0;
    while k < t.len()
        invariant
            k <= t@.len(),
            t@ == base@,
            r@ == base@.take(k as int),
        decreases t.len() - k,
    {
        push_char(&mut r, t[k]);
        assert(base@.take(k + 1) =~= base@.take(k as int).push(t@[k as int]));
        k = k + 1;
    }
    assert(base@.take(t@.len() as int) =~= base@);
    if t.len() > 0 && t[t.len() - 1] != '/' {
        push_char(&mut r, '/');
        assert(r@ =~= base@ + seq!['/']);
    } else {
        assert(r@ =~= base@);
    }
    let u = chars_of(rel);
    let ghost mid = r@;
    let mut k: usize = 0;
    while k < u.len()
        invariant
            k <= u@.len(),
            u@ == rel@,
            r@ == mid + rel@.take(k as int),
        decreases u.len() - k,
    {
        push_char(&mut r, u[k]);
        assert(rel@.take(k + 1) =~= rel@.take(k as int).push(u@[k as int]));
        k = k + 1;
    }
    assert(rel@.take(u@.len() as int) =~= rel@);
    assert(r@ =~= joined_text(base@, rel@));
    r
}

/// Drops the first `n` components of `v.parts` and the root: what
/// `Path::strip_prefix` leaves.
pub open spec fn rest_view(v: PathView, n: int) -> PathView {
    PathView { abs: false, cur: false, parts: v.parts.skip(n) }
}

/// `Path::strip_prefix` on views: whether `prefix`'s components begin `v`'s,
/// and what follows them.
pub open spec fn strip_prefix_view(v: PathView, prefix: PathView) -> Option<PathView> {
    if v.abs == prefix.abs && v.cur == prefix.cur && prefix.parts.len() <= v.parts.len()
        && v.parts.take(prefix.parts.len() as int) == prefix.parts {
        Some(rest_view(v, prefix.parts.len() as int))
    } else {
        None
    }
}

/// The position just past the `n`-th normal piece of `ps` from `i` on (`i`
/// itself for `n == 0`).
pub open spec fn after_normal(ps: Seq<Seq<char>>, i: int, n: nat) -> int
    decreases ps.len() - i,
{
    if n == 0 || i < 0 || i >= ps.len() {
        i
    } else if is_normal_piece(ps[i]) {
        after_normal(ps, i + 1, (n - 1) as nat)
    } else {
        after_normal(ps, i + 1, n)
    }
}

/// `ps` without its leading pieces that name no component.
pub open spec fn drop_front(ps: Seq<Seq<char>>) -> Seq<Seq<char>>
    decreases ps.len(),
{
    if ps.len() > 0 && !is_normal_piece(ps[0]) {
        drop_front(ps.drop_first())
    } else {
        ps
    }
}

/// `ps` without its trailing pieces that name no component.
pub open spec fn drop_back(ps: Seq<Seq<char>>) -> Seq<Seq<char>>
    decreases ps.len(),
{
    if ps.len() > 0 && !is_normal_piece(ps.last()) {
        drop_back(ps.drop_last())
    } else {
        ps
    }
}

/// The text that `Path::new(p).strip_prefix(q)` leaves, as `display` shows
/// it, where `q`'s components begin `p`'s: the text after the components of
/// `q`, without separators and `.` pieces at its ends (at its start only
/// where `q` has a component), and with those inside it kept as written.
pub open spec fn stripped_text(p: Seq<char>, q: Seq<char>) -> Seq<char> {
    let ps = split_pieces(p);
    let start: int = if is_abs(p) || path_view(p).cur { 1 } else { 0 };
    let qv = path_view(q);
    let rest = ps.subrange(after_normal(ps, start, qv.parts.len()), ps.len() as int);
    let front = if qv.abs || qv.cur || qv.parts.len() > 0 { drop_front(rest) } else { rest };
    join_parts(drop_back(front))
}

proof fn lemma_after_normal(ps: Seq<Seq<char>>, i: int, n: nat)
    requires
        0 <= i <= ps.len(),
        n <= keep_normal(ps.subrange(i, ps.len() as int)).len(),
    ensures
        i <= after_normal(ps, i, n) <= ps.len(),
        keep_normal(ps.subrange(after_normal(ps, i, n), ps.len() as int)) == keep_normal(
            ps.subrange(i, ps.len() as int),
        ).skip(n as int),
    decreases ps.len() - i,
{
    let sub = ps.subrange(i, ps.len() as int);
    if n == 0 {
        assert(keep_normal(sub).skip(0) =~= keep_normal(sub));
    } else {
        assert(i < ps.len()) by {
            if i == ps.len() {
                assert(sub =~= Seq::<Seq<char>>::empty());
            }
        }
        let tail = ps.subrange(i + 1, ps.len() as int);
        assert(sub =~= seq![ps[i]] + tail);
        lemma_keep_normal_concat(seq![ps[i]], tail);
        lemma_keep_normal_one(ps[i]);
        if is_normal_piece(ps[i]) {
            lemma_after_normal(ps, i + 1, (n - 1) as nat);
            assert(keep_normal(tail).skip(n - 1) =~= (seq![ps[i]] + keep_normal(tail)).skip(n as int));
        } else {
            assert(Seq::<Seq<char>>::empty() + keep_normal(tail) =~= keep_normal(tail));
            lemma_after_normal(ps, i + 1, n);
        }
    }
}

proof fn lemma_drop_front(ps: Seq<Seq<char>>)
    ensures
        keep_normal(drop_front(ps)) == keep_normal(ps),
        drop_front(ps).len() > 0 ==> is_normal_piece(drop_front(ps)[0]),
        forall|k: int| 0 <= k < drop_front(ps).len() ==> exists|j: int| 0 <= j < ps.len() && #[trigger] drop_front(ps)[k] == ps[j],
    decreases ps.len(),
{
    if ps.len() > 0 && !is_normal_piece(ps[0]) {
        lemma_drop_front(ps.drop_first());
        assert(ps =~= seq![ps[0]] + ps.drop_first());
        lemma_keep_normal_concat(seq![ps[0]], ps.drop_first());
        lemma_keep_normal_one(ps[0]);
        assert(Seq::<Seq<char>>::empty() + keep_normal(ps.drop_first()) =~= keep_normal(ps.drop_first()));
        assert forall|k: int| 0 <= k < drop_front(ps).len() implies exists|j: int| 0 <= j < ps.len() && #[trigger] drop_front(ps)[k] == ps[j] by {
            let j = choose|j: int| 0 <= j < ps.drop_first().len() && drop_front(ps.drop_first())[k] == ps.drop_first()[j];
            assert(ps[j + 1] == ps.drop_first()[j]);
        }
    } else {
        assert forall|k: int| 0 <= k < drop_front(ps).len() implies exists|j: int| 0 <= j < ps.len() && #[trigger] drop_front(ps)[k] == ps[j] by {
            assert(drop_front(ps)[k] == ps[k]);
        }
    }
}

proof fn lemma_drop_back(ps: Seq<Seq<char>>)
    ensures
        keep_normal(drop_back(ps)) == keep_normal(ps),
        drop_back(ps).len() > 0 ==> drop_back(ps)[0] == ps[0],
        drop_back(ps).len() <= ps.len(),
        forall|k: int| 0 <= k < drop_back(ps).len() ==> #[trigger] drop_back(ps)[k] == ps[k],
    decreases ps.len(),
{
    if ps.len() > 0 && !is_normal_piece(ps.last()) {
        lemma_drop_back(ps.drop_last());
        assert(keep_normal(ps) == keep_normal(ps.drop_last()));
        assert forall|k: int| 0 <= k < drop_back(ps).len() implies #[trigger] drop_back(ps)[k] == ps[k] by {
            assert(drop_back(ps.drop_last())[k] == ps.drop_last()[k]);
        }
    }
}

/// The stripped text names the path that `strip_prefix_view` gives.
pub proof fn lemma_stripped_text_view(p: Seq<char>, q: Seq<char>)
    requires
        strip_prefix_view(path_view(p), path_view(q)) is Some,
    ensures
        path_view(stripped_text(p, q)) == strip_prefix_view(path_view(p), path_view(q))->Some_0,
{
    let ps = split_pieces(p);
    lemma_split_nonempty(p);
    let pv = path_view(p);
    let qv = path_view(q);
    let start: int = if is_abs(p) || pv.cur { 1 } else { 0 };
    // The pieces before `start` name no component.
    assert(ps =~= ps.subrange(0, start) + ps.subrange(start, ps.len() as int));
    lemma_keep_normal_concat(ps.subrange(0, start), ps.subrange(start, ps.len() as int));
    if start == 1 {
        assert(ps.subrange(0, 1) =~= seq![ps[0]]);
        lemma_keep_normal_one(ps[0]);
        if is_abs(p) {
            lemma_abs_first_piece(p);
        }
        assert(Seq::<Seq<char>>::empty() + keep_normal(ps.subrange(1, ps.len() as int)) =~= keep_normal(
            ps.subrange(1, ps.len() as int),
        ));
    } else {
        assert(ps.subrange(0, 0) =~= Seq::<Seq<char>>::empty());
        assert(Seq::<Seq<char>>::empty() + keep_normal(ps.subrange(0, ps.len() as int)) =~= keep_normal(
            ps.subrange(0, ps.len() as int),
        ));
    }
    assert(keep_normal(ps.subrange(start, ps.len() as int)) == pv.parts);
    lemma_after_normal(ps, start, qv.parts.len());
    let a = after_normal(ps, start, qv.parts.len());
    let rest = ps.subrange(a, ps.len() as int);
    assert(keep_normal(rest) == pv.parts.skip(qv.parts.len() as int));
    let trimmed = qv.abs || qv.cur || qv.parts.len() > 0;
    let front = if trimmed { drop_front(rest) } else { rest };
    lemma_drop_front(rest);
    let xs = drop_back(front);
    lemma_drop_back(front);
    assert(keep_normal(xs) == pv.parts.skip(qv.parts.len() as int));
    let r = join_parts(xs);
    assert forall|k: int| 0 <= k < xs.len() implies !(#[trigger] xs[k]).contains('/') by {
        assert(xs[k] == front[k]);
        if trimmed {
            let j = choose|j: int| 0 <= j < rest.len() && drop_front(rest)[k] == rest[j];
            assert(rest[j] == ps[a + j]);
        } else {
            assert(rest[k] == ps[a + k]);
        }
    }
    let target = PathView { abs: false, cur: false, parts: pv.parts.skip(qv.parts.len() as int) };
    if xs.len() == 0 {
        assert(r =~= Seq::<char>::empty());
        assert(split_pieces(r) =~= seq![Seq::<char>::empty()]);
        lemma_keep_normal_one(Seq::<char>::empty());
        assert(path_view(r).parts == keep_normal(xs));
    } else {
        lemma_split_join(xs);
        // The first piece names a component.
        if trimmed {
            assert(is_normal_piece(xs[0]));
        } else {
            assert(!qv.abs && !qv.cur && qv.parts.len() == 0);
            assert(!pv.abs && !pv.cur);
            assert(start == 0 && a == 0);
            assert(xs[0] == rest[0] && rest[0] == ps[0]);
            lemma_split_nonempty(p);
            if !is_normal_piece(ps[0]) {
                if p.len() > 0 {
                    lemma_first_piece(p);
                } else {
                    assert(ps =~= seq![Seq::<char>::empty()]);
                    lemma_keep_normal_one(Seq::<char>::empty());
                    assert(rest =~= ps);
                    assert(xs.len() == 0) by {
                        assert(front =~= seq![Seq::<char>::empty()]);
                        assert(front.drop_last() =~= Seq::<Seq<char>>::empty());
                        assert(drop_back(Seq::<Seq<char>>::empty()) =~= Seq::<Seq<char>>::empty());
                    }
                }
            }
        }
        lemma_join_first(xs);
        assert(!is_abs(r));
        assert(split_pieces(r)[0] != seq!['.']);
    }
    assert(path_view(r) == target);
}

proof fn lemma_abs_first_piece(p: Seq<char>)
    requires
        is_abs(p),
    ensures
        split_pieces(p)[0] == Seq::<char>::empty(),
        split_pieces(p).len() >= 2,
    decreases p.len(),
{
    lemma_split_nonempty(p);
    if p.len() == 1 {
        assert(p.drop_last() =~= Seq::<char>::empty());
        assert(split_pieces(Seq::<char>::empty()) == seq![Seq::<char>::empty()]);
        assert(p.last() == '/');
    } else {
        assert(p.drop_last()[0] == '/');
        lemma_abs_first_piece(p.drop_last());
        lemma_split_nonempty(p.drop_last());
    }
}

/// The pieces of `s` between `/` separators.
fn split_path_pieces(s: &str) -> (v: Vec<String>)
    ensures
        string_views(v@) == split_pieces(s@),
{
    let t = chars_of(s);
    let n = t.len();
    let mut pieces: Vec<String> = Vec::new();
    let mut current = String::new();
    let mut i: usize = 0;
    assert(t@.take(0) =~= Seq::<char>::empty());
    assert(string_views(pieces@).push(current@) =~= seq![Seq::<char>::empty()]);
    while i < n
        invariant
            n == t@.len(),
            t@ == s@,
            i <= n,
            string_views(pieces@).push(current@) == split_pieces(t@.take(i as int)),
        decreases n - i,
    {
        let ghost prev = split_pieces(t@.take(i as int));
        assert(t@.take(i + 1).drop_last() =~= t@.take(i as int));
        assert(t@.take(i + 1).last() == t@[i as int]);
        let c = t[i];
        if c == '/' {
            let ghost before = pieces@;
            let piece = current;
            proof {
                lemma_string_views_push(before, piece);
            }
            pieces.push(piece);
            current = String::new();
            assert(string_views(pieces@).push(current@) =~= prev.push(Seq::<char>::empty()));
        } else {
            let ghost cur0 = current@;
            push_char(&mut current, c);
            assert(string_views(pieces@).push(current@) =~= prev.update(prev.len() - 1, cur0.push(c)));
        }
        i = i + 1;
    }
    assert(t@.take(n as int) =~= t@);
    let ghost before = pieces@;
    let last = current;
    proof {
        lemma_string_views_push(before, last);
    }
    pieces.push(last);
    pieces
}

fn is_normal(s: &String) -> (b: bool)
    ensures
        b == is_normal_piece(s@),
{
    !is_dot(s) && !s.as_str().is_empty()
}

/// `path.strip_prefix(prefix)` as `display` shows the rest (see
/// `stripped_text`), where `prefix`'s components begin `path`'s.
pub fn strip_path_text(path: &str, prefix: &str) -> (r: Option<String>)
    ensures
        match r {
            Some(s) => strip_prefix_view(path_view(path@), path_view(prefix@)) is Some && s@
                == stripped_text(path@, prefix@),
            None => strip_prefix_view(path_view(path@), path_view(prefix@)) is None,
        },
{
    if strip_path_prefix(path, prefix).is_none() {
        return None;
    }
    let pieces = split_path_pieces(path);
    let ghost ps = split_pieces(path@);
    proof {
        lemma_split_nonempty(path@);
    }
    let p = parse_path(path);
    let q = parse_path(prefix);
    let start: usize = if p.absolute || p.current {
        1
    } else {
        0
    };
    let ghost target = after_normal(ps, start as int, q@.parts.len());
    let mut i = start;
    let mut n = q.parts.len();
    while n > 0 && i < pieces.len()
        invariant
            string_views(pieces@) == ps,
            start <= i <= pieces@.len(),
            after_normal(ps, i as int, n as nat) == target,
        decreases pieces.len() - i,
    {
        if is_normal(&pieces[i]) {
            n = n - 1;
        }
        i = i + 1;
    }
    assert(after_normal(ps, i as int, n as nat) == i);
    let trimmed = q.absolute || q.current || q.parts.len() > 0;
    let hi0 = pieces.len();
    let ghost rest = ps.subrange(i as int, hi0 as int);
    let ghost front = if trimmed { drop_front(rest) } else { rest };
    let mut lo = i;
    if trimmed {
        while lo < hi0 && !is_normal(&pieces[lo])
            invariant
                string_views(pieces@) == ps,
                hi0 == ps.len(),
                i <= lo <= hi0,
                drop_front(ps.subrange(lo as int, hi0 as int)) == drop_front(rest),
            decreases hi0 - lo,
        {
            assert(ps.subrange(lo as int, hi0 as int).drop_first() =~= ps.subrange(lo + 1, hi0 as int));
            lo = lo + 1;
        }
        if lo < hi0 {
            assert(ps.subrange(lo as int, hi0 as int)[0] == ps[lo as int]);
        }
    }
    assert(ps.subrange(lo as int, hi0 as int) == front);
    let mut hi = hi0;
    while hi > lo && !is_normal(&pieces[hi - 1])
        invariant
            string_views(pieces@) == ps,
            lo <= hi <= hi0 == ps.len(),
            drop_back(ps.subrange(lo as int, hi as int)) == drop_back(front),
        decreases hi - lo,
    {
        assert(ps.subrange(lo as int, hi as int).drop_last() =~= ps.subrange(lo as int, hi - 1));
        hi = hi - 1;
    }
    if hi > lo {
        assert(ps.subrange(lo as int, hi as int).last() == ps[hi - 1]);
    }
    assert(drop_back(ps.subrange(lo as int, hi as int)) == ps.subrange(lo as int, hi as int));
    let mut out = String::new();
    let mut k = lo;
    assert(ps.subrange(lo as int, lo as int) =~= Seq::<Seq<char>>::empty());
    while k < hi
        invariant
            string_views(pieces@) == ps,
            lo <= k <= hi <= ps.len(),
            out@ == join_parts(ps.subrange(lo as int, k as int)),
        decreases hi - k,
    {
        let ghost sub = ps.subrange(lo as int, k as int);
        assert(ps.subrange(lo as int, k + 1) =~= sub.push(ps[k as int]));
        assert(ps.subrange(lo as int, k + 1).drop_last() =~= sub);
        if k > lo {
            push_char(&mut out, '/');
        } else {
            assert(sub.len() == 0);
        }
        push_string(&mut out, &pieces[k]);
        k = k + 1;
    }
    Some(out)
}

/// `path.strip_prefix(prefix)`, rendered canonically.
pub fn strip_path_prefix(path: &str, prefix: &str) -> (r: Option<String>)
    ensures
        match r {
            Some(s) => strip_prefix_view(path_view(path@), path_view(prefix@)) == Some(
                path_view(s@),
            ) && s@ == render(path_view(s@)),
            None => strip_prefix_view(path_view(path@), path_view(prefix@)) is None,
        },
{
    let p = parse_path(path);
    let q = parse_path(prefix);
    if p.absolute != q.absolute || p.current != q.current || q.parts.len() > p.parts.len() {
        return None;
    }
    let ghost pv = string_views(p.parts@);
    let ghost qv = string_views(q.parts@);
    let mut k: usize = 0;
    while k < q.parts.len()
        invariant
            q.parts@.len() <= p.parts@.len(),
            k <= q.parts@.len(),
            p@ == path_view(path@),
            q@ == path_view(prefix@),
            pv == string_views(p.parts@),
            qv == string_views(q.parts@),
            forall|m: int| 0 <= m < k ==> pv[m] == qv[m],
        decreases q.parts.len() - k,
    {
        if p.parts[k] != q.parts[k] {
            assert(pv.take(qv.len() as int)[k as int] != qv[k as int]);
            return None;
        }
        k = k + 1;
    }
    assert(pv.take(qv.len() as int) =~= qv);
    let mut rest: Vec<String> = Vec::new();
    let mut m = q.parts.len();
    assert(string_views(rest@) =~= pv.skip(qv.len() as int).take(0));
    while m < p.parts.len()
        invariant
            qv.len() <= m <= p.parts@.len(),
            pv == string_views(p.parts@),
            string_views(rest@) == pv.skip(qv.len() as int).take(m - qv.len()),
        decreases p.parts.len() - m,
    {
        let ghost before = rest@;
        let piece = p.parts[m].clone();
        assert(piece@ == pv[m as int]);
        rest.push(piece);
        assert(string_views(rest@) =~= string_views(before).push(pv[m as int]));
        assert(pv.skip(qv.len() as int).take(m + 1 - qv.len()) =~= pv.skip(qv.len() as int).take(
            m - qv.len(),
        ).push(pv[m as int]));
        m = m + 1;
    }
    assert(pv.skip(qv.len() as int).take(pv.len() - qv.len()) =~= pv.skip(qv.len() as int));
    let r = PathParts { absolute: false, current: false, parts: rest };
    proof {
        lemma_path_view_ok(path@);
        assert forall|k: int| 0 <= k < r@.parts.len() implies part_ok(#[trigger] r@.parts[k]) by {
            assert(r@.parts[k] == pv[k + qv.len()]);
        }
        lemma_view_render(r@);
    }
    let out = render_path(&r);
    proof {
        let pvw = path_view(path@);
        let qvw = path_view(prefix@);
        assert(pvw.parts == pv);
        assert(qvw.parts == qv);
        assert(pvw.parts.take(qvw.parts.len() as int) == qvw.parts);
        assert(rest_view(pvw, qvw.parts.len() as int) == r@);
        assert(path_view(out@) == r@);
        assert(pvw.abs == qvw.abs);
        assert(pvw.cur == qvw.cur);
        assert(qvw.parts.len() <= pvw.parts.len());
        assert(strip_prefix_view(pvw, qvw) == Some(r@));
        assert(out@ == render(path_view(out@)));
    }
    Some(out)
}

/// Whether `a` and `b` have the same parent (`Path::parent` compared with
/// `==`; two paths without one count as the same).
pub fn same_parent(a: &str, b: &str) -> (r: bool)
    ensures
        r == (parent_view(path_view(a@)) == parent_view(path_view(b@))),
{
    match (path_parent(a), path_parent(b)) {
        (Some(x), Some(y)) => same_path(x.as_str(), y.as_str()),
        (None, None) => true,
        _ => false,
    }
}

/// The file name that `Path::with_extension(ext)` gives a file named `name`.
pub open spec fn renamed_ext(name: Seq<char>, ext: Seq<char>) -> Seq<char> {
    if ext.len() == 0 {
        stem_of(name)
    } else {
        stem_of(name) + seq!['.'] + ext
    }
}

/// `Path::with_extension` on views: the last component's extension replaced
/// by `ext` (dropped where `ext` is empty; a name that is left as `.` drops
/// out); a path without a file name stays as it is.
pub open spec fn with_extension_view(v: PathView, ext: Seq<char>) -> PathView {
    match file_name_view(v) {
        None => v,
        Some(name) => PathView {
            abs: v.abs,
            cur: v.cur,
            parts: if renamed_ext(name, ext) == seq!['.'] {
                v.parts.drop_last()
            } else {
                v.parts.drop_last().push(renamed_ext(name, ext))
            },
        },
    }
}

/// The stem of a part is not empty and holds no `/`.
proof fn lemma_stem_ok(name: Seq<char>)
    requires
        part_ok(name),
    ensures
        stem_of(name).len() > 0,
        !stem_of(name).contains('/'),
{
    lemma_last_dot(name, name.len() as int);
    let st = stem_of(name);
    if st.contains('/') {
        let i = choose|i: int| 0 <= i < st.len() && st[i] == '/';
        assert(name[i] == '/');
    }
}

/// `path.with_extension(ext)`, rendered canonically.
pub fn path_with_extension(s: &str, ext: &str) -> (r: String)
    requires
        !ext@.contains('/'),
    ensures
        path_view(r@) == with_extension_view(path_view(s@), ext@),
        r@ == render(with_extension_view(path_view(s@), ext@)),
{
    proof {
        lemma_path_view_ok(s@);
    }
    let mut p = parse_path(s);
    let ghost pv = p@;
    match path_file_stem(s) {
        None => {
            proof {
                lemma_view_render(p@);
            }
            render_path(&p)
        },
        Some(stem) => {
            let ghost before = p.parts@;
            let ghost fname = pv.parts.last();
            p.parts.pop();
            assert(string_views(p.parts@) =~= string_views(before).drop_last());
            let mut name = stem;
            let e = chars_of(ext);
            if e.len() > 0 {
                push_char(&mut name, '.');
                push_string(&mut name, &ext.to_owned());
            }
            let ghost nv = name@;
            assert(nv == renamed_ext(fname, ext@));
            proof {
                assert(pv.parts[pv.parts.len() - 1] == fname);
                assert(part_ok(fname));
                lemma_stem_ok(fname);
            }
            let t = chars_of(name.as_str());
            let is_dot = t.len() == 1 && t[0] == '.';
            assert(is_dot == (nv == seq!['.'])) by {
                if t@.len() == 1 {
                    assert(t@ =~= seq![t@[0]]);
                }
            }
            if !is_dot {
                let ghost mid = p.parts@;
                p.parts.push(name);
                assert(string_views(p.parts@) =~= string_views(mid).push(nv));
                proof {
                    assert(part_ok(nv)) by {
                        if e@.len() > 0 {
                            assert(!nv.contains('/')) by {
                                if nv.contains('/') {
                                    let i = choose|i: int| 0 <= i < nv.len() && nv[i] == '/';
                                    let st = stem_of(fname);
                                    if i < st.len() {
                                        assert(st[i] == '/');
                                        assert(st.contains('/'));
                                    } else if i > st.len() {
                                        assert(ext@[i - st.len() - 1] == '/');
                                        assert(ext@.contains('/'));
                                    }
                                }
                            }
                        }
                    }
                }
            }
            proof {
                assert forall|k: int| 0 <= k < p@.parts.len() implies part_ok(#[trigger] p@.parts[k]) by {
                    if k < pv.parts.len() - 1 {
                        assert(p@.parts[k] == pv.parts[k]);
                    }
                }
                lemma_view_render(p@);
            }
            render_path(&p)
        },
    }
}

} // verus!
