//! Where the files of a moved module go.

use vstd::prelude::*;
use super::{RustError, RustErrorView};
use super::apply::PlannedMove;
use crate::paths::{
    PathView, file_name_view, has_extension, join_path, join_view, joined_text, opt_view, parent_view,
    parse_path, path_extension_view, path_file_name, path_parent, path_view, path_with_extension,
    render, same_path, string_views, strip_path_prefix, strip_prefix_view, with_extension_view,
};
use crate::text::{chars_of, string_from};
use crate::validation::{lemma_string_seqs_push, string_seqs};

verus! {

/// Whether `name` is `mod.rs`, `lib.rs` or `main.rs`: a file whose child
/// modules live beside it.
pub open spec fn owns_its_directory(name: Option<Seq<char>>) -> bool {
    name == Some("mod.rs"@) || name == Some("lib.rs"@) || name == Some("main.rs"@)
}

/// The directory that holds the child modules of `module_file`: its own
/// directory for `mod.rs`, `lib.rs` and `main.rs`, else the path without
/// its extension.
pub open spec fn child_directory_view(module_file: Seq<char>) -> Seq<char> {
    let v = path_view(module_file);
    if owns_its_directory(file_name_view(v)) {
        render(parent_view(v).unwrap())
    } else {
        render(with_extension_view(v, Seq::empty()))
    }
}

fn name_is(name: &String, lit: &str) -> (b: bool)
    ensures
        b == (name@ == lit@),
{
    let a = chars_of(name.as_str());
    let b = chars_of(lit);
    crate::text::same_chars(&a, &b)
}

/// The directory of the child modules of `module_file`.
pub fn child_module_directory(module_file: &str) -> (r: String)
    ensures
        r@ == child_directory_view(module_file@),
{
    let owns = match path_file_name(module_file) {
        Some(n) => name_is(&n, "mod.rs") || name_is(&n, "lib.rs") || name_is(&n, "main.rs"),
        None => false,
    };
    if owns {
        match path_parent(module_file) {
            Some(p) => p,
            None => {
                proof {
                    assert(file_name_view(path_view(module_file@)) is Some);
                }
                String::new()
            },
        }
    } else {
        proof {
            reveal_strlit("");
            assert(""@ =~= Seq::<char>::empty());
            assert(!""@.contains('/'));
        }
        path_with_extension(module_file, "")
    }
}

/// The directories to create, deepest first, so that `dir` (the `i`-th
/// ancestor of the requested directory) exists: each one that does not
/// exist (`exists[i]`) and lies under `root`.
pub open spec fn missing_from(
    root: PathView,
    dir: PathView,
    exists: Seq<bool>,
    i: int,
) -> Result<Seq<Seq<char>>, RustErrorView>
    decreases exists.len() - i,
{
    if i < 0 || i >= exists.len() || exists[i] || strip_prefix_view(dir, root) is None {
        Ok(Seq::empty())
    } else {
        match parent_view(dir) {
            None => Err(RustErrorView::NoParentDirectory),
            Some(p) => match missing_from(root, p, exists, i + 1) {
                Err(e) => Err(e),
                Ok(rest) => Ok(seq![render(dir)] + rest),
            },
        }
    }
}

/// The directories to create so that `directory` exists, deepest first, or
/// a refusal where `directory` is not under `root`.
pub open spec fn missing_directories_view(root: Seq<char>, directory: Seq<char>, exists: Seq<bool>) -> Result<
    Seq<Seq<char>>,
    RustErrorView,
> {
    if strip_prefix_view(path_view(directory), path_view(root)) is None {
        Err(RustErrorView::OutsideDirectory { root })
    } else {
        missing_from(path_view(root), path_view(directory), exists, 0)
    }
}

/// The `k`-th ancestor of `dir` (`dir` itself for `k == 0`), where it has one.
pub open spec fn ancestor_view(dir: PathView, k: nat) -> Option<PathView>
    decreases k,
{
    if k == 0 {
        Some(dir)
    } else {
        match parent_view(dir) {
            Some(p) => ancestor_view(p, (k - 1) as nat),
            None => None,
        }
    }
}

proof fn lemma_missing_from_chain(root: PathView, dir: PathView, exists: Seq<bool>, i: int)
    requires
        0 <= i,
    ensures
        missing_from(root, dir, exists, i) matches Ok(list) ==> {
            &&& forall|k: int|
                0 <= k < list.len() ==> #[trigger] ancestor_view(dir, k as nat) is Some && list[k]
                    == render(ancestor_view(dir, k as nat)->Some_0) && i + k < exists.len()
                    && !exists[i + k] && strip_prefix_view(ancestor_view(dir, k as nat)->Some_0, root) is Some
            &&& ancestor_view(dir, list.len()) matches Some(d) && (i + list.len() >= exists.len()
                || exists[i + list.len()] || strip_prefix_view(d, root) is None)
        },
    decreases exists.len() - i,
{
    if !(i < 0 || i >= exists.len() || exists[i] || strip_prefix_view(dir, root) is None) {
        match parent_view(dir) {
            None => {},
            Some(p) => {
                lemma_missing_from_chain(root, p, exists, i + 1);
                match missing_from(root, p, exists, i + 1) {
                    Err(_) => {},
                    Ok(rest) => {
                        let list = seq![render(dir)] + rest;
                        assert forall|k: int| 0 <= k < list.len() implies #[trigger] ancestor_view(
                            dir,
                            k as nat,
                        ) is Some && list[k] == render(ancestor_view(dir, k as nat)->Some_0) && i + k
                            < exists.len() && !exists[i + k] && strip_prefix_view(
                            ancestor_view(dir, k as nat)->Some_0,
                            root,
                        ) is Some by {
                            if k > 0 {
                                assert(ancestor_view(dir, k as nat) == ancestor_view(p, (k - 1) as nat));
                                assert(list[k] == rest[k - 1]);
                            }
                        }
                        assert(ancestor_view(dir, list.len()) == ancestor_view(p, rest.len()));
                    },
                }
            },
        }
    }
}

/// A directory outside `root` is refused. Inside it, the directories to
/// create are the directory and then its successive parents, deepest first:
/// each does not exist and lies under `root`, and the list stops at the
/// first ancestor that exists or lies outside `root` (or where the flags
/// run out).
pub proof fn lemma_missing_directories_chain(root: Seq<char>, directory: Seq<char>, exists: Seq<bool>)
    ensures
        strip_prefix_view(path_view(directory), path_view(root)) is None <==> missing_directories_view(
            root,
            directory,
            exists,
        ) == Err::<Seq<Seq<char>>, RustErrorView>(RustErrorView::OutsideDirectory { root }),
        missing_directories_view(root, directory, exists) matches Ok(list) ==> {
            &&& forall|k: int|
                0 <= k < list.len() ==> #[trigger] ancestor_view(path_view(directory), k as nat) is Some
                    && list[k] == render(ancestor_view(path_view(directory), k as nat)->Some_0) && k
                    < exists.len() && !exists[k] && strip_prefix_view(
                    ancestor_view(path_view(directory), k as nat)->Some_0,
                    path_view(root),
                ) is Some
            &&& ancestor_view(path_view(directory), list.len()) matches Some(d) && (list.len()
                >= exists.len() || exists[list.len() as int] || strip_prefix_view(d, path_view(root))
                is None)
        },
{
    lemma_missing_from_chain(path_view(root), path_view(directory), exists, 0);
    if strip_prefix_view(path_view(directory), path_view(root)) is Some {
        lemma_missing_from_not_outside(path_view(root), path_view(directory), exists, 0);
    }
}

proof fn lemma_missing_from_not_outside(root: PathView, dir: PathView, exists: Seq<bool>, i: int)
    ensures
        !(missing_from(root, dir, exists, i) matches Err(RustErrorView::OutsideDirectory { .. })),
    decreases exists.len() - i,
{
    if !(i < 0 || i >= exists.len() || exists[i] || strip_prefix_view(dir, root) is None) {
        if let Some(p) = parent_view(dir) {
            lemma_missing_from_not_outside(root, p, exists, i + 1);
        }
    }
}

/// The directories that the walk up from `dir` (the `i`-th ancestor of the
/// requested directory) records before it stops or fails: those that
/// `missing_from` lists, and, where a directory to record has no parent, that
/// directory.
pub open spec fn recorded_from(root: PathView, dir: PathView, exists: Seq<bool>, i: int) -> Seq<
    Seq<char>,
>
    decreases exists.len() - i,
{
    if i < 0 || i >= exists.len() || exists[i] || strip_prefix_view(dir, root) is None {
        Seq::empty()
    } else {
        match parent_view(dir) {
            None => seq![render(dir)],
            Some(p) => seq![render(dir)] + recorded_from(root, p, exists, i + 1),
        }
    }
}

/// `acc` with each entry of `list` added in turn where it is not yet there:
/// the set of directories that `created` stands for.
pub open spec fn add_new(acc: Seq<Seq<char>>, list: Seq<Seq<char>>) -> Seq<Seq<char>>
    decreases list.len(),
{
    if list.len() == 0 {
        acc
    } else {
        let r = add_new(acc, list.drop_last());
        if r.contains(list.last()) {
            r
        } else {
            r.push(list.last())
        }
    }
}

proof fn lemma_recorded_is_missing(root: PathView, dir: PathView, exists: Seq<bool>, i: int)
    ensures
        missing_from(root, dir, exists, i) matches Ok(list) ==> list == recorded_from(
            root,
            dir,
            exists,
            i,
        ),
    decreases exists.len() - i,
{
    if !(i < 0 || i >= exists.len() || exists[i] || strip_prefix_view(dir, root) is None) {
        if let Some(p) = parent_view(dir) {
            lemma_recorded_is_missing(root, p, exists, i + 1);
        }
    }
}

/// `add_new` adds exactly the entries of `list` to the set of `acc`, and
/// adds none twice.
pub proof fn lemma_add_new(acc: Seq<Seq<char>>, list: Seq<Seq<char>>)
    ensures
        add_new(acc, list).to_set() == acc.to_set() + list.to_set(),
        acc.no_duplicates() ==> add_new(acc, list).no_duplicates(),
        add_new(acc, list).take(acc.len() as int) == acc,
        add_new(acc, list).len() >= acc.len(),
    decreases list.len(),
{
    if list.len() > 0 {
        lemma_add_new(acc, list.drop_last());
        let r = add_new(acc, list.drop_last());
        assert(list =~= list.drop_last().push(list.last()));
        assert(list.to_set() =~= list.drop_last().to_set().insert(list.last())) by {
            assert forall|x| list.to_set().contains(x) implies list.drop_last().to_set().insert(
                list.last(),
            ).contains(x) by {
                let k = choose|k: int| 0 <= k < list.len() && list[k] == x;
                if k < list.len() - 1 {
                    assert(list.drop_last()[k] == x);
                }
            }
            assert forall|x| list.drop_last().to_set().insert(list.last()).contains(x) implies list.to_set().contains(
                x,
            ) by {
                if x != list.last() {
                    let k = choose|k: int| 0 <= k < list.drop_last().len() && list.drop_last()[k] == x;
                    assert(list[k] == x);
                } else {
                    assert(list[list.len() - 1] == x);
                }
            }
        }
        if r.contains(list.last()) {
            assert(r.to_set().contains(list.last()));
            assert(add_new(acc, list).to_set() =~= acc.to_set() + list.to_set());
        } else {
            assert(r.push(list.last()).to_set() =~= r.to_set().insert(list.last())) by {
                assert forall|x| r.push(list.last()).to_set().contains(x) implies r.to_set().insert(
                    list.last(),
                ).contains(x) by {
                    let k = choose|k: int| 0 <= k < r.push(list.last()).len() && r.push(list.last())[k] == x;
                    if k < r.len() {
                        assert(r[k] == x);
                    }
                }
                assert forall|x| r.to_set().insert(list.last()).contains(x) implies r.push(
                    list.last(),
                ).to_set().contains(x) by {
                    if x == list.last() {
                        assert(r.push(list.last())[r.len() as int] == x);
                    } else {
                        let k = choose|k: int| 0 <= k < r.len() && r[k] == x;
                        assert(r.push(list.last())[k] == x);
                    }
                }
            }
            assert(add_new(acc, list).to_set() =~= acc.to_set() + list.to_set());
            if acc.no_duplicates() {
                assert forall|a: int, b: int|
                    0 <= a < b < r.push(list.last()).len() implies r.push(list.last())[a] != r.push(
                    list.last(),
                )[b] by {
                    if b == r.len() {
                        assert(r.contains(r[a]));
                    }
                }
            }
            assert(r.push(list.last()).take(acc.len() as int) =~= r.take(acc.len() as int));
        }
    }
}

/// Records in `created` the directories to create so that `directory`
/// exists: `directory` and then each of its ancestors, while it does not
/// exist (`exists[i]` tells whether the `i`-th ancestor, `directory` being
/// the 0-th, exists) and lies under `root`. `created` stands for a set: a
/// directory already in it is not added again. A directory outside `root`
/// is refused before anything is recorded.
pub fn track_missing_directories(
    root: &str,
    directory: &str,
    exists: &Vec<bool>,
    created: &mut Vec<String>,
) -> (r: Result<(), RustError>)
    ensures
        match r {
            Ok(()) => missing_directories_view(root@, directory@, exists@) matches Ok(list) && string_seqs(
                final(created)@,
            ) == add_new(string_seqs(old(created)@), list),
            Err(e) => missing_directories_view(root@, directory@, exists@) == Err::<
                Seq<Seq<char>>,
                RustErrorView,
            >(e@) && if e is OutsideDirectory {
                final(created)@ == old(created)@
            } else {
                string_seqs(final(created)@) == add_new(
                    string_seqs(old(created)@),
                    recorded_from(path_view(root@), path_view(directory@), exists@, 0),
                )
            },
        },
{
    if strip_path_prefix(directory, root).is_none() {
        return Err(RustError::OutsideDirectory { root: root.to_owned() });
    }
    let ghost start = string_seqs(created@);
    let ghost rv = path_view(root@);
    let ghost dv = path_view(directory@);
    let ghost all = missing_from(rv, dv, exists@, 0);
    let ghost rec = recorded_from(rv, dv, exists@, 0);
    let ghost mut done: Seq<Seq<char>> = Seq::empty();
    let mut current = render_canonical(directory);
    let mut i: usize = 0;
    assert(done + rec =~= rec);
    assert(add_new(start, done) == start);
    loop
        invariant
            rv == path_view(root@),
            dv == path_view(directory@),
            start == string_seqs(old(created)@),
            strip_prefix_view(dv, rv) is Some,
            all == missing_from(rv, dv, exists@, 0),
            rec == recorded_from(rv, dv, exists@, 0),
            current@ == render(path_view(current@)),
            all == prepend_outcome(done, missing_from(rv, path_view(current@), exists@, i as int)),
            rec == done + recorded_from(rv, path_view(current@), exists@, i as int),
            string_seqs(created@) == add_new(start, done),
        decreases exists@.len() + 1 - i,
    {
        let inside = match strip_path_prefix(current.as_str(), root) {
            Some(_) => true,
            None => false,
        };
        if i >= exists.len() || exists[i] || !inside {
            proof {
                assert(missing_from(rv, path_view(current@), exists@, i as int) == Ok::<
                    Seq<Seq<char>>,
                    RustErrorView,
                >(Seq::empty()));
                assert(done + Seq::<Seq<char>>::empty() =~= done);
                assert(missing_directories_view(root@, directory@, exists@) == all);
            }
            return Ok(());
        }
        let parent = match path_parent(current.as_str()) {
            None => {
                proof {
                    assert(recorded_from(rv, path_view(current@), exists@, i as int) == seq![current@]);
                }
                record_directory(created, current, Ghost(start), Ghost(done));
                proof {
                    assert(missing_directories_view(root@, directory@, exists@) == all);
                    assert(rec =~= done.push(render(path_view(current@))));
                }
                return Err(RustError::NoParentDirectory);
            },
            Some(p) => p,
        };
        let entry = current.clone();
        record_directory(created, entry, Ghost(start), Ghost(done));
        proof {
            match missing_from(rv, path_view(parent@), exists@, i + 1) {
                Ok(rest) => {
                    assert(done + (seq![current@] + rest) =~= done.push(current@) + rest);
                },
                Err(_) => {},
            }
            assert(done + (seq![current@] + recorded_from(rv, path_view(parent@), exists@, i + 1))
                =~= done.push(current@) + recorded_from(rv, path_view(parent@), exists@, i + 1));
            done = done.push(current@);
        }
        current = parent;
        i = i + 1;
    }
}

/// Adds `dir` to `created` unless it is already there.
fn record_directory(created: &mut Vec<String>, dir: String, Ghost(start): Ghost<Seq<Seq<char>>>, Ghost(done): Ghost<Seq<Seq<char>>>)
    requires
        string_seqs(old(created)@) == add_new(start, done),
    ensures
        string_seqs(final(created)@) == add_new(start, done.push(dir@)),
{
    let ghost r = string_seqs(created@);
    assert(done.push(dir@).drop_last() =~= done);
    let mut k: usize = 0;
    while k < created.len()
        invariant
            k <= created@.len(),
            r == string_seqs(created@),
            r == add_new(start, done),
            done.push(dir@).drop_last() == done,
            forall|m: int| 0 <= m < k ==> r[m] != dir@,
        decreases created.len() - k,
    {
        if created[k] == dir {
            assert(r[k as int] == dir@);
            assert(r.contains(dir@));
            assert(done.push(dir@).last() == dir@);
            assert(add_new(start, done.push(dir@)) == r);
            return;
        }
        k = k + 1;
    }
    assert(!r.contains(dir@));
    let ghost before = created@;
    proof {
        lemma_string_seqs_push(before, dir);
    }
    created.push(dir);
}

/// `list` put before what `r` holds, or the refusal of `r`.
pub open spec fn prepend_outcome(list: Seq<Seq<char>>, r: Result<Seq<Seq<char>>, RustErrorView>) -> Result<
    Seq<Seq<char>>,
    RustErrorView,
> {
    match r {
        Ok(rest) => Ok(list + rest),
        Err(e) => Err(e),
    }
}

/// `path` rendered canonically.
fn render_canonical(path: &str) -> (r: String)
    ensures
        path_view(r@) == path_view(path@),
        r@ == render(path_view(path@)),
{
    let p = crate::paths::parse_path(path);
    proof {
        crate::paths::lemma_view_render(p@);
    }
    crate::paths::render_path(&p)
}

/// The moves that put the module defined in `definition_file` under the
/// module file `target_parent_file` as `target_name`: a `mod.rs` module
/// moves its directory; another moves its file, and its directory of
/// child modules where there is one (`companion_is_dir`).
pub open spec fn physical_moves_view(
    definition_file: Seq<char>,
    is_mod_rs: bool,
    companion_is_dir: bool,
    target_parent_file: Seq<char>,
    target_name: Seq<char>,
) -> Result<Seq<(Seq<char>, Seq<char>)>, RustErrorView> {
    let child = child_directory_view(target_parent_file);
    let into_child = joined_text(child, target_name);
    if is_mod_rs {
        match parent_view(path_view(definition_file)) {
            None => Err(RustErrorView::ModRsWithoutDirectory),
            Some(dir) => Ok(seq![(render(dir), into_child)]),
        }
    } else {
        let file_move = (
            definition_file,
            render(with_extension_view(path_view(into_child), "rs"@)),
        );
        if companion_is_dir {
            Ok(
                seq![
                    file_move,
                    (render(with_extension_view(path_view(definition_file), Seq::empty())), into_child),
                ],
            )
        } else {
            Ok(seq![file_move])
        }
    }
}

pub open spec fn move_views(v: Seq<PlannedMove>) -> Seq<(Seq<char>, Seq<char>)> {
    v.map_values(|m: PlannedMove| (m.source@, m.target@))
}

/// The moves of the files of a module; `companion_is_dir` tells whether the
/// directory named like `definition_file` without extension exists.
pub fn physical_moves(
    definition_file: &str,
    is_mod_rs: bool,
    companion_is_dir: bool,
    target_parent_file: &str,
    target_name: &str,
) -> (r: Result<Vec<PlannedMove>, RustError>)
    ensures
        match r {
            Ok(v) => physical_moves_view(
                definition_file@,
                is_mod_rs,
                companion_is_dir,
                target_parent_file@,
                target_name@,
            ) == Ok::<Seq<(Seq<char>, Seq<char>)>, RustErrorView>(move_views(v@)),
            Err(e) => physical_moves_view(
                definition_file@,
                is_mod_rs,
                companion_is_dir,
                target_parent_file@,
                target_name@,
            ) == Err::<Seq<(Seq<char>, Seq<char>)>, RustErrorView>(e@),
        },
{
    let child = child_module_directory(target_parent_file);
    let into_child = join_path(child.as_str(), target_name);
    let mut moves: Vec<PlannedMove> = Vec::new();
    if is_mod_rs {
        let dir = match path_parent(definition_file) {
            None => return Err(RustError::ModRsWithoutDirectory),
            Some(d) => d,
        };
        let m = PlannedMove { source: dir, target: into_child };
        let ghost mv = (m.source@, m.target@);
        moves.push(m);
        assert(move_views(moves@) =~= seq![mv]);
        return Ok(moves);
    }
    proof {
        reveal_strlit("rs");
        reveal_strlit("");
        assert(""@ =~= Seq::<char>::empty());
        assert(!""@.contains('/'));
    }
    let file_target = path_with_extension(into_child.as_str(), "rs");
    let m = PlannedMove { source: definition_file.to_owned(), target: file_target };
    let ghost mv = (m.source@, m.target@);
    moves.push(m);
    if companion_is_dir {
        let companion = path_with_extension(definition_file, "");
        let c = PlannedMove { source: companion, target: into_child };
        let ghost cv = (c.source@, c.target@);
        moves.push(c);
        assert(move_views(moves@) =~= seq![mv, cv]);
    } else {
        assert(move_views(moves@) =~= seq![mv]);
    }
    Ok(moves)
}


// ---------------------------------------------------------------------------
// The files of a module

/// The directory below which the files of the child modules of the module
/// defined in `definition_file` lie: the directory of a `mod.rs`, else the
/// definition file without its extension.
pub open spec fn module_base_view(definition_file: Seq<char>, is_mod_rs: bool) -> Option<Seq<char>> {
    if is_mod_rs {
        match parent_view(path_view(definition_file)) {
            Some(d) => Some(render(d)),
            None => None,
        }
    } else {
        Some(render(with_extension_view(path_view(definition_file), Seq::empty())))
    }
}

/// A name without its `.rs` suffix.
pub open spec fn without_rs(name: Seq<char>) -> Seq<char> {
    if name.len() >= 3 && name.skip(name.len() - 3) == ".rs"@ {
        name.take(name.len() - 3)
    } else {
        name
    }
}

/// The module path that the components `rel` of a file below the base
/// directory add: the directories, then the file's stem unless the file is
/// a `mod.rs`.
pub open spec fn logical_tail(rel: Seq<Seq<char>>) -> Seq<Seq<char>> {
    if rel.len() == 0 {
        rel
    } else if rel.last() == "mod.rs"@ {
        rel.drop_last()
    } else {
        rel.drop_last().push(without_rs(rel.last()))
    }
}

/// The `.rs` files among `walked` other than the definition file, with the
/// module path of each: the module's segments, then what its place below
/// `base` adds. Paths that do not lie below `base` are left out (a walk of
/// `base` finds none).
pub open spec fn module_entries(
    base: Seq<char>,
    definition_file: Seq<char>,
    segments: Seq<Seq<char>>,
    walked: Seq<Seq<char>>,
) -> Seq<(Seq<char>, Seq<Seq<char>>)>
    decreases walked.len(),
{
    if walked.len() == 0 {
        Seq::empty()
    } else {
        let rest = module_entries(base, definition_file, segments, walked.drop_last());
        let w = walked.last();
        if path_extension_view(w) == Some("rs"@) && path_view(w) != path_view(definition_file) {
            match strip_prefix_view(path_view(w), path_view(base)) {
                Some(r) => rest.push((w, segments + logical_tail(r.parts))),
                None => rest,
            }
        } else {
            rest
        }
    }
}

/// The files of the module defined in `definition_file` with the module
/// path of each: the definition file first, then the files found below its
/// base directory.
pub open spec fn module_files_view(
    definition_file: Seq<char>,
    segments: Seq<Seq<char>>,
    is_mod_rs: bool,
    walked: Seq<Seq<char>>,
) -> Seq<(Seq<char>, Seq<Seq<char>>)> {
    seq![(definition_file, segments)] + match module_base_view(definition_file, is_mod_rs) {
        Some(base) => module_entries(base, definition_file, segments, walked),
        None => Seq::empty(),
    }
}

pub open spec fn file_module_views(v: Seq<(String, Vec<String>)>) -> Seq<(Seq<char>, Seq<Seq<char>>)> {
    v.map_values(|e: (String, Vec<String>)| (e.0@, string_seqs(e.1@)))
}

/// The base directory of the module defined in `definition_file` (see
/// `module_base_view`), which a caller walks for the files of the module.
pub fn module_base_directory(definition_file: &str, is_mod_rs: bool) -> (r: Option<String>)
    ensures
        opt_view(r) == module_base_view(definition_file@, is_mod_rs),
{
    if is_mod_rs {
        path_parent(definition_file)
    } else {
        proof {
            reveal_strlit("");
            assert(""@ =~= Seq::<char>::empty());
            assert(!""@.contains('/'));
        }
        Some(path_with_extension(definition_file, ""))
    }
}

fn logical_module(segments: &Vec<String>, rel: &Vec<String>) -> (r: Vec<String>)
    ensures
        string_seqs(r@) == string_seqs(segments@) + logical_tail(string_seqs(rel@)),
{
    let ghost sv = string_seqs(segments@);
    let ghost rv = string_seqs(rel@);
    let mut r: Vec<String> = Vec::new();
    let mut k: usize = 0;
    while k < segments.len()
        invariant
            k <= segments@.len(),
            sv == string_seqs(segments@),
            string_seqs(r@) == sv.take(k as int),
        decreases segments.len() - k,
    {
        let ghost before = r@;
        let x = segments[k].clone();
        proof {
            lemma_string_seqs_push(before, x);
        }
        r.push(x);
        assert(sv.take(k as int + 1) =~= sv.take(k as int).push(sv[k as int]));
        k = k + 1;
    }
    assert(sv.take(segments@.len() as int) =~= sv);
    if rel.len() == 0 {
        assert(string_seqs(r@) =~= sv + logical_tail(rv));
        return r;
    }
    let n = rel.len() - 1;
    let mut m: usize = 0;
    while m < n
        invariant
            n + 1 == rel@.len(),
            m <= n,
            rv == string_seqs(rel@),
            string_seqs(r@) == sv + rv.take(m as int),
        decreases n - m,
    {
        let ghost before = r@;
        let x = rel[m].clone();
        proof {
            lemma_string_seqs_push(before, x);
        }
        r.push(x);
        assert(rv.take(m as int + 1) =~= rv.take(m as int).push(rv[m as int]));
        assert(sv + rv.take(m as int + 1) =~= (sv + rv.take(m as int)).push(rv[m as int]));
        m = m + 1;
    }
    assert(rv.take(n as int) =~= rv.drop_last());
    let last = chars_of(rel[n].as_str());
    if name_is(&rel[n], "mod.rs") {
        assert(string_seqs(r@) =~= sv + logical_tail(rv));
        return r;
    }
    let len = last.len();
    let mut stem = rel[n].clone();
    if len >= 3 && last[len - 3] == '.' && last[len - 2] == 'r' && last[len - 1] == 's' {
        proof {
            reveal_strlit(".rs");
            assert(last@.skip(len - 3) =~= ".rs"@);
        }
        stem = string_from(&last, 0, len - 3);
        assert(stem@ =~= last@.take(len - 3));
    } else {
        proof {
            reveal_strlit(".rs");
            if len >= 3 && last@.skip(len - 3) == ".rs"@ {
                assert(last@.skip(len - 3)[0] == last@[len - 3]);
                assert(last@.skip(len - 3)[1] == last@[len - 2]);
                assert(last@.skip(len - 3)[2] == last@[len - 1]);
            }
        }
    }
    let ghost before = r@;
    proof {
        lemma_string_seqs_push(before, stem);
    }
    r.push(stem);
    assert(rv.last() == rv[n as int]);
    assert(string_seqs(r@) =~= sv + logical_tail(rv));
    r
}

/// The Rust files of the module defined in `definition_file`, with the
/// module path of each; `walked` holds the files that a walk of its base
/// directory (`module_base_directory`) found, and is empty where that
/// directory does not exist.
pub fn module_files(definition_file: &str, segments: &Vec<String>, is_mod_rs: bool, walked: &Vec<String>) -> (r:
    Vec<(String, Vec<String>)>)
    ensures
        file_module_views(r@) == module_files_view(
            definition_file@,
            string_seqs(segments@),
            is_mod_rs,
            string_seqs(walked@),
        ),
{
    let ghost sv = string_seqs(segments@);
    let ghost wv = string_seqs(walked@);
    let mut r: Vec<(String, Vec<String>)> = Vec::new();
    let first = (definition_file.to_owned(), logical_module(segments, &Vec::new()));
    assert(string_seqs(Seq::<String>::empty()) =~= Seq::<Seq<char>>::empty());
    assert(logical_tail(Seq::<Seq<char>>::empty()) =~= Seq::<Seq<char>>::empty());
    assert(sv + Seq::<Seq<char>>::empty() =~= sv);
    r.push(first);
    assert(file_module_views(r@) =~= seq![(definition_file@, sv)]);
    let base = match module_base_directory(definition_file, is_mod_rs) {
        None => {
            assert(file_module_views(r@) =~= module_files_view(definition_file@, sv, is_mod_rs, wv));
            return r;
        },
        Some(b) => b,
    };
    let mut j: usize = 0;
    while j < walked.len()
        invariant
            j <= walked@.len(),
            wv == string_seqs(walked@),
            sv == string_seqs(segments@),
            module_base_view(definition_file@, is_mod_rs) == Some(base@),
            file_module_views(r@) == seq![(definition_file@, sv)] + module_entries(
                base@,
                definition_file@,
                sv,
                wv.take(j as int),
            ),
        decreases walked.len() - j,
    {
        let ghost before = file_module_views(r@);
        assert(wv.take(j as int + 1).drop_last() =~= wv.take(j as int));
        assert(wv.take(j as int + 1).last() == wv[j as int]);
        let w = walked[j].as_str();
        if has_extension(w, "rs") && !same_path(w, definition_file) {
            match strip_path_prefix(w, base.as_str()) {
                Some(rest) => {
                    let rel = parse_path(rest.as_str()).parts;
                    proof {
                        assert(string_views(rel@) == path_view(rest@).parts);
                        assert(string_views(rel@) =~= string_seqs(rel@));
                    }
                    let logical = logical_module(segments, &rel);
                    let ghost e = (w@, string_seqs(logical@));
                    r.push((walked[j].clone(), logical));
                    assert(file_module_views(r@) =~= before.push(e));
                },
                None => {},
            }
        }
        j = j + 1;
    }
    assert(wv.take(walked@.len() as int) =~= wv);
    r
}
} // verus!
