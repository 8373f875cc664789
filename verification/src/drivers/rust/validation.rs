//! Checks on a requested module move.

use vstd::prelude::*;
use super::{RustError, RustErrorView, join_segments, joined_path};
use crate::validation::string_seqs;

verus! {

/// Why moving the module `source` to `target` is refused: the same path, or
/// a target inside the source's own subtree.
pub open spec fn module_move_refusal(source: Seq<Seq<char>>, target: Seq<Seq<char>>) -> Option<
    RustErrorView,
> {
    if source == target {
        Some(RustErrorView::IdenticalPaths)
    } else if source.len() <= target.len() && target.take(source.len() as int) == source {
        Some(
            RustErrorView::IntoOwnSubtree { source: joined_path(source), target: joined_path(target) },
        )
    } else {
        None
    }
}

fn same_strings(a: &Vec<String>, b: &Vec<String>, n: usize) -> (r: bool)
    requires
        n <= a@.len(),
        n <= b@.len(),
    ensures
        r == (string_seqs(a@).take(n as int) == string_seqs(b@).take(n as int)),
{
    let mut k: usize = 0;
    while k < n
        invariant
            k <= n <= a@.len(),
            n <= b@.len(),
            forall|m: int| 0 <= m < k ==> a@[m]@ == b@[m]@,
        decreases n - k,
    {
        if a[k] != b[k] {
            assert(string_seqs(a@).take(n as int)[k as int] != string_seqs(b@).take(n as int)[k as int]);
            return false;
        }
        k = k + 1;
    }
    assert(string_seqs(a@).take(n as int) =~= string_seqs(b@).take(n as int));
    true
}

/// Refuses a module move onto itself or into its own subtree.
pub fn validate_paths(source: &Vec<String>, target: &Vec<String>) -> (r: Result<(), RustError>)
    ensures
        match r {
            Ok(()) => module_move_refusal(string_seqs(source@), string_seqs(target@)) is None,
            Err(e) => module_move_refusal(string_seqs(source@), string_seqs(target@)) == Some(e@),
        },
{
    let ghost sv = string_seqs(source@);
    let ghost tv = string_seqs(target@);
    if source.len() == target.len() && same_strings(source, target, source.len()) {
        assert(sv.take(sv.len() as int) =~= sv);
        assert(tv.take(tv.len() as int) =~= tv);
        return Err(RustError::IdenticalPaths);
    }
    assert(source@.len() == target@.len() ==> (sv == tv ==> sv.take(sv.len() as int) == tv.take(
        tv.len() as int,
    )));
    assert(sv.len() != tv.len() ==> sv != tv);
    if source.len() <= target.len() && same_strings(source, target, source.len()) {
        assert(sv.take(sv.len() as int) =~= sv);
        return Err(
            RustError::IntoOwnSubtree {
                source: join_segments(source),
                target: join_segments(target),
            },
        );
    }
    proof {
        if sv.len() <= tv.len() && tv.take(sv.len() as int) == sv {
            assert(sv.take(sv.len() as int) =~= sv);
        }
    }
    Ok(())
}

/// Moving a module onto itself or into its own subtree is refused.
pub proof fn lemma_no_move_into_own_subtree(source: Seq<Seq<char>>, extra: Seq<Seq<char>>)
    ensures
        module_move_refusal(source, source + extra) is Some,
{
    assert((source + extra).take(source.len() as int) =~= source);
}

} // verus!
