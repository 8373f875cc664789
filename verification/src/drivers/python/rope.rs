//! Python through Rope.

use vstd::prelude::*;
use super::super::RefactorDriver;
use crate::logic::{rel_display, rel_view};
use crate::validation::opt_chars;

verus! {

/// The Rope driver.
pub struct RopeDriver;

impl RefactorDriver for RopeDriver {
    fn lang(&self) -> (r: &'static str)
        ensures
            r@ == "python"@,
    {
        "python"
    }
}

/// The moves as Rope takes them: each path relative to the project root
/// where it lies under it, else as given.
pub fn rope_relative_paths(file_map: &Vec<(String, String)>, root: Option<&str>) -> (r: Vec<
    (String, String),
>)
    ensures
        r@.len() == file_map@.len(),
        forall|i: int|
            0 <= i < r@.len() ==> #[trigger] r@[i].0@ == rel_view(file_map@[i].0@, opt_chars(root))
                && r@[i].1@ == rel_view(file_map@[i].1@, opt_chars(root)),
{
    let mut r: Vec<(String, String)> = Vec::new();
    let mut j: usize = 0;
    while j < file_map.len()
        invariant
            j <= file_map@.len(),
            r@.len() == j,
            forall|i: int|
                0 <= i < j ==> #[trigger] r@[i].0@ == rel_view(file_map@[i].0@, opt_chars(root))
                    && r@[i].1@ == rel_view(file_map@[i].1@, opt_chars(root)),
        decreases file_map.len() - j,
    {
        let s = rel_display(file_map[j].0.as_str(), root);
        let t = rel_display(file_map[j].1.as_str(), root);
        r.push((s, t));
        j = j + 1;
    }
    r
}

} // verus!
