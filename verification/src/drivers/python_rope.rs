//! Python through Rope.

use vstd::prelude::*;
use super::RefactorDriver;

verus! {

/// The Rope driver.
pub struct RopeDriver;

impl RefactorDriver for RopeDriver {
    fn lang(&self) -> (r: &'static str)
        ensures
            r@ == "python"@,
    {
        "python"
    }
}

} // verus!
