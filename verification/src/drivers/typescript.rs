//! TypeScript and JavaScript through a ts-morph script run by Bun.

use vstd::prelude::*;
use super::RefactorDriver;

verus! {

/// The TypeScript driver.
pub struct TypeScriptDriver;

impl RefactorDriver for TypeScriptDriver {
    fn lang(&self) -> (r: &'static str)
        ensures
            r@ == "typescript"@,
    {
        "typescript"
    }
}

} // verus!
