//! Dart: moves through the Dart analysis server.

use vstd::prelude::*;
use super::RefactorDriver;
use super::lsp_client::LspClient;

verus! {

/// The Dart driver; it talks to `dart language-server`.
pub struct DartDriver {
    pub client: LspClient,
}

impl DartDriver {
    pub fn new() -> (d: Self)
        ensures
            d.client.binary_path_view() == "dart"@,
    {
        DartDriver { client: LspClient::new("dart") }
    }
}

impl RefactorDriver for DartDriver {
    fn lang(&self) -> (r: &'static str)
        ensures
            r@ == "dart"@,
    {
        "dart"
    }
}

} // verus!
