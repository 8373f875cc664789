//! Python through a Pyrefly binary found beside the program.

use vstd::prelude::*;
use super::super::RefactorDriver;
use super::super::lsp_client::LspClient;

verus! {

/// The Pyrefly driver, with the path of its binary.
pub struct PyreflyDriver {
    pub client: LspClient,
    pub bin_path: String,
}

impl PyreflyDriver {
    /// A driver for the Pyrefly binary at `bin_path`.
    pub fn new(bin_path: &str) -> (d: Self)
        ensures
            d.client.binary_path_view() == bin_path@,
            d.bin_path@ == bin_path@,
    {
        PyreflyDriver { client: LspClient::new(bin_path), bin_path: bin_path.to_owned() }
    }
}

impl RefactorDriver for PyreflyDriver {
    fn lang(&self) -> (r: &'static str)
        ensures
            r@ == "python"@,
    {
        "python"
    }
}

} // verus!
