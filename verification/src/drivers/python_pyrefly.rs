//! Python through the Pyrefly language server of the project's `.venv`.

use vstd::prelude::*;
use super::RefactorDriver;
use super::lsp_client::LspClient;

verus! {

/// The Pyrefly driver.
pub struct PyreflyDriver {
    pub client: LspClient,
}

impl PyreflyDriver {
    pub fn new() -> (d: Self)
        ensures
            d.client.binary_path_view() == ".venv/bin/pyrefly"@,
    {
        PyreflyDriver { client: LspClient::new(".venv/bin/pyrefly") }
    }
}

impl RefactorDriver for PyreflyDriver {
    fn lang(&self) -> (r: &'static str)
        ensures
            r@ == "python"@,
    {
        "python"
    }
}

} // verus!
