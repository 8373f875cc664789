//! Python: Rope first, Pyrefly where Rope is not available.

pub mod pyrefly;
pub mod rope;

use vstd::prelude::*;
use super::RefactorDriver;
use super::python_pyrefly::PyreflyDriver;
use super::python_rope::RopeDriver;

verus! {

/// The Python driver.
pub struct PythonDriver {
    pub rope: RopeDriver,
    pub pyrefly: PyreflyDriver,
}

impl PythonDriver {
    pub fn new() -> (d: Self)
        ensures
            d.pyrefly.client.binary_path_view() == ".venv/bin/pyrefly"@,
    {
        PythonDriver { rope: RopeDriver, pyrefly: PyreflyDriver::new() }
    }
}

impl RefactorDriver for PythonDriver {
    fn lang(&self) -> (r: &'static str)
        ensures
            r@ == "python"@,
    {
        "python"
    }
}

/// Which Python backend moves the files: Rope where it is available, else
/// Pyrefly, else none.
#[derive(Debug, Clone, Copy, PartialEq, Eq, Structural)]
pub enum PythonBackend {
    Rope,
    Pyrefly,
}

/// Picks the Python backend.
pub fn choose_python_backend(rope_available: bool, pyrefly_available: bool) -> (r: Option<
    PythonBackend,
>)
    ensures
        r == (if rope_available {
            Some(PythonBackend::Rope)
        } else if pyrefly_available {
            Some(PythonBackend::Pyrefly)
        } else {
            None
        }),
{
    if rope_available {
        Some(PythonBackend::Rope)
    } else if pyrefly_available {
        Some(PythonBackend::Pyrefly)
    } else {
        None
    }
}

} // verus!
