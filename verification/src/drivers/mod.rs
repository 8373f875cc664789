//! The language drivers. Each one moves the files of its language and
//! updates the references to them; the tools they drive run outside this
//! library, which holds what they decide.

pub mod dart;
pub mod go;
pub mod lsp_client;
pub mod markdown;
pub mod python;
pub mod python_pyrefly;
pub mod python_rope;
pub mod rust;
pub mod typescript;

use vstd::prelude::*;
use crate::paths::{join_path, joined_text};

verus! {

/// A refactoring driver for one language.
pub trait RefactorDriver {
    /// The name of the language that the driver handles (e.g. `typescript`).
    fn lang(&self) -> &'static str;
}

/// The paths on disk of a requested move: under the project root where there
/// is one (an absolute path stays as it is), else as given.
pub open spec fn move_path_view(path: Seq<char>, root: Option<Seq<char>>) -> Seq<char> {
    match root {
        Some(r) => joined_text(r, path),
        None => path,
    }
}

/// The source and target on disk of a requested move.
pub fn filesystem_move_paths(source: &str, target: &str, root_path: Option<&str>) -> (r: (
    String,
    String,
))
    ensures
        r.0@ == move_path_view(source@, crate::validation::opt_chars(root_path)),
        r.1@ == move_path_view(target@, crate::validation::opt_chars(root_path)),
{
    match root_path {
        Some(root) => (join_path(root, source), join_path(root, target)),
        None => (source.to_owned(), target.to_owned()),
    }
}

} // verus!
