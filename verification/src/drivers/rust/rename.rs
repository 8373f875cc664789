//! Renaming a module within its directory through rust-analyzer.

use vstd::prelude::*;
use super::{
    RustError, RustErrorView, is_rust_identifier, is_valid_rust_identifier, rename_names_view,
    rust_rename_names,
};
use crate::drivers::lsp_client::{Position, abs_path_view, resolve_abs_path};
use crate::source_lines::{
    find_module_name_position, ident_end, ident_end_exec, module_name_position_view,
};
use crate::text::chars_of;

verus! {

/// A rename of a module: the file that declares it, where its name stands,
/// and its new name.
pub struct RustSymbolRenameRequest {
    pub document_path: String,
    pub position: Position,
    pub new_name: String,
}

/// `path` as given where it is absolute, else under `root_dir`.
pub fn absolute_path(root_dir: &str, path: &str) -> (r: String)
    ensures
        r@ == abs_path_view(root_dir@, path@),
{
    resolve_abs_path(root_dir, path)
}

/// Where the name in the first `mod module_name` of `content` (outside
/// comment lines) stands.
pub fn module_name_position(content: &str, module_name: &str) -> (r: Option<Position>)
    requires
        content@.len() <= usize::MAX / 2,
    ensures
        r == module_name_position_view(content@, module_name@),
{
    let t = chars_of(content);
    find_module_name_position(&t, module_name)
}

/// The end of the identifier that starts at `start` in `line`.
pub fn identifier_end(line: &str, start: usize) -> (r: usize)
    requires
        start <= line@.len(),
    ensures
        r as int == ident_end(line@, start as int, line@.len() as int),
{
    let t = chars_of(line);
    ident_end_exec(&t, start, t.len())
}

/// Whether `value` is a Rust identifier.
pub fn is_identifier(value: &str) -> (b: bool)
    ensures
        b == is_rust_identifier(value@),
{
    is_valid_rust_identifier(value)
}

/// The refusal of `rename_names_view` in the words of the rename request.
pub open spec fn symbol_rename_names_view(source_abs: Seq<char>, target_abs: Seq<char>) -> Result<
    Option<(Seq<char>, Seq<char>)>,
    RustErrorView,
> {
    match rename_names_view(source_abs, target_abs) {
        Err(RustErrorView::SourceStem) => Err(RustErrorView::SourceStemUtf8),
        Err(RustErrorView::TargetStem) => Err(RustErrorView::TargetStemUtf8),
        other => other,
    }
}

/// The old and new module names where moving `source_abs` to `target_abs`
/// renames a module.
pub fn symbol_rename_names(source_abs: &str, target_abs: &str) -> (r: Result<
    Option<(String, String)>,
    RustError,
>)
    ensures
        match r {
            Ok(None) => symbol_rename_names_view(source_abs@, target_abs@) == Ok::<
                Option<(Seq<char>, Seq<char>)>,
                RustErrorView,
            >(None),
            Ok(Some((a, b))) => symbol_rename_names_view(source_abs@, target_abs@) == Ok::<
                Option<(Seq<char>, Seq<char>)>,
                RustErrorView,
            >(Some((a@, b@))),
            Err(e) => symbol_rename_names_view(source_abs@, target_abs@) == Err::<
                Option<(Seq<char>, Seq<char>)>,
                RustErrorView,
            >(e@),
        },
{
    match rust_rename_names(source_abs, target_abs) {
        Ok(x) => Ok(x),
        Err(RustError::SourceStem) => Err(RustError::SourceStemUtf8),
        Err(RustError::TargetStem) => Err(RustError::TargetStemUtf8),
        Err(e) => Err(e),
    }
}

} // verus!
