//! Go: moves through gopls. A move to another directory renames the
//! package, which gopls carries out; what the rename asks for is decided
//! here.

use vstd::prelude::*;
use super::RefactorDriver;
use super::lsp_client::Position;
use crate::paths::{
    file_name_view, join_parts, join_path, join_view, joined_text, parent_view, path_file_name, path_parent,
    path_view, render, same_parent, strip_path_prefix, strip_prefix_view,
};
use crate::source_lines::{
    find_go_module_path, find_package_name_position, go_module_path_view, ident_end,
    ident_end_exec, line_start_at, newline_count, opt_string_view, package_position_view, utf16_count, utf16_units,
};
use crate::text::{chars_of, push_str};
use crate::validation::{debug_quoted, debug_text};

verus! {

/// The Go driver.
pub struct GoDriver;

impl GoDriver {
    pub fn new() -> (d: Self) {
        GoDriver
    }
}

impl RefactorDriver for GoDriver {
    fn lang(&self) -> (r: &'static str)
        ensures
            r@ == "go"@,
    {
        "go"
    }
}

/// Why a Go move cannot be planned.
pub enum GoError {
    MissingGoMod,
    UnparsableGoMod,
    MissingTargetParent,
    OutsideRoot { dir: String },
    NoPackageDeclaration,
}

pub enum GoErrorView {
    MissingGoMod,
    UnparsableGoMod,
    MissingTargetParent,
    OutsideRoot { dir: Seq<char> },
    NoPackageDeclaration,
}

impl View for GoError {
    type V = GoErrorView;

    open spec fn view(&self) -> GoErrorView {
        match self {
            GoError::MissingGoMod => GoErrorView::MissingGoMod,
            GoError::UnparsableGoMod => GoErrorView::UnparsableGoMod,
            GoError::MissingTargetParent => GoErrorView::MissingTargetParent,
            GoError::OutsideRoot { dir } => GoErrorView::OutsideRoot { dir: dir@ },
            GoError::NoPackageDeclaration => GoErrorView::NoPackageDeclaration,
        }
    }
}

pub open spec fn go_error_message(e: GoErrorView) -> Seq<char> {
    match e {
        GoErrorView::MissingGoMod =>
            "Go refactors that move files across directories require go.mod at project root"@,
        GoErrorView::UnparsableGoMod => "Could not parse module path from go.mod"@,
        GoErrorView::MissingTargetParent => "Go target path is missing a parent directory"@,
        GoErrorView::OutsideRoot { dir } => "Go target directory "@ + debug_text(dir)
            + " is outside project root"@,
        GoErrorView::NoPackageDeclaration =>
            "Could not find a package declaration in the Go source file"@,
    }
}

impl GoError {
    /// The text of the error.
    pub fn message(&self) -> (m: String)
        ensures
            m@ == go_error_message(self@),
    {
        let mut m = String::new();
        match self {
            GoError::MissingGoMod => push_str(
                &mut m,
                "Go refactors that move files across directories require go.mod at project root",
            ),
            GoError::UnparsableGoMod => push_str(&mut m, "Could not parse module path from go.mod"),
            GoError::MissingTargetParent => push_str(
                &mut m,
                "Go target path is missing a parent directory",
            ),
            GoError::OutsideRoot { dir } => {
                push_str(&mut m, "Go target directory ");
                let quoted = debug_quoted(dir.as_str());
                push_str(&mut m, quoted.as_str());
                push_str(&mut m, " is outside project root");
            },
            GoError::NoPackageDeclaration => push_str(
                &mut m,
                "Could not find a package declaration in the Go source file",
            ),
        }
        m
    }
}

/// The module path that a `go.mod` text declares: the first line that is
/// neither blank nor a comment and starts with `module `.
pub fn parse_go_module_path(content: &str) -> (r: Option<String>)
    requires
        content@.len() <= usize::MAX / 2,
    ensures
        opt_string_view(r) == go_module_path_view(content@),
{
    let t = chars_of(content);
    find_go_module_path(&t)
}

/// Where the package name of a Go file stands: its line, and its column in
/// UTF-16 code units.
pub fn find_go_package_name_position(content: &str) -> (r: Option<Position>)
    requires
        content@.len() <= usize::MAX / 2,
    ensures
        r == package_position_view(content@),
        r matches Some(pos) ==> exists|ns: int|
            8 <= ns <= content@.len() && content@.subrange(ns - 8, ns) == "package "@ && ident_end(
                content@,
                ns,
                content@.len() as int,
            ) > ns && pos.line == newline_count(#[trigger] content@.take(ns)) as u32 && pos.character
                == utf16_units(content@, line_start_at(content@, ns), ns) as u32,
{
    let t = chars_of(content);
    find_package_name_position(&t)
}

/// The end of the identifier that starts at `start` in `line`.
pub fn go_identifier_end(line: &str, start: usize) -> (r: usize)
    ensures
        r as int == ident_end(line@, start as int, line@.len() as int),
{
    let t = chars_of(line);
    ident_end_exec(&t, start, t.len())
}

/// How many UTF-16 code units encode `value`.
pub fn utf16_len(value: &str) -> (n: usize)
    requires
        value@.len() <= usize::MAX / 2,
    ensures
        n as int == utf16_units(value@, 0, value@.len() as int),
{
    let t = chars_of(value);
    utf16_count(&t, 0, t.len())
}

/// The import path of the package in the directory of `target_abs`: the
/// module path of `go.mod` (`go_mod`, its text, where it could be read),
/// followed by the directory relative to the project root.
pub open spec fn target_package_path(root_dir: Seq<char>, target_abs: Seq<char>, go_mod: Option<Seq<char>>) -> Result<Seq<char>, GoErrorView> {
    match go_mod {
        None => Err(GoErrorView::MissingGoMod),
        Some(text) => match go_module_path_view(text) {
            None => Err(GoErrorView::UnparsableGoMod),
            Some(import_root) => match parent_view(path_view(target_abs)) {
                None => Err(GoErrorView::MissingTargetParent),
                Some(dir) => match strip_prefix_view(dir, path_view(root_dir)) {
                    None => Err(GoErrorView::OutsideRoot { dir: render(dir) }),
                    Some(rel) => if rel.parts.len() == 0 {
                        Ok(import_root)
                    } else {
                        Ok(import_root + seq!['/'] + join_parts(rel.parts))
                    },
                },
            },
        },
    }
}

pub open spec fn opt_text(o: Option<&str>) -> Option<Seq<char>> {
    match o {
        Some(s) => Some(s@),
        None => None,
    }
}

/// The import path of the package that `target_abs` moves into.
pub fn build_go_target_package_path(root_dir: &str, target_abs: &str, go_mod: Option<&str>) -> (r:
    Result<String, GoError>)
    requires
        go_mod matches Some(g) ==> g@.len() <= usize::MAX / 2,
    ensures
        match r {
            Ok(s) => target_package_path(root_dir@, target_abs@, opt_text(go_mod)) == Ok::<
                Seq<char>,
                GoErrorView,
            >(s@),
            Err(e) => target_package_path(root_dir@, target_abs@, opt_text(go_mod)) == Err::<
                Seq<char>,
                GoErrorView,
            >(e@),
        },
{
    let text = match go_mod {
        None => return Err(GoError::MissingGoMod),
        Some(g) => g,
    };
    let import_root = match parse_go_module_path(text) {
        None => return Err(GoError::UnparsableGoMod),
        Some(m) => m,
    };
    let target_dir = match path_parent(target_abs) {
        None => return Err(GoError::MissingTargetParent),
        Some(d) => d,
    };
    let rel = match strip_path_prefix(target_dir.as_str(), root_dir) {
        None => return Err(GoError::OutsideRoot { dir: target_dir }),
        Some(r) => r,
    };
    proof {
        crate::paths::lemma_path_view_ok(rel@);
        if path_view(rel@).parts.len() > 0 {
            assert(crate::paths::part_ok(path_view(rel@).parts[0]));
            crate::paths::lemma_join_parts_nonempty(path_view(rel@).parts);
        }
    }
    if rel.as_str().is_empty() {
        return Ok(import_root);
    }
    let mut s = import_root;
    push_str(&mut s, "/");
    push_str(&mut s, rel.as_str());
    proof {
        reveal_strlit("/");
        assert("/"@ =~= seq!['/']);
        let rv = path_view(rel@);
        assert(strip_prefix_view(path_view(target_dir@), path_view(root_dir@)) == Some(rv));
        assert(!rv.abs && !rv.cur);
        assert(rel@ == join_parts(rv.parts));
    }
    Ok(s)
}

/// Where the source file is after gopls renamed its package: beside the
/// target, under its own name. `None` where no package rename ran or the
/// file stays in its directory.
pub open spec fn post_rename_source(source_abs: Seq<char>, target_abs: Seq<char>, did_invoke_package_rename: bool) -> Option<Seq<char>> {
    if !did_invoke_package_rename || parent_view(path_view(source_abs)) == parent_view(
        path_view(target_abs),
    ) {
        None
    } else {
        match file_name_view(path_view(source_abs)) {
            None => None,
            Some(name) => match parent_view(path_view(target_abs)) {
                None => None,
                Some(dir) => Some(joined_text(render(dir), name)),
            },
        }
    }
}

/// Where the source file is after gopls renamed its package.
pub fn build_go_post_lsp_source_path(
    source_abs: &str,
    target_abs: &str,
    did_invoke_package_rename: bool,
) -> (r: Option<String>)
    ensures
        opt_string_view(r) == post_rename_source(source_abs@, target_abs@, did_invoke_package_rename),
{
    if !did_invoke_package_rename || same_parent(source_abs, target_abs) {
        return None;
    }
    let name = match path_file_name(source_abs) {
        None => return None,
        Some(n) => n,
    };
    let dir = match path_parent(target_abs) {
        None => return None,
        Some(d) => d,
    };
    Some(join_path(dir.as_str(), name.as_str()))
}

/// A rename of a Go package: the file to rename it in, where its name
/// stands, and its new import path.
pub struct GoPackageRenameRequest {
    pub document_path: String,
    pub position: Position,
    pub new_name: String,
}

/// What moving `source_abs` to `target_abs` asks of gopls: nothing where
/// the file stays in its directory, else the rename of its package (found in
/// `source_content`, the text of the file) to the import path of the target
/// directory.
pub open spec fn package_rename(
    root_dir: Seq<char>,
    source_abs: Seq<char>,
    target_abs: Seq<char>,
    source_content: Seq<char>,
    go_mod: Option<Seq<char>>,
) -> Result<Option<(Seq<char>, Position, Seq<char>)>, GoErrorView> {
    if parent_view(path_view(source_abs)) == parent_view(path_view(target_abs)) {
        Ok(None)
    } else {
        match package_position_view(source_content) {
            None => Err(GoErrorView::NoPackageDeclaration),
            Some(position) => match target_package_path(root_dir, target_abs, go_mod) {
                Err(e) => Err(e),
                Ok(new_name) => Ok(Some((source_abs, position, new_name))),
            },
        }
    }
}

/// Plans the package rename of a Go move; `source_content` is the text of
/// the source file and `go_mod` that of `go.mod` where it could be read.
pub fn build_go_package_rename_request(
    root_dir: &str,
    source_abs: &str,
    target_abs: &str,
    source_content: &str,
    go_mod: Option<&str>,
) -> (r: Result<Option<GoPackageRenameRequest>, GoError>)
    requires
        source_content@.len() <= usize::MAX / 2,
        go_mod matches Some(g) ==> g@.len() <= usize::MAX / 2,
    ensures
        match r {
            Ok(None) => package_rename(
                root_dir@,
                source_abs@,
                target_abs@,
                source_content@,
                opt_text(go_mod),
            ) == Ok::<Option<(Seq<char>, Position, Seq<char>)>, GoErrorView>(None),
            Ok(Some(q)) => package_rename(
                root_dir@,
                source_abs@,
                target_abs@,
                source_content@,
                opt_text(go_mod),
            ) == Ok::<Option<(Seq<char>, Position, Seq<char>)>, GoErrorView>(
                Some((q.document_path@, q.position, q.new_name@)),
            ),
            Err(e) => package_rename(
                root_dir@,
                source_abs@,
                target_abs@,
                source_content@,
                opt_text(go_mod),
            ) == Err::<Option<(Seq<char>, Position, Seq<char>)>, GoErrorView>(e@),
        },
        parent_view(path_view(source_abs@)) == parent_view(path_view(target_abs@)) ==> r matches Ok(
            None,
        ),
{
    if same_parent(source_abs, target_abs) {
        return Ok(None);
    }
    let position = match find_go_package_name_position(source_content) {
        None => return Err(GoError::NoPackageDeclaration),
        Some(p) => p,
    };
    let new_name = match build_go_target_package_path(root_dir, target_abs, go_mod) {
        Err(e) => return Err(e),
        Ok(n) => n,
    };
    Ok(Some(GoPackageRenameRequest { document_path: source_abs.to_owned(), position, new_name }))
}

} // verus!
