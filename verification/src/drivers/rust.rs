//! Rust: moves through rust-analyzer. A move within a directory renames the
//! module; a move to another directory keeps the old module path working
//! through a `#[path]` declaration and a `use` alias. What those edits are
//! is decided here; reading and writing the files is done outside.
//!
//! A move that rewrites every reference through rust-analyzer's semantic
//! database (resolving the module, walking its syntax tree for `use` and
//! `super::` paths) is not carried out: the rust-analyzer library crates are
//! not available to this project. The rules of that move that stand apart
//! from the database are in the submodules: module paths, the shapes of
//! module that may move, where the files go, and the text of the edits.

pub mod apply;
pub mod layout;
pub mod module_graph;
pub mod planner;
pub mod references;
pub mod rename;
pub mod validation;

use vstd::prelude::*;
use super::RefactorDriver;
use super::lsp_client::Position;
use super::markdown::parser::shared::{lemma_line_end, line_end_exec, line_end_from};
use super::markdown::rewrite::pathing::{common_from, lemma_common_from, ups};
use crate::paths::{
    PathParts, PathView, file_name_view, join_parts, join_path, join_view, joined_text, lemma_path_view_ok,
    opt_view, parent_view, parse_path, part_ok, path_file_name, path_file_stem, path_parent,
    path_stem_view, path_view, path_with_extension, render, same_path, strip_path_prefix,
    strip_prefix_view, string_views, with_extension_view,
};
use crate::source_lines::{
    declaration_scan, find_module_declaration, find_module_name_position, ident_end,
    ident_end_exec, line_start_at, module_name_position_view, newline_count, utf16_count, utf16_units,
};
use crate::text::{
    ascii_alnum, ascii_alpha, chars_of, decimal, is_ascii_alnum, is_ascii_alpha, push_char,
    push_decimal, push_str, string_from, trim_bounds, trim_range,
};
use crate::validation::{debug_quoted, debug_text, lemma_string_seqs_push, string_seqs};

verus! {

/// The Rust driver.
pub struct RustDriver;

impl RustDriver {
    pub fn new() -> (d: Self) {
        RustDriver
    }
}

impl RefactorDriver for RustDriver {
    fn lang(&self) -> (r: &'static str)
        ensures
            r@ == "rust"@,
    {
        "rust"
    }
}

/// Why a Rust move cannot be planned.
pub enum RustError {
    NotCratePath { value: String },
    CrateRoot,
    BadSegment { segment: String, value: String },
    IdenticalPaths,
    IntoOwnSubtree { source: String, target: String },
    ComplexPath { text: String },
    OutsideDirectory { root: String },
    NoParentDirectory,
    ModRsWithoutDirectory,
    SourceStem,
    TargetStem,
    SourceStemUtf8,
    TargetStemUtf8,
    FileStem,
    OutsideSrc { file: String, src: String },
    NoCrateRoot,
    PlannedEditOutside { path: String },
    OverlappingEdits { path: String },
    GroupedUse { path: String },
    ClimbsAboveRoot { text: String, path: String },
    InlineModule { module: String },
    PathShim { module: String },
    AttributedDeclaration { module: String },
    UnsupportedVisibility { module: String, visibility: String },
    Unresolved { module: String, root: String },
    Ambiguous { module: String, count: usize, locations: String },
    TargetWithoutName,
}

pub enum RustErrorView {
    NotCratePath { value: Seq<char> },
    CrateRoot,
    BadSegment { segment: Seq<char>, value: Seq<char> },
    IdenticalPaths,
    IntoOwnSubtree { source: Seq<char>, target: Seq<char> },
    ComplexPath { text: Seq<char> },
    OutsideDirectory { root: Seq<char> },
    NoParentDirectory,
    ModRsWithoutDirectory,
    SourceStem,
    TargetStem,
    SourceStemUtf8,
    TargetStemUtf8,
    FileStem,
    OutsideSrc { file: Seq<char>, src: Seq<char> },
    NoCrateRoot,
    PlannedEditOutside { path: Seq<char> },
    OverlappingEdits { path: Seq<char> },
    GroupedUse { path: Seq<char> },
    ClimbsAboveRoot { text: Seq<char>, path: Seq<char> },
    InlineModule { module: Seq<char> },
    PathShim { module: Seq<char> },
    AttributedDeclaration { module: Seq<char> },
    UnsupportedVisibility { module: Seq<char>, visibility: Seq<char> },
    Unresolved { module: Seq<char>, root: Seq<char> },
    Ambiguous { module: Seq<char>, count: nat, locations: Seq<char> },
    TargetWithoutName,
}

impl View for RustError {
    type V = RustErrorView;

    open spec fn view(&self) -> RustErrorView {
        match self {
            RustError::NotCratePath { value } => RustErrorView::NotCratePath { value: value@ },
            RustError::CrateRoot => RustErrorView::CrateRoot,
            RustError::BadSegment { segment, value } => RustErrorView::BadSegment {
                segment: segment@,
                value: value@,
            },
            RustError::IdenticalPaths => RustErrorView::IdenticalPaths,
            RustError::IntoOwnSubtree { source, target } => RustErrorView::IntoOwnSubtree {
                source: source@,
                target: target@,
            },
            RustError::ComplexPath { text } => RustErrorView::ComplexPath { text: text@ },
            RustError::OutsideDirectory { root } => RustErrorView::OutsideDirectory { root: root@ },
            RustError::NoParentDirectory => RustErrorView::NoParentDirectory,
            RustError::ModRsWithoutDirectory => RustErrorView::ModRsWithoutDirectory,
            RustError::SourceStem => RustErrorView::SourceStem,
            RustError::TargetStem => RustErrorView::TargetStem,
            RustError::SourceStemUtf8 => RustErrorView::SourceStemUtf8,
            RustError::TargetStemUtf8 => RustErrorView::TargetStemUtf8,
            RustError::FileStem => RustErrorView::FileStem,
            RustError::OutsideSrc { file, src } => RustErrorView::OutsideSrc {
                file: file@,
                src: src@,
            },
            RustError::NoCrateRoot => RustErrorView::NoCrateRoot,
            RustError::PlannedEditOutside { path } => RustErrorView::PlannedEditOutside {
                path: path@,
            },
            RustError::OverlappingEdits { path } => RustErrorView::OverlappingEdits { path: path@ },
            RustError::GroupedUse { path } => RustErrorView::GroupedUse { path: path@ },
            RustError::ClimbsAboveRoot { text, path } => RustErrorView::ClimbsAboveRoot {
                text: text@,
                path: path@,
            },
            RustError::InlineModule { module } => RustErrorView::InlineModule { module: module@ },
            RustError::PathShim { module } => RustErrorView::PathShim { module: module@ },
            RustError::AttributedDeclaration { module } => RustErrorView::AttributedDeclaration {
                module: module@,
            },
            RustError::UnsupportedVisibility { module, visibility } =>
                RustErrorView::UnsupportedVisibility { module: module@, visibility: visibility@ },
            RustError::Unresolved { module, root } => RustErrorView::Unresolved {
                module: module@,
                root: root@,
            },
            RustError::Ambiguous { module, count, locations } => RustErrorView::Ambiguous {
                module: module@,
                count: *count as nat,
                locations: locations@,
            },
            RustError::TargetWithoutName => RustErrorView::TargetWithoutName,
        }
    }
}

pub open spec fn rust_error_message(e: RustErrorView) -> Seq<char> {
    match e {
        RustErrorView::NotCratePath { value } => "Rust module path must start with `crate::`: "@
            + value,
        RustErrorView::CrateRoot => "The crate root cannot be moved; provide a child module path"@,
        RustErrorView::BadSegment { segment, value } => "Unsupported Rust module segment `"@
            + segment + "` in `"@ + value + "`"@,
        RustErrorView::IdenticalPaths => "Source and target Rust module paths are identical"@,
        RustErrorView::IntoOwnSubtree { source, target } => "Cannot move `crate::"@ + source
            + "` into its own subtree `crate::"@ + target + "`"@,
        RustErrorView::ComplexPath { text } => "Unsupported complex Rust path `"@ + text
            + "` in move-module v1"@,
        RustErrorView::OutsideDirectory { root } =>
            "Refusing to create a Rust module directory outside "@ + root,
        RustErrorView::NoParentDirectory => "Directory has no parent"@,
        RustErrorView::ModRsWithoutDirectory => "mod.rs module has no directory"@,
        RustErrorView::SourceStem => "Rust source file is missing a valid stem"@,
        RustErrorView::TargetStem => "Rust target file is missing a valid stem"@,
        RustErrorView::SourceStemUtf8 => "Rust source file is missing a valid UTF-8 stem"@,
        RustErrorView::TargetStemUtf8 => "Rust target file is missing a valid UTF-8 stem"@,
        RustErrorView::FileStem => "Rust file is missing a valid stem"@,
        RustErrorView::OutsideSrc { file, src } => debug_text(file) + " is outside "@ + debug_text(src),
        RustErrorView::NoCrateRoot =>
            "Could not find Rust crate root file (src/lib.rs or src/main.rs)"@,
        RustErrorView::PlannedEditOutside { path } => "Planned edit is outside "@ + path,
        RustErrorView::OverlappingEdits { path } => "Overlapping semantic edits were planned for "@
            + path + "; no files were changed"@,
        RustErrorView::GroupedUse { path } => "Grouped use in "@ + path
            + " cannot express the new module path without restructuring the use item; split the relative group and retry"@,
        RustErrorView::ClimbsAboveRoot { text, path } => "Path `"@ + text + "` in "@ + path
            + " climbs above the crate root"@,
        RustErrorView::InlineModule { module } => "Inline module `crate::"@ + module
            + "` is not supported by move-module v1"@,
        RustErrorView::PathShim { module } => "Module `crate::"@ + module
            + "` uses #[path]; move-module never follows or creates path shims"@,
        RustErrorView::AttributedDeclaration { module } => "Module declaration for `crate::"@ + module
            + "` has attributes; cfg and attributed module moves are not supported in v1"@,
        RustErrorView::UnsupportedVisibility { module, visibility } => "Module `crate::"@ + module
            + "` uses unsupported visibility `"@ + visibility
            + "`; v1 supports private, pub, and pub(crate)"@,
        RustErrorView::Unresolved { module, root } => "Could not resolve `crate::"@ + module
            + "` to an out-of-line module in "@ + root,
        RustErrorView::Ambiguous { module, count, locations } => "`crate::"@ + module
            + "` is ambiguous across "@ + decimal(count) + " workspace crates: "@ + locations,
        RustErrorView::TargetWithoutName => "Target module has no name"@,
    }
}

impl RustError {
    /// The text of the error.
    pub fn message(&self) -> (m: String)
        ensures
            m@ == rust_error_message(self@),
    {
        let mut m = String::new();
        match self {
            RustError::NotCratePath { value } => {
                push_str(&mut m, "Rust module path must start with `crate::`: ");
                push_str(&mut m, value.as_str());
            },
            RustError::CrateRoot => push_str(
                &mut m,
                "The crate root cannot be moved; provide a child module path",
            ),
            RustError::BadSegment { segment, value } => {
                push_str(&mut m, "Unsupported Rust module segment `");
                push_str(&mut m, segment.as_str());
                push_str(&mut m, "` in `");
                push_str(&mut m, value.as_str());
                push_str(&mut m, "`");
            },
            RustError::IdenticalPaths => push_str(
                &mut m,
                "Source and target Rust module paths are identical",
            ),
            RustError::IntoOwnSubtree { source, target } => {
                push_str(&mut m, "Cannot move `crate::");
                push_str(&mut m, source.as_str());
                push_str(&mut m, "` into its own subtree `crate::");
                push_str(&mut m, target.as_str());
                push_str(&mut m, "`");
            },
            RustError::ComplexPath { text } => {
                push_str(&mut m, "Unsupported complex Rust path `");
                push_str(&mut m, text.as_str());
                push_str(&mut m, "` in move-module v1");
            },
            RustError::OutsideDirectory { root } => {
                push_str(&mut m, "Refusing to create a Rust module directory outside ");
                push_str(&mut m, root.as_str());
            },
            RustError::NoParentDirectory => push_str(&mut m, "Directory has no parent"),
            RustError::ModRsWithoutDirectory => push_str(&mut m, "mod.rs module has no directory"),
            RustError::SourceStem => push_str(&mut m, "Rust source file is missing a valid stem"),
            RustError::TargetStem => push_str(&mut m, "Rust target file is missing a valid stem"),
            RustError::SourceStemUtf8 => push_str(
                &mut m,
                "Rust source file is missing a valid UTF-8 stem",
            ),
            RustError::TargetStemUtf8 => push_str(
                &mut m,
                "Rust target file is missing a valid UTF-8 stem",
            ),
            RustError::FileStem => push_str(&mut m, "Rust file is missing a valid stem"),
            RustError::OutsideSrc { file, src } => {
                let f = debug_quoted(file.as_str());
                let s = debug_quoted(src.as_str());
                push_str(&mut m, f.as_str());
                push_str(&mut m, " is outside ");
                push_str(&mut m, s.as_str());
            },
            RustError::NoCrateRoot => push_str(
                &mut m,
                "Could not find Rust crate root file (src/lib.rs or src/main.rs)",
            ),
            RustError::PlannedEditOutside { path } => {
                push_str(&mut m, "Planned edit is outside ");
                push_str(&mut m, path.as_str());
            },
            RustError::OverlappingEdits { path } => {
                push_str(&mut m, "Overlapping semantic edits were planned for ");
                push_str(&mut m, path.as_str());
                push_str(&mut m, "; no files were changed");
            },
            RustError::GroupedUse { path } => {
                push_str(&mut m, "Grouped use in ");
                push_str(&mut m, path.as_str());
                push_str(
                    &mut m,
                    " cannot express the new module path without restructuring the use item; split the relative group and retry",
                );
            },
            RustError::ClimbsAboveRoot { text, path } => {
                push_str(&mut m, "Path `");
                push_str(&mut m, text.as_str());
                push_str(&mut m, "` in ");
                push_str(&mut m, path.as_str());
                push_str(&mut m, " climbs above the crate root");
            },
            RustError::InlineModule { module } => {
                push_str(&mut m, "Inline module `crate::");
                push_str(&mut m, module.as_str());
                push_str(&mut m, "` is not supported by move-module v1");
            },
            RustError::PathShim { module } => {
                push_str(&mut m, "Module `crate::");
                push_str(&mut m, module.as_str());
                push_str(&mut m, "` uses #[path]; move-module never follows or creates path shims");
            },
            RustError::AttributedDeclaration { module } => {
                push_str(&mut m, "Module declaration for `crate::");
                push_str(&mut m, module.as_str());
                push_str(
                    &mut m,
                    "` has attributes; cfg and attributed module moves are not supported in v1",
                );
            },
            RustError::UnsupportedVisibility { module, visibility } => {
                push_str(&mut m, "Module `crate::");
                push_str(&mut m, module.as_str());
                push_str(&mut m, "` uses unsupported visibility `");
                push_str(&mut m, visibility.as_str());
                push_str(&mut m, "`; v1 supports private, pub, and pub(crate)");
            },
            RustError::Unresolved { module, root } => {
                push_str(&mut m, "Could not resolve `crate::");
                push_str(&mut m, module.as_str());
                push_str(&mut m, "` to an out-of-line module in ");
                push_str(&mut m, root.as_str());
            },
            RustError::Ambiguous { module, count, locations } => {
                push_str(&mut m, "`crate::");
                push_str(&mut m, module.as_str());
                push_str(&mut m, "` is ambiguous across ");
                push_decimal(&mut m, *count as u64);
                push_str(&mut m, " workspace crates: ");
                push_str(&mut m, locations.as_str());
            },
            RustError::TargetWithoutName => push_str(&mut m, "Target module has no name"),
        }
        m
    }
}

// ---------------------------------------------------------------------------
// Declarations in source text

/// Where the name in the first `mod module_name` of `content` (outside
/// comment lines) stands: its line, and its column in UTF-16 code units.
pub fn find_rust_module_name_position(content: &str, module_name: &str) -> (r: Option<Position>)
    requires
        content@.len() <= usize::MAX / 2,
    ensures
        r == module_name_position_view(content@, module_name@),
        r matches Some(pos) ==> exists|ns: int|
            4 <= ns && ns + module_name@.len() <= content@.len() && content@.subrange(ns - 4, ns) == "mod "@
                && content@.subrange(ns, ns + module_name@.len()) == module_name@ && pos.line == newline_count(
                #[trigger] content@.take(ns),
            ) as u32 && pos.character == utf16_units(content@, line_start_at(content@, ns), ns) as u32,
{
    let t = chars_of(content);
    find_module_name_position(&t, module_name)
}

/// The line of `content` that declares `mod module_name;` (outside comment
/// lines): its start, the start of the next line, and the text before `mod`.
pub fn find_rust_module_declaration_line(content: &str, module_name: &str) -> (r: Option<
    (usize, usize, String),
>)
    requires
        content@.len() <= usize::MAX / 2,
    ensures
        match r {
            Some((a, b, v)) => declaration_scan(content@, 0, module_name@) == Some(
                (a as int, b as int, a as int + v@.len()),
            ) && v@ == content@.subrange(a as int, a as int + v@.len()),
            None => declaration_scan(content@, 0, module_name@) is None,
        },
{
    let t = chars_of(content);
    find_module_declaration(&t, module_name)
}

/// The end of the identifier that starts at `start` in `line`.
pub fn rust_identifier_end(line: &str, start: usize) -> (r: usize)
    ensures
        r as int == ident_end(line@, start as int, line@.len() as int),
{
    let t = chars_of(line);
    ident_end_exec(&t, start, t.len())
}

/// A Rust identifier as the drivers accept it: a letter or `_`, then
/// letters, digits and `_`, all ASCII.
pub open spec fn is_rust_identifier(s: Seq<char>) -> bool {
    &&& s.len() > 0
    &&& (s[0] == '_' || is_ascii_alpha(s[0]))
    &&& forall|i: int| 1 <= i < s.len() ==> #[trigger] s[i] == '_' || is_ascii_alnum(s[i])
}

/// Whether `value` is a Rust identifier.
pub fn is_valid_rust_identifier(value: &str) -> (b: bool)
    ensures
        b == is_rust_identifier(value@),
{
    let t = chars_of(value);
    if t.len() == 0 || !(t[0] == '_' || ascii_alpha(t[0])) {
        return false;
    }
    let mut i: usize = 1;
    while i < t.len()
        invariant
            1 <= i <= t@.len(),
            t@ == value@,
            forall|j: int| 1 <= j < i ==> #[trigger] t@[j] == '_' || is_ascii_alnum(t@[j]),
        decreases t.len() - i,
    {
        if !(t[i] == '_' || ascii_alnum(t[i])) {
            return false;
        }
        i = i + 1;
    }
    true
}

/// How many UTF-16 code units encode `value`.
pub fn utf16_len(value: &str) -> (n: usize)
    requires
        value@.len() <= usize::MAX / 2,
    ensures
        n as int == utf16_units(value@, 0, value@.len() as int),
{
    let t = chars_of(value);
    utf16_count(&t, 0, t.len())
}

// ---------------------------------------------------------------------------
// Files of the crate

/// `root/src`.
pub open spec fn src_dir_view(root: Seq<char>) -> PathView {
    join_view(path_view(root), path_view("src"@))
}

/// The crate root file: `src/lib.rs` where it exists, else `src/main.rs`
/// where it exists.
pub open spec fn crate_root_view(root: Seq<char>, lib_exists: bool, main_exists: bool) -> Result<
    Seq<char>,
    RustErrorView,
> {
    if lib_exists {
        Ok(joined_text(root, "src/lib.rs"@))
    } else if main_exists {
        Ok(joined_text(root, "src/main.rs"@))
    } else {
        Err(RustErrorView::NoCrateRoot)
    }
}

/// The crate root file under `root_dir`; `lib_exists` and `main_exists`
/// tell whether `src/lib.rs` and `src/main.rs` exist.
pub fn crate_root_file(root_dir: &str, lib_exists: bool, main_exists: bool) -> (r: Result<
    String,
    RustError,
>)
    ensures
        match r {
            Ok(s) => crate_root_view(root_dir@, lib_exists, main_exists) == Ok::<
                Seq<char>,
                RustErrorView,
            >(s@),
            Err(e) => crate_root_view(root_dir@, lib_exists, main_exists) == Err::<
                Seq<char>,
                RustErrorView,
            >(e@),
        },
{
    if lib_exists {
        return Ok(join_path(root_dir, "src/lib.rs"));
    }
    if main_exists {
        return Ok(join_path(root_dir, "src/main.rs"));
    }
    Err(RustError::NoCrateRoot)
}

/// The logical module path of the file `file_path` of the crate at `root`:
/// its directories under `src`, and its stem unless it is a `mod.rs`.
pub open spec fn module_path_view(root: Seq<char>, file_path: Seq<char>) -> Result<
    Seq<Seq<char>>,
    RustErrorView,
> {
    let src = src_dir_view(root);
    match strip_prefix_view(path_view(file_path), src) {
        None => Err(RustErrorView::OutsideSrc { file: file_path, src: joined_text(root, "src"@) }),
        Some(rel) => {
            let dirs = match parent_view(rel) {
                Some(p) => p.parts,
                None => Seq::empty(),
            };
            if file_name_view(path_view(file_path)) == Some("mod.rs"@) {
                Ok(dirs)
            } else {
                match path_stem_view(file_path) {
                    None => Err(RustErrorView::FileStem),
                    Some(stem) => Ok(dirs.push(stem)),
                }
            }
        },
    }
}

/// The logical module path of a file under the crate's `src` directory is
/// made of its components below `src`: every directory between `src` and
/// the file, in order, then the file's stem (for `mod.rs`, the directories
/// alone).
pub proof fn lemma_module_path_components(root: Seq<char>, file: Seq<char>)
    requires
        strip_prefix_view(path_view(file), src_dir_view(root)) is Some,
        path_view(file).parts.len() > src_dir_view(root).parts.len(),
    ensures
        ({
            let parts = path_view(file).parts;
            let dirs = parts.subrange(src_dir_view(root).parts.len() as int, parts.len() - 1);
            if file_name_view(path_view(file)) == Some("mod.rs"@) {
                module_path_view(root, file) == Ok::<Seq<Seq<char>>, RustErrorView>(dirs)
            } else {
                match path_stem_view(file) {
                    Some(stem) => module_path_view(root, file) == Ok::<Seq<Seq<char>>, RustErrorView>(
                        dirs.push(stem),
                    ),
                    None => module_path_view(root, file) == Err::<Seq<Seq<char>>, RustErrorView>(
                        RustErrorView::FileStem,
                    ),
                }
            }
        }),
{
    let parts = path_view(file).parts;
    let n = src_dir_view(root).parts.len() as int;
    let rel = strip_prefix_view(path_view(file), src_dir_view(root))->Some_0;
    assert(rel.parts == parts.skip(n));
    assert(parent_view(rel) == Some(PathView { abs: false, cur: false, parts: parts.skip(n).drop_last() }));
    assert(parts.skip(n).drop_last() =~= parts.subrange(n, parts.len() - 1));
}

/// The logical module path of `file_path` in the crate at `root_dir`.
pub fn rust_module_path(root_dir: &str, file_path: &str) -> (r: Result<Vec<String>, RustError>)
    ensures
        strip_prefix_view(path_view(file_path@), src_dir_view(root_dir@)) is Some && path_view(
            file_path@,
        ).parts.len() > src_dir_view(root_dir@).parts.len() && file_name_view(path_view(file_path@))
            != Some("mod.rs"@) && r is Ok ==> ({
            let parts = path_view(file_path@).parts;
            let segs = string_seqs(r->Ok_0@);
            &&& segs.len() == parts.len() - src_dir_view(root_dir@).parts.len()
            &&& forall|i: int|
                0 <= i < segs.len() - 1 ==> #[trigger] segs[i] == parts[src_dir_view(root_dir@).parts.len()
                    + i]
            &&& path_stem_view(file_path@) == Some(segs.last())
        }),
        match r {
            Ok(v) => module_path_view(root_dir@, file_path@) == Ok::<
                Seq<Seq<char>>,
                RustErrorView,
            >(string_seqs(v@)),
            Err(e) => module_path_view(root_dir@, file_path@) == Err::<
                Seq<Seq<char>>,
                RustErrorView,
            >(e@),
        },
{
    let src_dir = join_path(root_dir, "src");
    let rel = match strip_path_prefix(file_path, src_dir.as_str()) {
        None => return Err(RustError::OutsideSrc { file: file_path.to_owned(), src: src_dir }),
        Some(r) => r,
    };
    let mut segments: Vec<String> = Vec::new();
    let rp = parse_path(rel.as_str());
    if rp.parts.len() > 0 {
        let mut k: usize = 0;
        let ghost pv = string_views(rp.parts@);
        let n = rp.parts.len() - 1;
        while k < n
            invariant
                n + 1 == rp.parts@.len(),
                k <= n,
                pv == string_views(rp.parts@),
                string_seqs(segments@) == pv.take(k as int),
            decreases n - k,
        {
            let ghost before = segments@;
            let piece = rp.parts[k].clone();
            proof {
                lemma_string_seqs_push(before, piece);
            }
            segments.push(piece);
            assert(pv.take(k + 1) =~= pv.take(k as int).push(pv[k as int]));
            k = k + 1;
        }
        assert(pv.take(n as int) =~= pv.drop_last());
    } else {
        assert(string_seqs(segments@) =~= Seq::<Seq<char>>::empty());
    }
    let is_mod_rs = match path_file_name(file_path) {
        Some(name) => {
            let a = chars_of(name.as_str());
            let b = chars_of("mod.rs");
            crate::text::same_chars(&a, &b)
        },
        None => false,
    };
    if is_mod_rs {
        return Ok(segments);
    }
    match path_file_stem(file_path) {
        None => Err(RustError::FileStem),
        Some(stem) => {
            let ghost before = segments@;
            let ghost sv = stem@;
            segments.push(stem);
            assert(string_seqs(segments@) =~= string_seqs(before).push(sv));
            proof {
                let parts = path_view(file_path@).parts;
                let n = src_dir_view(root_dir@).parts.len() as int;
                if strip_prefix_view(path_view(file_path@), src_dir_view(root_dir@)) is Some
                    && parts.len() > n && file_name_view(path_view(file_path@)) != Some("mod.rs"@) {
                    lemma_module_path_components(root_dir@, file_path@);
                    let segs = string_seqs(segments@);
                    assert(module_path_view(root_dir@, file_path@) == Ok::<
                        Seq<Seq<char>>,
                        RustErrorView,
                    >(segs));
                    let dirs = parts.subrange(n, parts.len() - 1);
                    assert(segs == dirs.push(sv));
                    assert forall|i: int| 0 <= i < segs.len() - 1 implies #[trigger] segs[i] == parts[n
                        + i] by {
                        assert(segs[i] == dirs[i]);
                    }
                }
            }
            Ok(segments)
        },
    }
}

/// The files in which the declaration of the module of `source_abs` may
/// stand: the crate roots where it lies in `src`, else the file and the
/// `mod.rs` of its directory.
pub open spec fn module_candidates_view(root: Seq<char>, source_abs: Seq<char>) -> Seq<Seq<char>> {
    match parent_view(path_view(source_abs)) {
        None => Seq::empty(),
        Some(pd) => if pd == src_dir_view(root) {
            seq![
                joined_text(root, "src/lib.rs"@),
                joined_text(root, "src/main.rs"@),
                joined_text(root, "src/mod.rs"@),
            ]
        } else {
            seq![
                render(with_extension_view(pd, "rs"@)),
                joined_text(render(pd), "mod.rs"@),
            ]
        },
    }
}

/// The first files in which the declaration of the module of `source_abs`
/// is looked for (the files of the workspace follow them).
pub fn rust_module_candidates(root_dir: &str, source_abs: &str) -> (r: Vec<String>)
    ensures
        string_seqs(r@) == module_candidates_view(root_dir@, source_abs@),
{
    let mut r: Vec<String> = Vec::new();
    match path_parent(source_abs) {
        None => {
            assert(string_seqs(r@) =~= Seq::<Seq<char>>::empty());
        },
        Some(parent) => {
            let src = join_path(root_dir, "src");
            if same_path(parent.as_str(), src.as_str()) {
                let a = join_path(root_dir, "src/lib.rs");
                let b = join_path(root_dir, "src/main.rs");
                let c = join_path(root_dir, "src/mod.rs");
                let ghost v = seq![a@, b@, c@];
                r.push(a);
                r.push(b);
                r.push(c);
                assert(string_seqs(r@) =~= v);
            } else {
                proof {
                    reveal_strlit("rs");
                }
                let a = path_with_extension(parent.as_str(), "rs");
                let b = join_path(parent.as_str(), "mod.rs");
                let ghost v = seq![a@, b@];
                r.push(a);
                r.push(b);
                assert(string_seqs(r@) =~= v);
            }
        },
    }
    r
}

/// The candidates that exist, each path once, in order.
pub open spec fn existing_once(cands: Seq<Seq<char>>, exists: Seq<bool>, n: int) -> Seq<Seq<char>>
    decreases n,
{
    if n <= 0 {
        Seq::empty()
    } else {
        let r = existing_once(cands, exists, n - 1);
        if exists[n - 1] && !(exists|j: int|
            0 <= j < r.len() && path_view(#[trigger] r[j]) == path_view(cands[n - 1])) {
            r.push(cands[n - 1])
        } else {
            r
        }
    }
}

/// The candidates that exist (`exists[k]` for the `k`-th), each path once.
pub fn dedupe_existing(candidates: &Vec<String>, exists: &Vec<bool>) -> (r: Vec<String>)
    requires
        exists@.len() == candidates@.len(),
    ensures
        string_seqs(r@) == existing_once(
            string_seqs(candidates@),
            exists@,
            candidates@.len() as int,
        ),
{
    let ghost cv = string_seqs(candidates@);
    let mut r: Vec<String> = Vec::new();
    let mut k: usize = 0;
    assert(string_seqs(r@) =~= Seq::<Seq<char>>::empty());
    while k < candidates.len()
        invariant
            k <= candidates@.len(),
            exists@.len() == candidates@.len(),
            cv == string_seqs(candidates@),
            string_seqs(r@) == existing_once(cv, exists@, k as int),
        decreases candidates.len() - k,
    {
        let ghost rv = string_seqs(r@);
        if exists[k] {
            let mut seen = false;
            let mut j: usize = 0;
            while j < r.len()
                invariant
                    j <= r@.len(),
                    rv == string_seqs(r@),
                    k < candidates@.len(),
                    cv == string_seqs(candidates@),
                    seen == (exists|m: int| 0 <= m < j && path_view(#[trigger] rv[m]) == path_view(cv[k as int])),
                decreases r.len() - j,
            {
                if same_path(r[j].as_str(), candidates[k].as_str()) {
                    assert(path_view(rv[j as int]) == path_view(cv[k as int]));
                    seen = true;
                }
                j = j + 1;
            }
            if !seen {
                let ghost before = r@;
                let c = candidates[k].clone();
                r.push(c);
                assert(string_seqs(r@) =~= string_seqs(before).push(cv[k as int]));
            }
        }
        k = k + 1;
    }
    r
}

// ---------------------------------------------------------------------------
// Relative paths

/// The components of a view in the order `Path::components` yields them:
/// the root, a leading `.`, then the named ones.
pub open spec fn components_view(v: PathView) -> Seq<Seq<char>> {
    (if v.abs {
        seq![seq!['/']]
    } else {
        Seq::empty()
    }) + (if v.cur {
        seq![seq!['.']]
    } else {
        Seq::empty()
    }) + v.parts
}

/// `PathBuf::push` of one component: the root replaces the path; any other
/// component is appended, after a `/` unless the path is empty or ends with
/// one.
pub open spec fn push_component(acc: Seq<char>, c: Seq<char>) -> Seq<char> {
    if c == seq!['/'] {
        seq!['/']
    } else if acc.len() == 0 {
        c
    } else if acc.last() == '/' {
        acc + c
    } else {
        acc + seq!['/'] + c
    }
}

/// The path that pushing `cs` in order onto an empty `PathBuf` builds.
pub open spec fn push_components(cs: Seq<Seq<char>>) -> Seq<char>
    decreases cs.len(),
{
    if cs.len() == 0 {
        Seq::empty()
    } else {
        push_component(push_components(cs.drop_last()), cs.last())
    }
}

/// The relative path from the directory `base` to `target`: `..` for each
/// component of `base` after the ones they share, then the rest of
/// `target`.
pub open spec fn diff_paths_view(target: Seq<char>, base: Seq<char>) -> Seq<char> {
    let tc = components_view(path_view(target));
    let bc = components_view(path_view(base));
    let k = common_from(tc, bc, 0);
    push_components(ups((bc.len() - k) as nat) + tc.skip(k))
}

fn components_of(s: &str) -> (r: Vec<String>)
    ensures
        string_seqs(r@) == components_view(path_view(s@)),
{
    let p = parse_path(s);
    let mut r: Vec<String> = Vec::new();
    proof {
        reveal_strlit("/");
        reveal_strlit(".");
        assert("/"@ =~= seq!['/']);
        assert("."@ =~= seq!['.']);
    }
    if p.absolute {
        let root = String::from_str("/");
        let ghost before = r@;
        proof {
            lemma_string_seqs_push(before, root);
        }
        r.push(root);
    }
    if p.current {
        let dot = String::from_str(".");
        let ghost before = r@;
        proof {
            lemma_string_seqs_push(before, dot);
        }
        r.push(dot);
    }
    assert(string_seqs(r@) =~= (if p.absolute {
        seq![seq!['/']]
    } else {
        Seq::<Seq<char>>::empty()
    }) + (if p.current {
        seq![seq!['.']]
    } else {
        Seq::<Seq<char>>::empty()
    }));
    let ghost start = string_seqs(r@);
    let ghost pv = string_views(p.parts@);
    let mut k: usize = 0;
    while k < p.parts.len()
        invariant
            k <= p.parts@.len(),
            pv == string_views(p.parts@),
            string_seqs(r@) == start + pv.take(k as int),
        decreases p.parts.len() - k,
    {
        let piece = p.parts[k].clone();
        let ghost before = r@;
        proof {
            lemma_string_seqs_push(before, piece);
        }
        r.push(piece);
        assert(pv.take(k + 1) =~= pv.take(k as int).push(pv[k as int]));
        assert(string_seqs(r@) =~= start + pv.take(k + 1));
        k = k + 1;
    }
    assert(pv.take(p.parts@.len() as int) =~= pv);
    r
}

fn push_component_exec(acc: &mut String, c: &String)
    ensures
        final(acc)@ == push_component(old(acc)@, c@),
{
    let t = chars_of(c.as_str());
    if t.len() == 1 && t[0] == '/' {
        assert(c@ =~= seq!['/']);
        let mut fresh = String::new();
        push_char(&mut fresh, '/');
        *acc = fresh;
        return;
    }
    assert(c@ != seq!['/']) by {
        if c@ == seq!['/'] {
            assert(t@.len() == 1);
        }
    }
    let a = chars_of(acc.as_str());
    if a.len() == 0 {
        let mut fresh = String::new();
        push_str(&mut fresh, c.as_str());
        assert(fresh@ =~= c@);
        *acc = fresh;
    } else if a[a.len() - 1] == '/' {
        push_str(acc, c.as_str());
    } else {
        push_char(acc, '/');
        push_str(acc, c.as_str());
    }
}

/// The relative path from the directory `base` to `target`, as the Rust
/// driver computes it for a `#[path]` attribute.
pub fn diff_paths(target: &str, base: &str) -> (r: String)
    ensures
        r@ == diff_paths_view(target@, base@),
{
    let tc = components_of(target);
    let bc = components_of(base);
    let ghost tv = string_seqs(tc@);
    let ghost bv = string_seqs(bc@);
    let mut k: usize = 0;
    while k < tc.len() && k < bc.len() && tc[k] == bc[k]
        invariant
            k <= tc@.len(),
            k <= bc@.len(),
            tv == string_seqs(tc@),
            bv == string_seqs(bc@),
            common_from(tv, bv, k as int) == common_from(tv, bv, 0),
        decreases tc.len() - k,
    {
        k = k + 1;
    }
    proof {
        lemma_common_from(tv, bv, 0);
    }
    let ghost rc = ups((bv.len() - k) as nat) + tv.skip(k as int);
    let mut r = String::new();
    let mut j: usize = 0;
    let up_count = bc.len() - k;
    assert(rc.take(0) =~= Seq::<Seq<char>>::empty());
    let dots = String::from_str("..");
    proof {
        reveal_strlit("..");
    }
    while j < up_count
        invariant
            j <= up_count,
            up_count == bv.len() - k,
            dots@ == seq!['.', '.'],
            rc == ups((bv.len() - k) as nat) + tv.skip(k as int),
            r@ == push_components(rc.take(j as int)),
        decreases up_count - j,
    {
        assert(rc.take(j + 1).drop_last() =~= rc.take(j as int));
        assert(rc.take(j + 1).last() == seq!['.', '.']);
        push_component_exec(&mut r, &dots);
        j = j + 1;
    }
    let mut m = k;
    while m < tc.len()
        invariant
            k <= m <= tc@.len(),
            tv == string_seqs(tc@),
            up_count == bv.len() - k,
            rc == ups((bv.len() - k) as nat) + tv.skip(k as int),
            rc.len() == up_count + tc@.len() - k,
            r@ == push_components(rc.take(up_count + m - k)),
        decreases tc.len() - m,
    {
        let ghost idx: int = up_count + m - k;
        assert(rc.take(idx + 1).drop_last() =~= rc.take(idx));
        assert(rc.take(idx + 1).last() == rc[idx]);
        assert(rc[idx] == tv[m as int]);
        push_component_exec(&mut r, &tc[m]);
        m = m + 1;
    }
    assert(rc.take(rc.len() as int) =~= rc);
    r
}

// ---------------------------------------------------------------------------
// Text of the edits

/// `content` with `line` appended on a line of its own.
pub open spec fn appended_line(content: Seq<char>, line: Seq<char>) -> Seq<char> {
    (if content.len() > 0 && content.last() != '\n' {
        content.push('\n')
    } else {
        content
    }) + line + seq!['\n']
}

/// `content` with `line` appended on a line of its own.
pub fn append_rust_line(content: &str, line: &str) -> (r: String)
    ensures
        r@ == appended_line(content@, line@),
{
    let t = chars_of(content);
    let mut r = content.to_owned();
    if t.len() > 0 && t[t.len() - 1] != '\n' {
        push_char(&mut r, '\n');
    }
    push_str(&mut r, line);
    push_char(&mut r, '\n');
    r
}

/// Whether some line of `t` from `p` on is `line` once trimmed.
pub open spec fn has_trimmed_line_from(t: Seq<char>, p: int, line: Seq<char>) -> bool
    decreases t.len() + 1 - p,
{
    if p < 0 || p >= t.len() {
        false
    } else {
        let e = line_end_from(t, p);
        let (a, b) = trim_bounds(t, p, e);
        if t.subrange(a, b) == line {
            true
        } else {
            proof {
                lemma_line_end(t, p);
            }
            has_trimmed_line_from(t, e + 1, line)
        }
    }
}

/// Whether some line of `content`, once trimmed, is `line`.
pub fn has_trimmed_line(content: &str, line: &str) -> (b: bool)
    ensures
        b == has_trimmed_line_from(content@, 0, line@),
{
    let t = chars_of(content);
    let l = chars_of(line);
    let n = t.len();
    let mut p: usize = 0;
    while p < n
        invariant
            n == t@.len(),
            p <= n + 1,
            t@ == content@,
            l@ == line@,
            has_trimmed_line_from(t@, p as int, l@) == has_trimmed_line_from(t@, 0, l@),
        decreases n + 1 - p,
    {
        let e = line_end_exec(&t, p);
        let (a, b) = trim_range(&t, p, e);
        let mut same = b - a == l.len();
        if !same {
            assert(t@.subrange(a as int, b as int).len() != l@.len());
        }
        let mut j: usize = 0;
        while j < l.len()
            invariant
                a <= b <= n,
                n == t@.len(),
                j <= l@.len(),
                same ==> b - a == l@.len(),
                same ==> forall|m: int| 0 <= m < j ==> t@[a + m] == l@[m],
                !same ==> t@.subrange(a as int, b as int) != l@,
            decreases l.len() - j,
        {
            if same && t[a + j] != l[j] {
                assert(t@.subrange(a as int, b as int)[j as int] != l@[j as int]);
                same = false;
            }
            j = j + 1;
        }
        if same {
            assert(t@.subrange(a as int, b as int) =~= l@);
            return true;
        }
        proof {
            lemma_line_end(t@, p as int);
        }
        if e >= n {
            assert(!has_trimmed_line_from(t@, e + 1, l@));
            return false;
        }
        p = e + 1;
    }
    false
}

/// `#[path = "relative_target"]` and the declaration `visibility mod name;`.
pub open spec fn path_declaration(relative_target: Seq<char>, visibility: Seq<char>, name: Seq<char>) -> Seq<char> {
    "#[path = \""@ + relative_target + "\"]\n"@ + visibility + "mod "@ + name + ";"@
}

/// The declaration that points the module at its moved file.
pub fn rust_path_declaration(relative_target: &str, visibility: &str, name: &str) -> (r: String)
    ensures
        r@ == path_declaration(relative_target@, visibility@, name@),
{
    let mut r = String::new();
    push_str(&mut r, "#[path = \"");
    push_str(&mut r, relative_target);
    push_str(&mut r, "\"]\n");
    push_str(&mut r, visibility);
    push_str(&mut r, "mod ");
    push_str(&mut r, name);
    push_str(&mut r, ";");
    r
}

/// `segments` joined with `::`.
pub open spec fn joined_path(segments: Seq<Seq<char>>) -> Seq<char>
    decreases segments.len(),
{
    if segments.len() == 0 {
        Seq::empty()
    } else if segments.len() == 1 {
        segments[0]
    } else {
        joined_path(segments.drop_last()) + "::"@ + segments.last()
    }
}

/// `segments` joined with `::`.
pub fn join_segments(segments: &Vec<String>) -> (r: String)
    ensures
        r@ == joined_path(string_seqs(segments@)),
{
    let ghost sv = string_seqs(segments@);
    let mut r = String::new();
    let mut k: usize = 0;
    assert(sv.take(0) =~= Seq::<Seq<char>>::empty());
    while k < segments.len()
        invariant
            k <= segments@.len(),
            sv == string_seqs(segments@),
            r@ == joined_path(sv.take(k as int)),
        decreases segments.len() - k,
    {
        assert(sv.take(k + 1).drop_last() =~= sv.take(k as int));
        assert(sv.take(k + 1).last() == sv[k as int]);
        if k > 0 {
            push_str(&mut r, "::");
        } else {
            assert(sv.take(1)[0] == sv[0]);
            assert(r@ =~= Seq::<char>::empty());
        }
        push_str(&mut r, segments[k].as_str());
        assert(r@ =~= joined_path(sv.take(k + 1)));
        k = k + 1;
    }
    assert(sv.take(segments@.len() as int) =~= sv);
    r
}

/// The `use` line that keeps the old module path working after a move
/// across directories.
pub open spec fn alias_line(visibility: Seq<char>, old_path: Seq<Seq<char>>, old_name: Seq<char>, target_name: Seq<char>) -> Seq<char> {
    let old_abs = "crate::"@ + joined_path(old_path);
    if old_name == target_name {
        visibility + "use "@ + old_abs + ";"@
    } else {
        visibility + "use "@ + old_abs + " as "@ + target_name + ";"@
    }
}

/// The `use` line that keeps the old module path working.
pub fn rust_alias_line(
    visibility: &str,
    old_module_path: &Vec<String>,
    old_name: &str,
    target_name: &str,
) -> (r: String)
    ensures
        r@ == alias_line(visibility@, string_seqs(old_module_path@), old_name@, target_name@),
{
    let joined = join_segments(old_module_path);
    let a = chars_of(old_name);
    let b = chars_of(target_name);
    let mut r = String::new();
    push_str(&mut r, visibility);
    push_str(&mut r, "use ");
    push_str(&mut r, "crate::");
    push_str(&mut r, joined.as_str());
    if !crate::text::same_chars(&a, &b) {
        push_str(&mut r, " as ");
        push_str(&mut r, target_name);
    }
    push_str(&mut r, ";");
    r
}

/// The declaration `visibility mod segment;`.
pub fn rust_mod_declaration(visibility: &str, segment: &str) -> (r: String)
    ensures
        r@ == visibility@ + "mod "@ + segment@ + ";"@,
{
    let mut r = String::new();
    push_str(&mut r, visibility);
    push_str(&mut r, "mod ");
    push_str(&mut r, segment);
    push_str(&mut r, ";");
    r
}

/// `content` with the characters `start..end` replaced by `replacement` and
/// a line feed.
pub fn replace_char_range(content: &str, start: usize, end: usize, replacement: &str) -> (r: String)
    requires
        start <= end <= content@.len(),
    ensures
        r@ == content@.take(start as int) + replacement@ + seq!['\n'] + content@.skip(end as int),
{
    let t = chars_of(content);
    let mut r = string_from(&t, 0, start);
    push_str(&mut r, replacement);
    push_char(&mut r, '\n');
    let tail = string_from(&t, end, t.len());
    push_str(&mut r, tail.as_str());
    assert(t@.subrange(0, start as int) =~= t@.take(start as int));
    assert(t@.subrange(end as int, t@.len() as int) =~= t@.skip(end as int));
    r
}

// ---------------------------------------------------------------------------
// Kinds of moves

/// How the Rust driver carries out a move: across directories with a
/// `#[path]` shim, or within a directory (or of a `mod.rs`) through
/// rust-analyzer.
#[derive(Debug, Clone, Copy, PartialEq, Eq, Structural)]
pub enum RustMoveKind {
    CrossDirectory,
    SameDirectory,
}

/// The kind of the move of `source_abs` to `target_abs`: across
/// directories where the parents differ and neither file is a `mod.rs`.
pub fn rust_move_kind(source_abs: &str, target_abs: &str) -> (r: RustMoveKind)
    ensures
        (r == RustMoveKind::CrossDirectory) == (parent_view(path_view(source_abs@)) != parent_view(
            path_view(target_abs@),
        ) && file_name_view(path_view(source_abs@)) != Some("mod.rs"@) && file_name_view(
            path_view(target_abs@),
        ) != Some("mod.rs"@)),
{
    if !crate::paths::same_parent(source_abs, target_abs) && !is_mod_rs_file(source_abs)
        && !is_mod_rs_file(target_abs) {
        RustMoveKind::CrossDirectory
    } else {
        RustMoveKind::SameDirectory
    }
}

// ---------------------------------------------------------------------------
// Renames within a directory

/// The old and new module names of a move within a directory, where the
/// move is a module rename: the files share their directory, neither is a
/// `mod.rs`, their stems differ and both are identifiers.
pub open spec fn rename_names_view(source_abs: Seq<char>, target_abs: Seq<char>) -> Result<
    Option<(Seq<char>, Seq<char>)>,
    RustErrorView,
> {
    if parent_view(path_view(source_abs)) != parent_view(path_view(target_abs)) {
        Ok(None)
    } else if file_name_view(path_view(source_abs)) == Some("mod.rs"@) || file_name_view(
        path_view(target_abs),
    ) == Some("mod.rs"@) {
        Ok(None)
    } else {
        match path_stem_view(source_abs) {
            None => Err(RustErrorView::SourceStem),
            Some(old_name) => match path_stem_view(target_abs) {
                None => Err(RustErrorView::TargetStem),
                Some(new_name) => if old_name == new_name || !is_rust_identifier(old_name)
                    || !is_rust_identifier(new_name) {
                    Ok(None)
                } else {
                    Ok(Some((old_name, new_name)))
                },
            },
        }
    }
}

fn is_mod_rs_file(path: &str) -> (b: bool)
    ensures
        b == (file_name_view(path_view(path@)) == Some("mod.rs"@)),
{
    match path_file_name(path) {
        Some(name) => {
            let a = chars_of(name.as_str());
            let b = chars_of("mod.rs");
            crate::text::same_chars(&a, &b)
        },
        None => false,
    }
}

/// The old and new module names where moving `source_abs` to `target_abs`
/// renames a module.
pub fn rust_rename_names(source_abs: &str, target_abs: &str) -> (r: Result<
    Option<(String, String)>,
    RustError,
>)
    ensures
        match r {
            Ok(None) => rename_names_view(source_abs@, target_abs@) == Ok::<
                Option<(Seq<char>, Seq<char>)>,
                RustErrorView,
            >(None),
            Ok(Some((a, b))) => rename_names_view(source_abs@, target_abs@) == Ok::<
                Option<(Seq<char>, Seq<char>)>,
                RustErrorView,
            >(Some((a@, b@))),
            Err(e) => rename_names_view(source_abs@, target_abs@) == Err::<
                Option<(Seq<char>, Seq<char>)>,
                RustErrorView,
            >(e@),
        },
{
    if !crate::paths::same_parent(source_abs, target_abs) {
        return Ok(None);
    }
    if is_mod_rs_file(source_abs) || is_mod_rs_file(target_abs) {
        return Ok(None);
    }
    let old_name = match path_file_stem(source_abs) {
        None => return Err(RustError::SourceStem),
        Some(n) => n,
    };
    let new_name = match path_file_stem(target_abs) {
        None => return Err(RustError::TargetStem),
        Some(n) => n,
    };
    if old_name == new_name || !is_valid_rust_identifier(old_name.as_str())
        || !is_valid_rust_identifier(new_name.as_str()) {
        return Ok(None);
    }
    Ok(Some((old_name, new_name)))
}

} // verus!
