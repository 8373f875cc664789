//! Markdown: native link parsing and rewriting, with no outside tooling.

pub mod parser;
pub mod rewrite;

use vstd::prelude::*;
use super::RefactorDriver;
use crate::text::push_str;

verus! {

/// The Markdown driver.
pub struct MarkdownDriver;

impl MarkdownDriver {
    pub fn new() -> (d: Self) {
        MarkdownDriver
    }
}

impl RefactorDriver for MarkdownDriver {
    fn lang(&self) -> (r: &'static str)
        ensures
            r@ == "markdown"@,
    {
        "markdown"
    }
}

/// Why a Markdown move or rewrite is refused.
pub enum MarkdownError {
    NotMarkdownSource { path: String },
    NotMarkdownTarget { path: String },
    SourceNotFile { path: String },
    TargetExists { path: String },
    DuplicateSource { path: String },
    DuplicateTarget { path: String },
    NoCurrentDirectory,
    EmptyMoveSet,
    MissingParent { path: String },
    RelativePath { from: String, to: String },
    EmptyLink { from: String, to: String },
    DirectorySource,
}

/// `MarkdownError` with its paths as character sequences.
pub enum MarkdownErrorView {
    NotMarkdownSource { path: Seq<char> },
    NotMarkdownTarget { path: Seq<char> },
    SourceNotFile { path: Seq<char> },
    TargetExists { path: Seq<char> },
    DuplicateSource { path: Seq<char> },
    DuplicateTarget { path: Seq<char> },
    NoCurrentDirectory,
    EmptyMoveSet,
    MissingParent { path: Seq<char> },
    RelativePath { from: Seq<char>, to: Seq<char> },
    EmptyLink { from: Seq<char>, to: Seq<char> },
    DirectorySource,
}

impl View for MarkdownError {
    type V = MarkdownErrorView;

    open spec fn view(&self) -> MarkdownErrorView {
        match self {
            MarkdownError::NotMarkdownSource { path } => MarkdownErrorView::NotMarkdownSource {
                path: path@,
            },
            MarkdownError::NotMarkdownTarget { path } => MarkdownErrorView::NotMarkdownTarget {
                path: path@,
            },
            MarkdownError::SourceNotFile { path } => MarkdownErrorView::SourceNotFile {
                path: path@,
            },
            MarkdownError::TargetExists { path } => MarkdownErrorView::TargetExists { path: path@ },
            MarkdownError::DuplicateSource { path } => MarkdownErrorView::DuplicateSource {
                path: path@,
            },
            MarkdownError::DuplicateTarget { path } => MarkdownErrorView::DuplicateTarget {
                path: path@,
            },
            MarkdownError::NoCurrentDirectory => MarkdownErrorView::NoCurrentDirectory,
            MarkdownError::EmptyMoveSet => MarkdownErrorView::EmptyMoveSet,
            MarkdownError::MissingParent { path } => MarkdownErrorView::MissingParent {
                path: path@,
            },
            MarkdownError::RelativePath { from, to } => MarkdownErrorView::RelativePath {
                from: from@,
                to: to@,
            },
            MarkdownError::EmptyLink { from, to } => MarkdownErrorView::EmptyLink {
                from: from@,
                to: to@,
            },
            MarkdownError::DirectorySource => MarkdownErrorView::DirectorySource,
        }
    }
}

/// Refuses a Markdown move whose sources include a directory (`is_dir[k]`
/// for the `k`-th source).
pub fn check_markdown_sources(is_dir: &Vec<bool>) -> (r: Result<(), MarkdownError>)
    ensures
        match r {
            Ok(()) => forall|k: int| 0 <= k < is_dir@.len() ==> !#[trigger] is_dir@[k],
            Err(e) => (exists|k: int| 0 <= k < is_dir@.len() && #[trigger] is_dir@[k]) && e@
                == MarkdownErrorView::DirectorySource,
        },
{
    let mut k: usize = 0;
    while k < is_dir.len()
        invariant
            k <= is_dir@.len(),
            forall|j: int| 0 <= j < k ==> !#[trigger] is_dir@[j],
        decreases is_dir.len() - k,
    {
        if is_dir[k] {
            return Err(MarkdownError::DirectorySource);
        }
        k = k + 1;
    }
    Ok(())
}

/// The text of a refusal.
pub open spec fn markdown_message(e: MarkdownErrorView) -> Seq<char> {
    match e {
        MarkdownErrorView::NotMarkdownSource { path } =>
            "Markdown driver only supports .md files: "@ + path,
        MarkdownErrorView::NotMarkdownTarget { path } =>
            "Markdown driver target must end with .md: "@ + path,
        MarkdownErrorView::SourceNotFile { path } =>
            "Markdown source path must be an existing file: "@ + path,
        MarkdownErrorView::TargetExists { path } => "Markdown target already exists: "@ + path
           ,
        MarkdownErrorView::DuplicateSource { path } => "Duplicate markdown source path in batch: "@
            + path,
        MarkdownErrorView::DuplicateTarget { path } => "Duplicate markdown target path in batch: "@
            + path,
        MarkdownErrorView::NoCurrentDirectory => "Failed to read current directory"@,
        MarkdownErrorView::EmptyMoveSet =>
            "Cannot determine markdown workspace root from an empty move set"@,
        MarkdownErrorView::MissingParent { path } => "Missing parent directory for "@ + path,
        MarkdownErrorView::RelativePath { from, to } =>
            "Failed to compute relative markdown path from "@ + from + " to "@ + to,
        MarkdownErrorView::EmptyLink { from, to } =>
            "Cannot emit an empty markdown link path from "@ + from + " to "@ + to,
        MarkdownErrorView::DirectorySource =>
            "Markdown driver only supports file moves, not directories"@,
    }
}

impl MarkdownError {
    /// The error message.
    pub fn message(&self) -> (m: String)
        ensures
            m@ == markdown_message(self@),
    {
        let mut m = String::new();
        match self {
            MarkdownError::NotMarkdownSource { path } => {
                push_str(&mut m, "Markdown driver only supports .md files: ");
                push_str(&mut m, path.as_str());
            },
            MarkdownError::NotMarkdownTarget { path } => {
                push_str(&mut m, "Markdown driver target must end with .md: ");
                push_str(&mut m, path.as_str());
            },
            MarkdownError::SourceNotFile { path } => {
                push_str(&mut m, "Markdown source path must be an existing file: ");
                push_str(&mut m, path.as_str());
            },
            MarkdownError::TargetExists { path } => {
                push_str(&mut m, "Markdown target already exists: ");
                push_str(&mut m, path.as_str());
            },
            MarkdownError::DuplicateSource { path } => {
                push_str(&mut m, "Duplicate markdown source path in batch: ");
                push_str(&mut m, path.as_str());
            },
            MarkdownError::DuplicateTarget { path } => {
                push_str(&mut m, "Duplicate markdown target path in batch: ");
                push_str(&mut m, path.as_str());
            },
            MarkdownError::NoCurrentDirectory => push_str(&mut m, "Failed to read current directory"),
            MarkdownError::EmptyMoveSet => push_str(
                &mut m,
                "Cannot determine markdown workspace root from an empty move set",
            ),
            MarkdownError::MissingParent { path } => {
                push_str(&mut m, "Missing parent directory for ");
                push_str(&mut m, path.as_str());
            },
            MarkdownError::RelativePath { from, to } => {
                push_str(&mut m, "Failed to compute relative markdown path from ");
                push_str(&mut m, from.as_str());
                push_str(&mut m, " to ");
                push_str(&mut m, to.as_str());
            },
            MarkdownError::EmptyLink { from, to } => {
                push_str(&mut m, "Cannot emit an empty markdown link path from ");
                push_str(&mut m, from.as_str());
                push_str(&mut m, " to ");
                push_str(&mut m, to.as_str());
            },
            MarkdownError::DirectorySource => push_str(
                &mut m,
                "Markdown driver only supports file moves, not directories",
            ),
        }
        m
    }
}

} // verus!
