//! The checks that a refactor request passes before any driver sees it.

use vstd::prelude::*;
use crate::paths::{join_path, joined_text, path_is_absolute};
use crate::text::{chars_of, decimal, push_decimal, push_str};

verus! {

/// Why a request is refused.
pub enum SanityError {
    UnsupportedOperation { operation: String },
    CountMismatch { sources: usize, targets: usize },
    DuplicateSource { path: String },
    DuplicateTarget { path: String },
    Identical { path: String },
    SourceMissing { path: String, resolved: String },
}

/// `SanityError` with its texts as character sequences.
pub enum SanityErrorView {
    UnsupportedOperation { operation: Seq<char> },
    CountMismatch { sources: nat, targets: nat },
    DuplicateSource { path: Seq<char> },
    DuplicateTarget { path: Seq<char> },
    Identical { path: Seq<char> },
    SourceMissing { path: Seq<char>, resolved: Seq<char> },
}

impl View for SanityError {
    type V = SanityErrorView;

    open spec fn view(&self) -> SanityErrorView {
        match self {
            SanityError::UnsupportedOperation { operation } => SanityErrorView::UnsupportedOperation {
                operation: operation@,
            },
            SanityError::CountMismatch { sources, targets } => SanityErrorView::CountMismatch {
                sources: *sources as nat,
                targets: *targets as nat,
            },
            SanityError::DuplicateSource { path } => SanityErrorView::DuplicateSource {
                path: path@,
            },
            SanityError::DuplicateTarget { path } => SanityErrorView::DuplicateTarget {
                path: path@,
            },
            SanityError::Identical { path } => SanityErrorView::Identical { path: path@ },
            SanityError::SourceMissing { path, resolved } => SanityErrorView::SourceMissing {
                path: path@,
                resolved: resolved@,
            },
        }
    }
}

/// The text of a refusal.
pub open spec fn sanity_message(e: SanityErrorView) -> Seq<char> {
    match e {
        SanityErrorView::UnsupportedOperation { operation } => "Operation '"@ + operation
            + "' is not supported. Only 'move' is currently implemented."@,
        SanityErrorView::CountMismatch { sources, targets } => "Mismatch check: Source count ("@
            + decimal(sources) + ") != Target count ("@ + decimal(targets) + ")"@,
        SanityErrorView::DuplicateSource { path } => "Duplicate source path: "@ + path,
        SanityErrorView::DuplicateTarget { path } => "Duplicate target path: "@ + path,
        SanityErrorView::Identical { path } => "Source and target are identical: "@ + path,
        SanityErrorView::SourceMissing { path, resolved } => "Source path does not exist: "@ + path
            + " (Resolved to: "@ + debug_text(resolved) + ")"@,
    }
}

impl SanityError {
    /// The text of the refusal.
    pub fn message(&self) -> (m: String)
        ensures
            m@ == sanity_message(self@),
    {
        let mut m = String::new();
        match self {
            SanityError::UnsupportedOperation { operation } => {
                push_str(&mut m, "Operation '");
                push_str(&mut m, operation.as_str());
                push_str(&mut m, "' is not supported. Only 'move' is currently implemented.");
            },
            SanityError::CountMismatch { sources, targets } => {
                push_str(&mut m, "Mismatch check: Source count (");
                push_decimal(&mut m, *sources as u64);
                push_str(&mut m, ") != Target count (");
                push_decimal(&mut m, *targets as u64);
                push_str(&mut m, ")");
            },
            SanityError::DuplicateSource { path } => {
                push_str(&mut m, "Duplicate source path: ");
                push_str(&mut m, path.as_str());
            },
            SanityError::DuplicateTarget { path } => {
                push_str(&mut m, "Duplicate target path: ");
                push_str(&mut m, path.as_str());
            },
            SanityError::Identical { path } => {
                push_str(&mut m, "Source and target are identical: ");
                push_str(&mut m, path.as_str());
            },
            SanityError::SourceMissing { path, resolved } => {
                push_str(&mut m, "Source path does not exist: ");
                push_str(&mut m, path.as_str());
                push_str(&mut m, " (Resolved to: ");
                let quoted = debug_quoted(resolved.as_str());
                push_str(&mut m, quoted.as_str());
                push_str(&mut m, ")");
            },
        }
        m
    }
}

pub open spec fn string_seqs(v: Seq<String>) -> Seq<Seq<char>> {
    v.map_values(|s: String| s@)
}

pub proof fn lemma_string_seqs_push(v: Seq<String>, s: String)
    ensures
        string_seqs(v.push(s)) == string_seqs(v).push(s@),
{
    assert(string_seqs(v.push(s)) =~= string_seqs(v).push(s@));
}

/// The first index at or after `j` whose entry repeats an earlier one.
pub open spec fn first_repeat(v: Seq<Seq<char>>, j: int) -> Option<int>
    decreases v.len() - j,
{
    if j < 0 || j >= v.len() {
        None
    } else if exists|i: int| 0 <= i < j && v[i] == v[j] {
        Some(j)
    } else {
        first_repeat(v, j + 1)
    }
}

/// The first index at or after `j` where `a` and `b` agree.
pub open spec fn first_same(a: Seq<Seq<char>>, b: Seq<Seq<char>>, j: int) -> Option<int>
    decreases a.len() - j,
{
    if j < 0 || j >= a.len() || j >= b.len() {
        None
    } else if a[j] == b[j] {
        Some(j)
    } else {
        first_same(a, b, j + 1)
    }
}

/// The first index at or after `j` that is `false`.
pub open spec fn first_false(v: Seq<bool>, j: int) -> Option<int>
    decreases v.len() - j,
{
    if j < 0 || j >= v.len() {
        None
    } else if !v[j] {
        Some(j)
    } else {
        first_false(v, j + 1)
    }
}

/// The text that `format!("{:?}", Path::new(s))` writes for the path `s`.
pub uninterp spec fn debug_text(s: Seq<char>) -> Seq<char>;

/// How `Debug` writes one character of a path: the escapes `\0`, `\t`,
/// `\r`, `\n`, `\\` and `\"`, and any other printable ASCII character (the
/// single quote among them) as it is.
pub open spec fn debug_char(c: char) -> Seq<char> {
    if c == '\0' {
        seq!['\\', '0']
    } else if c == '\t' {
        seq!['\\', 't']
    } else if c == '\r' {
        seq!['\\', 'r']
    } else if c == '\n' {
        seq!['\\', 'n']
    } else if c == '\\' {
        seq!['\\', '\\']
    } else if c == '"' {
        seq!['\\', '"']
    } else {
        seq![c]
    }
}

/// Whether `c` is printable ASCII or one of the characters that `Debug`
/// writes with a short escape.
pub open spec fn short_debug_char(c: char) -> bool {
    (' ' <= c && c <= '~') || c == '\0' || c == '\t' || c == '\r' || c == '\n'
}

/// The characters of `s`, each as `Debug` writes it.
pub open spec fn debug_chars(s: Seq<char>) -> Seq<char>
    decreases s.len(),
{
    if s.len() == 0 {
        Seq::empty()
    } else {
        debug_chars(s.drop_last()) + debug_char(s.last())
    }
}

/// `format!("{:?}", Path::new(s))`: the path in double quotes, escaped as
/// `str`'s `Debug` escapes it (a single quote is not escaped). Where every
/// character of `s` is printable ASCII or one of NUL, tab, carriage return
/// and line feed, the contract states the text; the escapes of other
/// characters (`\u{..}` for other control and unprintable characters) are
/// left to the standard library.
#[verifier::external_body]
pub(crate) fn debug_quoted(s: &str) -> (r: String)
    ensures
        r@ == debug_text(s@),
        (forall|i: int| 0 <= i < s@.len() ==> short_debug_char(#[trigger] s@[i])) ==> r@ == seq!['"']
            + debug_chars(s@) + seq!['"'],
{
    format!("{:?}", std::path::Path::new(s))
}

/// Where a source of the request lies: as given if absolute, else joined to
/// the project root (as `Path::join` joins) where there is one.
pub open spec fn resolved_source(path: Seq<char>, root: Option<Seq<char>>) -> Seq<char> {
    match root {
        Some(r) => joined_text(r, path),
        None => path,
    }
}

/// The outcome of the checks. `exists[k]` tells whether the resolved `k`-th
/// source exists.
pub open spec fn sanity_outcome(
    sources: Seq<Seq<char>>,
    operation: Seq<char>,
    targets: Option<Seq<Seq<char>>>,
    root: Option<Seq<char>>,
    exists: Seq<bool>,
) -> Result<(), SanityErrorView> {
    if operation != "move"@ {
        Err(SanityErrorView::UnsupportedOperation { operation })
    } else if targets is Some && targets.unwrap().len() != sources.len() {
        Err(SanityErrorView::CountMismatch { sources: sources.len(), targets: targets.unwrap().len() })
    } else if first_repeat(sources, 0) is Some {
        Err(SanityErrorView::DuplicateSource { path: sources[first_repeat(sources, 0).unwrap()] })
    } else if targets is Some && first_repeat(targets.unwrap(), 0) is Some {
        Err(
            SanityErrorView::DuplicateTarget {
                path: targets.unwrap()[first_repeat(targets.unwrap(), 0).unwrap()],
            },
        )
    } else if targets is Some && first_same(sources, targets.unwrap(), 0) is Some {
        Err(SanityErrorView::Identical { path: sources[first_same(sources, targets.unwrap(), 0).unwrap()] })
    } else if first_false(exists, 0) is Some {
        let k = first_false(exists, 0).unwrap();
        Err(
            SanityErrorView::SourceMissing {
                path: sources[k],
                resolved: resolved_source(sources[k], root),
            },
        )
    } else {
        Ok(())
    }
}

pub open spec fn opt_strings(o: Option<&Vec<String>>) -> Option<Seq<Seq<char>>> {
    match o {
        Some(v) => Some(string_seqs(v@)),
        None => None,
    }
}

pub open spec fn opt_chars(o: Option<&str>) -> Option<Seq<char>> {
    match o {
        Some(s) => Some(s@),
        None => None,
    }
}

/// Where the source `path` lies, given the project root.
pub fn resolve_source_path(path: &str, project_path: Option<&str>) -> (r: String)
    ensures
        r@ == resolved_source(path@, opt_chars(project_path)),
{
    if path_is_absolute(path) {
        return path.to_owned();
    }
    match project_path {
        Some(root) => join_path(root, path),
        None => path.to_owned(),
    }
}

fn first_repeat_exec(v: &Vec<String>) -> (r: Option<usize>)
    ensures
        match r {
            Some(j) => first_repeat(string_seqs(v@), 0) == Some(j as int) && j < v@.len(),
            None => first_repeat(string_seqs(v@), 0) is None,
        },
{
    let ghost sv = string_seqs(v@);
    let mut j: usize = 0;
    while j < v.len()
        invariant
            j <= v@.len(),
            sv == string_seqs(v@),
            first_repeat(sv, j as int) == first_repeat(sv, 0),
        decreases v.len() - j,
    {
        let mut i: usize = 0;
        while i < j
            invariant
                i <= j < v@.len(),
                sv == string_seqs(v@),
                first_repeat(sv, j as int) == first_repeat(sv, 0),
                forall|m: int| 0 <= m < i ==> sv[m] != sv[j as int],
            decreases j - i,
        {
            if v[i] == v[j] {
                assert(sv[i as int] == sv[j as int]);
                return Some(j);
            }
            i = i + 1;
        }
        j = j + 1;
    }
    None
}

/// Checks a refactor request: the operation is `move`; there are as many
/// targets as sources; no source and no target repeats; no source is its own
/// target; every source exists (`source_exists[k]` tells whether the `k`-th
/// source, resolved against the project root, exists).
#[verifier::loop_isolation(false)]
pub fn initial_sanity_check(
    source_paths: &Vec<String>,
    operation: &str,
    target_path: Option<&Vec<String>>,
    project_path: Option<&str>,
    source_exists: &Vec<bool>,
) -> (r: Result<(), SanityError>)
    requires
        source_exists@.len() == source_paths@.len(),
    ensures
        match r {
            Ok(()) => sanity_outcome(
                string_seqs(source_paths@),
                operation@,
                opt_strings(target_path),
                opt_chars(project_path),
                source_exists@,
            ) == Ok::<(), SanityErrorView>(()),
            Err(e) => sanity_outcome(
                string_seqs(source_paths@),
                operation@,
                opt_strings(target_path),
                opt_chars(project_path),
                source_exists@,
            ) == Err::<(), SanityErrorView>(e@),
        },
{
    let ghost sv = string_seqs(source_paths@);
    let mv = String::from_str("move");
    proof {
        reveal_strlit("move");
    }
    if !(operation.to_owned() == mv) {
        return Err(SanityError::UnsupportedOperation { operation: operation.to_owned() });
    }
    if let Some(targets) = target_path {
        if targets.len() != source_paths.len() {
            return Err(
                SanityError::CountMismatch { sources: source_paths.len(), targets: targets.len() },
            );
        }
    }
    if let Some(j) = first_repeat_exec(source_paths) {
        return Err(SanityError::DuplicateSource { path: source_paths[j].clone() });
    }
    if let Some(targets) = target_path {
        if let Some(j) = first_repeat_exec(targets) {
            return Err(SanityError::DuplicateTarget { path: targets[j].clone() });
        }
        let ghost tv = string_seqs(targets@);
        let mut j: usize = 0;
        while j < source_paths.len()
            invariant
                j <= source_paths@.len() == targets@.len(),
                sv == string_seqs(source_paths@),
                tv == string_seqs(targets@),
                first_same(sv, tv, j as int) == first_same(sv, tv, 0),
            decreases source_paths.len() - j,
        {
            if source_paths[j] == targets[j] {
                return Err(SanityError::Identical { path: source_paths[j].clone() });
            }
            j = j + 1;
        }
    }
    let mut k: usize = 0;
    while k < source_exists.len()
        invariant
            k <= source_exists@.len(),
            first_false(source_exists@, k as int) == first_false(source_exists@, 0),
        decreases source_exists.len() - k,
    {
        if !source_exists[k] {
            let resolved = resolve_source_path(source_paths[k].as_str(), project_path);
            return Err(
                SanityError::SourceMissing { path: source_paths[k].clone(), resolved },
            );
        }
        k = k + 1;
    }
    Ok(())
}


proof fn lemma_first_repeat_none(v: Seq<Seq<char>>, j: int)
    requires
        0 <= j,
    ensures
        first_repeat(v, j) is None <==> forall|i: int, m: int|
            0 <= i < m < v.len() && j <= m ==> v[i] != v[m],
    decreases v.len() - j,
{
    if j < v.len() {
        lemma_first_repeat_none(v, j + 1);
        if first_repeat(v, j) is None {
            assert forall|i: int, m: int| 0 <= i < m < v.len() && j <= m implies v[i] != v[m] by {
                if m == j {
                    assert(!(exists|i: int| 0 <= i < j && v[i] == v[j]));
                }
            }
        }
    }
}

proof fn lemma_first_same_none(a: Seq<Seq<char>>, b: Seq<Seq<char>>, j: int)
    requires
        0 <= j,
    ensures
        first_same(a, b, j) is None <==> forall|m: int| j <= m < a.len() && m < b.len() ==> a[m] != b[m],
    decreases a.len() - j,
{
    if j < a.len() && j < b.len() {
        lemma_first_same_none(a, b, j + 1);
    }
}

proof fn lemma_first_false_none(v: Seq<bool>, j: int)
    requires
        0 <= j,
    ensures
        first_false(v, j) is None <==> forall|m: int| j <= m < v.len() ==> v[m],
    decreases v.len() - j,
{
    if j < v.len() {
        lemma_first_false_none(v, j + 1);
    }
}

/// The checks accept exactly the requests to move each of a list of
/// existing sources to its own target: one target for each source, no source
/// named twice, no target named twice, no source that is its own target.
pub proof fn lemma_sanity_check_accepts_exactly(
    sources: Seq<Seq<char>>,
    operation: Seq<char>,
    targets: Seq<Seq<char>>,
    root: Option<Seq<char>>,
    exists: Seq<bool>,
)
    requires
        exists.len() == sources.len(),
    ensures
        sanity_outcome(sources, operation, Some(targets), root, exists) is Ok <==> {
            &&& operation == "move"@
            &&& targets.len() == sources.len()
            &&& sources.no_duplicates()
            &&& targets.no_duplicates()
            &&& forall|k: int| 0 <= k < sources.len() ==> sources[k] != targets[k]
            &&& forall|k: int| 0 <= k < sources.len() ==> exists[k]
        },
{
    lemma_first_repeat_none(sources, 0);
    lemma_first_repeat_none(targets, 0);
    lemma_first_same_none(sources, targets, 0);
    lemma_first_false_none(exists, 0);
}
} // verus!
