//! Orchestration of a refactor request: which driver each moved path goes
//! to, and the report of what was moved.

use vstd::prelude::*;
use crate::paths::{
    has_extension, is_abs, join_view, joined_text, lemma_path_view_ok, lemma_view_render, parent_view, part_ok,
    path_extension, path_extension_view, path_parent, path_view, render, rest_view, same_path,
    strip_path_prefix, strip_path_text, strip_prefix_view, stripped_text, view_ok, PathView,
};
use crate::text::{ascii_upper, char_uppercase, is_ascii_char, chars_of, decimal, push_char, push_decimal, push_str, push_uppercase};
use crate::validation::{opt_chars, resolve_source_path, resolved_source, string_seqs};

verus! {

/// A refactor request: sources, targets (one for each source), the
/// operation and the project root.
pub struct RefactorRequest {
    pub source_path: Vec<String>,
    pub target_path: Option<Vec<String>>,
    pub operation: String,
    pub project_path: Option<String>,
}

/// The languages that have a driver, in the order of their names.
#[derive(Debug, Clone, Copy, PartialEq, Eq, Structural)]
pub enum Language {
    Dart,
    Go,
    Markdown,
    Python,
    Rust,
    TypeScript,
}

/// The name of a language.
pub open spec fn lang_name(l: Language) -> Seq<char> {
    match l {
        Language::Dart => "dart"@,
        Language::Go => "go"@,
        Language::Markdown => "markdown"@,
        Language::Python => "python"@,
        Language::Rust => "rust"@,
        Language::TypeScript => "typescript"@,
    }
}

impl Language {
    /// The name of the language.
    pub fn name(&self) -> (r: &'static str)
        ensures
            r@ == lang_name(*self),
    {
        match self {
            Language::Dart => "dart",
            Language::Go => "go",
            Language::Markdown => "markdown",
            Language::Python => "python",
            Language::Rust => "rust",
            Language::TypeScript => "typescript",
        }
    }
}

/// Why a request cannot be carried out.
pub enum LogicError {
    UnsupportedLanguage { lang: String },
    DirectoryNotTypeScript { path: String },
    MissingTargets,
}

pub enum LogicErrorView {
    UnsupportedLanguage { lang: Seq<char> },
    DirectoryNotTypeScript { path: Seq<char> },
    MissingTargets,
}

impl View for LogicError {
    type V = LogicErrorView;

    open spec fn view(&self) -> LogicErrorView {
        match self {
            LogicError::UnsupportedLanguage { lang } => LogicErrorView::UnsupportedLanguage {
                lang: lang@,
            },
            LogicError::DirectoryNotTypeScript { path } => LogicErrorView::DirectoryNotTypeScript {
                path: path@,
            },
            LogicError::MissingTargets => LogicErrorView::MissingTargets,
        }
    }
}

pub open spec fn logic_message(e: LogicErrorView) -> Seq<char> {
    match e {
        LogicErrorView::UnsupportedLanguage { lang } => "Unsupported language: "@ + lang,
        LogicErrorView::DirectoryNotTypeScript { path } =>
            "Directory moves are only supported for TypeScript/JavaScript projects. '"@ + path
                + "' does not appear to contain TypeScript or JavaScript files."@,
        LogicErrorView::MissingTargets => "Target path required for move"@,
    }
}

impl LogicError {
    /// The text of the error.
    pub fn message(&self) -> (m: String)
        ensures
            m@ == logic_message(self@),
    {
        let mut m = String::new();
        match self {
            LogicError::UnsupportedLanguage { lang } => {
                push_str(&mut m, "Unsupported language: ");
                push_str(&mut m, lang.as_str());
            },
            LogicError::DirectoryNotTypeScript { path } => {
                push_str(
                    &mut m,
                    "Directory moves are only supported for TypeScript/JavaScript projects. '",
                );
                push_str(&mut m, path.as_str());
                push_str(&mut m, "' does not appear to contain TypeScript or JavaScript files.");
            },
            LogicError::MissingTargets => {
                push_str(&mut m, "Target path required for move");
            },
        }
        m
    }
}

/// The driver for the language named `lang`.
pub fn get_driver_by_lang(lang: &str) -> (r: Result<Language, LogicError>)
    ensures
        match r {
            Ok(l) => lang_name(l) == lang@,
            Err(e) => (forall|l: Language| lang_name(l) != lang@) && e@
                == LogicErrorView::UnsupportedLanguage { lang: lang@ },
        },
{
    let all = [
        Language::Dart,
        Language::Go,
        Language::Markdown,
        Language::Python,
        Language::Rust,
        Language::TypeScript,
    ];
    let t = chars_of(lang);
    let mut k: usize = 0;
    while k < 6
        invariant
            k <= 6,
            all@ == seq![
                Language::Dart,
                Language::Go,
                Language::Markdown,
                Language::Python,
                Language::Rust,
                Language::TypeScript,
            ],
            t@ == lang@,
            forall|j: int| 0 <= j < k ==> lang_name(#[trigger] all@[j]) != lang@,
        decreases 6 - k,
    {
        let l = all[k];
        let n = chars_of(l.name());
        if crate::text::same_chars(&n, &t) {
            return Ok(l);
        }
        k = k + 1;
    }
    assert forall|l: Language| lang_name(l) != lang@ by {
        match l {
            Language::Dart => assert(lang_name(all@[0]) != lang@),
            Language::Go => assert(lang_name(all@[1]) != lang@),
            Language::Markdown => assert(lang_name(all@[2]) != lang@),
            Language::Python => assert(lang_name(all@[3]) != lang@),
            Language::Rust => assert(lang_name(all@[4]) != lang@),
            Language::TypeScript => assert(lang_name(all@[5]) != lang@),
        }
    }
    Err(LogicError::UnsupportedLanguage { lang: lang.to_owned() })
}

/// The language of a file by its extension.
pub open spec fn language_of_extension(ext: Option<Seq<char>>) -> Option<Language> {
    match ext {
        None => None,
        Some(e) => if e == "md"@ {
            Some(Language::Markdown)
        } else if e == "py"@ {
            Some(Language::Python)
        } else if e == "ts"@ || e == "tsx"@ || e == "js"@ || e == "jsx"@ {
            Some(Language::TypeScript)
        } else if e == "rs"@ {
            Some(Language::Rust)
        } else if e == "go"@ {
            Some(Language::Go)
        } else if e == "dart"@ {
            Some(Language::Dart)
        } else {
            None
        },
    }
}

fn is_ext(e: &String, lit: &str) -> (b: bool)
    ensures
        b == (e@ == lit@),
{
    let a = chars_of(e.as_str());
    let b = chars_of(lit);
    crate::text::same_chars(&a, &b)
}

/// The language of the file `path`, by its extension.
pub fn language_for_path(path: &str) -> (r: Option<Language>)
    ensures
        r == language_of_extension(path_extension_view(path@)),
{
    match path_extension(path) {
        None => None,
        Some(e) => {
            if is_ext(&e, "md") {
                Some(Language::Markdown)
            } else if is_ext(&e, "py") {
                Some(Language::Python)
            } else if is_ext(&e, "ts") || is_ext(&e, "tsx") || is_ext(&e, "js") || is_ext(
                &e,
                "jsx",
            ) {
                Some(Language::TypeScript)
            } else if is_ext(&e, "rs") {
                Some(Language::Rust)
            } else if is_ext(&e, "go") {
                Some(Language::Go)
            } else if is_ext(&e, "dart") {
                Some(Language::Dart)
            } else {
                None
            }
        },
    }
}

/// Whether `path` names a TypeScript or JavaScript file.
pub fn is_typescript_or_javascript(path: &str) -> (b: bool)
    ensures
        b == (language_of_extension(path_extension_view(path@)) == Some(Language::TypeScript)),
{
    match language_for_path(path) {
        Some(Language::TypeScript) => true,
        _ => false,
    }
}

/// Whether the path `p` names a TypeScript or JavaScript file.
pub open spec fn is_script(p: Seq<char>) -> bool {
    language_of_extension(path_extension_view(p)) == Some(Language::TypeScript)
}

/// The TypeScript and JavaScript files among `files`, each counted once.
pub open spec fn script_files(files: Seq<Seq<char>>) -> Set<Seq<char>> {
    files.to_set().filter(|p: Seq<char>| is_script(p))
}

/// Counts the distinct TypeScript and JavaScript files among `files` (the
/// requested files and the files found under the requested directories),
/// the workload that a batch hands to the TypeScript tooling.
pub fn count_source_files(files: &Vec<String>) -> (n: usize)
    ensures
        n == script_files(string_seqs(files@)).len(),
{
    let ghost fs = string_seqs(files@);
    let mut seen: Vec<String> = Vec::new();
    let mut j: usize = 0;
    while j < files.len()
        invariant
            j <= files@.len(),
            fs == string_seqs(files@),
            string_seqs(seen@).no_duplicates(),
            string_seqs(seen@).to_set() == script_files(fs.take(j as int)),
            seen@.len() <= j,
        decreases files.len() - j,
    {
        let ghost before = string_seqs(seen@);
        assert(fs.take(j as int + 1) == fs.take(j as int).push(fs[j as int]));
        if is_typescript_or_javascript(files[j].as_str()) {
            let mut k: usize = 0;
            let mut found = false;
            while k < seen.len()
                invariant
                    k <= seen@.len(),
                    before == string_seqs(seen@),
                    found ==> before.contains(fs[j as int]),
                    !found ==> forall|m: int| 0 <= m < k ==> before[m] != fs[j as int],
                    fs == string_seqs(files@),
                    j < files@.len(),
                decreases seen.len() - k,
            {
                if seen[k] == files[j] {
                    assert(before[k as int] == fs[j as int]);
                    found = true;
                }
                k = k + 1;
            }
            if !found {
                seen.push(files[j].clone());
                assert(string_seqs(seen@) == before.push(fs[j as int]));
                proof {
                    before.lemma_push_to_set_commute(fs[j as int]);
                }
                assert(string_seqs(seen@).no_duplicates());
            }
            assert(string_seqs(seen@).to_set() == script_files(fs.take(j as int + 1))) by {
                fs.take(j as int).lemma_push_to_set_commute(fs[j as int]);
                assert(string_seqs(seen@).to_set() =~= script_files(fs.take(j as int + 1)));
            }
        } else {
            assert(string_seqs(seen@).to_set() == script_files(fs.take(j as int + 1))) by {
                fs.take(j as int).lemma_push_to_set_commute(fs[j as int]);
                assert(string_seqs(seen@).to_set() =~= script_files(fs.take(j as int + 1)));
            }
        }
        j = j + 1;
    }
    proof {
        assert(fs.take(files@.len() as int) == fs);
        string_seqs(seen@).unique_seq_to_set();
    }
    seen.len()
}

// ---------------------------------------------------------------------------
// Go collaterals

/// The requested targets, resolved against the project root.
pub open spec fn resolved_targets(files: Seq<(Seq<char>, Seq<char>)>, root: Option<Seq<char>>) -> Seq<
    Seq<char>,
>
    decreases files.len(),
{
    if files.len() == 0 {
        Seq::empty()
    } else {
        resolved_targets(files.drop_last(), root).push(resolved_source(files.last().1, root))
    }
}

/// The directories that hold the resolved targets, each once, in the order
/// in which they first come.
pub open spec fn target_dirs_view(targets: Seq<Seq<char>>) -> Seq<PathView>
    decreases targets.len(),
{
    if targets.len() == 0 {
        Seq::empty()
    } else {
        let rest = target_dirs_view(targets.drop_last());
        match parent_view(path_view(targets.last())) {
            Some(d) => if rest.contains(d) {
                rest
            } else {
                rest.push(d)
            },
            None => rest,
        }
    }
}

/// Whether a path found in a target directory was moved along with the
/// package: a Go file that no requested target names.
pub open spec fn is_collateral(targets: Seq<Seq<char>>, entry: Seq<char>) -> bool {
    &&& path_extension_view(entry) == Some("go"@)
    &&& !(exists|i: int| 0 <= i < targets.len() && path_view(targets[i]) == path_view(entry))
}

/// The collateral files among `entries`, in their order.
pub open spec fn collaterals_view(targets: Seq<Seq<char>>, entries: Seq<Seq<char>>) -> Seq<Seq<char>>
    decreases entries.len(),
{
    if entries.len() == 0 {
        Seq::empty()
    } else {
        let rest = collaterals_view(targets, entries.drop_last());
        if is_collateral(targets, entries.last()) {
            rest.push(entries.last())
        } else {
            rest
        }
    }
}

fn resolve_targets(files: &Vec<(String, String)>, root: Option<&str>) -> (r: Vec<String>)
    ensures
        string_seqs(r@) == resolved_targets(pair_seqs(files@), opt_chars(root)),
{
    let ghost ps = pair_seqs(files@);
    let mut r: Vec<String> = Vec::new();
    let mut j: usize = 0;
    while j < files.len()
        invariant
            j <= files@.len(),
            ps == pair_seqs(files@),
            string_seqs(r@) == resolved_targets(ps.take(j as int), opt_chars(root)),
        decreases files.len() - j,
    {
        let t = resolve_source_path(files[j].1.as_str(), root);
        r.push(t);
        assert(ps.take(j as int + 1).drop_last() == ps.take(j as int));
        assert(string_seqs(r@) == resolved_targets(ps.take(j as int + 1), opt_chars(root)));
        j = j + 1;
    }
    assert(ps.take(files@.len() as int) == ps);
    r
}

/// The directories that hold the requested targets of a Go batch (resolved
/// against the project root), each once: the directories to look into for
/// files that gopls moved along with a package.
pub fn go_target_directories(files: &Vec<(String, String)>, root: Option<&str>) -> (r: Vec<String>)
    ensures
        r@.map_values(|d: String| path_view(d@)) == target_dirs_view(
            resolved_targets(pair_seqs(files@), opt_chars(root)),
        ),
{
    let targets = resolve_targets(files, root);
    let ghost ts = string_seqs(targets@);
    let mut r: Vec<String> = Vec::new();
    let mut j: usize = 0;
    while j < targets.len()
        invariant
            j <= targets@.len(),
            ts == string_seqs(targets@),
            r@.map_values(|d: String| path_view(d@)) == target_dirs_view(ts.take(j as int)),
        decreases targets.len() - j,
    {
        let ghost rv = r@.map_values(|d: String| path_view(d@));
        assert(ts.take(j as int + 1).drop_last() == ts.take(j as int));
        assert(ts.take(j as int + 1).last() == ts[j as int]);
        match path_parent(targets[j].as_str()) {
            Some(d) => {
                let mut k: usize = 0;
                let mut found = false;
                while k < r.len()
                    invariant
                        k <= r@.len(),
                        rv == r@.map_values(|d: String| path_view(d@)),
                        found ==> rv.contains(path_view(d@)),
                        !found ==> forall|m: int| 0 <= m < k ==> rv[m] != path_view(d@),
                    decreases r.len() - k,
                {
                    if same_path(r[k].as_str(), d.as_str()) {
                        assert(rv[k as int] == path_view(d@));
                        found = true;
                    }
                    k = k + 1;
                }
                if !found {
                    r.push(d);
                    assert(r@.map_values(|d: String| path_view(d@)) == rv.push(path_view(d@)));
                }
            },
            None => {},
        }
        j = j + 1;
    }
    assert(ts.take(targets@.len() as int) == ts);
    r
}

/// The files that gopls moved along with a Go package beyond the requested
/// ones: among `entries` (the paths found in the directories that
/// `go_target_directories` gives), the Go files that no requested target
/// (resolved against the project root) names, in the order of `entries`.
pub fn go_collateral_files(files: &Vec<(String, String)>, root: Option<&str>, entries: &Vec<String>) -> (r:
    Vec<String>)
    ensures
        string_seqs(r@) == collaterals_view(
            resolved_targets(pair_seqs(files@), opt_chars(root)),
            string_seqs(entries@),
        ),
{
    let targets = resolve_targets(files, root);
    let ghost ts = string_seqs(targets@);
    let ghost es = string_seqs(entries@);
    let mut r: Vec<String> = Vec::new();
    let mut j: usize = 0;
    while j < entries.len()
        invariant
            j <= entries@.len(),
            ts == string_seqs(targets@),
            es == string_seqs(entries@),
            string_seqs(r@) == collaterals_view(ts, es.take(j as int)),
        decreases entries.len() - j,
    {
        assert(es.take(j as int + 1).drop_last() == es.take(j as int));
        assert(es.take(j as int + 1).last() == es[j as int]);
        if has_extension(entries[j].as_str(), "go") {
            let mut k: usize = 0;
            let mut named = false;
            while k < targets.len()
                invariant
                    k <= targets@.len(),
                    ts == string_seqs(targets@),
                    es == string_seqs(entries@),
                    j < entries@.len(),
                    named ==> exists|i: int| 0 <= i < ts.len() && path_view(ts[i]) == path_view(es[j as int]),
                    !named ==> forall|m: int| 0 <= m < k ==> path_view(ts[m]) != path_view(es[j as int]),
                decreases targets.len() - k,
            {
                if same_path(targets[k].as_str(), entries[j].as_str()) {
                    assert(path_view(ts[k as int]) == path_view(es[j as int]));
                    named = true;
                }
                k = k + 1;
            }
            if !named {
                r.push(entries[j].clone());
                assert(string_seqs(r@) == collaterals_view(ts, es.take(j as int)).push(es[j as int]));
            }
        }
        j = j + 1;
    }
    assert(es.take(entries@.len() as int) == es);
    r
}

// ---------------------------------------------------------------------------
// Batches

/// Where the `k`-th requested move goes: a language, no language (skipped),
/// or a refusal (a directory without TypeScript or JavaScript files).
pub open spec fn entry_class(source: Seq<char>, is_dir: bool, dir_is_typescript: bool) -> Result<
    Option<Language>,
    LogicErrorView,
> {
    if is_dir {
        if dir_is_typescript {
            Ok(Some(Language::TypeScript))
        } else {
            Err(LogicErrorView::DirectoryNotTypeScript { path: source })
        }
    } else {
        Ok(language_of_extension(path_extension_view(source)))
    }
}

/// The classes of the first `n` entries, or the first refusal.
pub open spec fn classes(
    sources: Seq<Seq<char>>,
    is_dir: Seq<bool>,
    dir_is_typescript: Seq<bool>,
    n: int,
) -> Result<Seq<Option<Language>>, LogicErrorView>
    decreases n,
{
    if n <= 0 {
        Ok(Seq::empty())
    } else {
        match classes(sources, is_dir, dir_is_typescript, n - 1) {
            Err(e) => Err(e),
            Ok(cs) => match entry_class(sources[n - 1], is_dir[n - 1], dir_is_typescript[n - 1]) {
                Err(e) => Err(e),
                Ok(c) => Ok(cs.push(c)),
            },
        }
    }
}

/// The entries of class `Some(l)`, in order.
pub open spec fn batch_of(
    pairs: Seq<(Seq<char>, Seq<char>)>,
    cs: Seq<Option<Language>>,
    l: Language,
) -> Seq<(Seq<char>, Seq<char>)>
    decreases pairs.len(),
{
    if pairs.len() == 0 || cs.len() == 0 {
        Seq::empty()
    } else {
        let rest = batch_of(pairs.drop_last(), cs.drop_last(), l);
        if cs.last() == Some(l) {
            rest.push(pairs.last())
        } else {
            rest
        }
    }
}

/// The sources of the entries without a language, in order.
pub open spec fn skipped_of(pairs: Seq<(Seq<char>, Seq<char>)>, cs: Seq<Option<Language>>) -> Seq<
    Seq<char>,
>
    decreases pairs.len(),
{
    if pairs.len() == 0 || cs.len() == 0 {
        Seq::empty()
    } else {
        let rest = skipped_of(pairs.drop_last(), cs.drop_last());
        if cs.last() is None {
            rest.push(pairs.last().0)
        } else {
            rest
        }
    }
}

pub open spec fn all_languages() -> Seq<Language> {
    seq![
        Language::Dart,
        Language::Go,
        Language::Markdown,
        Language::Python,
        Language::Rust,
        Language::TypeScript,
    ]
}

/// The non-empty batches of the languages among the first `n` of `langs`.
pub open spec fn batch_list(
    pairs: Seq<(Seq<char>, Seq<char>)>,
    cs: Seq<Option<Language>>,
    langs: Seq<Language>,
) -> Seq<(Language, Seq<(Seq<char>, Seq<char>)>)>
    decreases langs.len(),
{
    if langs.len() == 0 {
        Seq::empty()
    } else {
        let rest = batch_list(pairs, cs, langs.drop_last());
        let b = batch_of(pairs, cs, langs.last());
        if b.len() > 0 {
            rest.push((langs.last(), b))
        } else {
            rest
        }
    }
}

/// The requested moves, grouped by language.
pub struct Batches {
    pub batches: Vec<(Language, Vec<(String, String)>)>,
    pub skipped: Vec<String>,
}

pub open spec fn pair_seqs(v: Seq<(String, String)>) -> Seq<(Seq<char>, Seq<char>)> {
    v.map_values(|p: (String, String)| (p.0@, p.1@))
}

pub open spec fn batch_views(v: Seq<(Language, Vec<(String, String)>)>) -> Seq<
    (Language, Seq<(Seq<char>, Seq<char>)>),
> {
    v.map_values(|b: (Language, Vec<(String, String)>)| (b.0, pair_seqs(b.1@)))
}

/// The source and target pairs of the request.
pub open spec fn request_pairs(sources: Seq<Seq<char>>, targets: Seq<Seq<char>>) -> Seq<
    (Seq<char>, Seq<char>),
> {
    Seq::new(
        if sources.len() <= targets.len() {
            sources.len()
        } else {
            targets.len()
        },
        |k: int| (sources[k], targets[k]),
    )
}

/// What `plan_batches` gives: the batches in the order of the language names
/// and the skipped sources, or the first refusal.
pub open spec fn batches_outcome(
    sources: Seq<Seq<char>>,
    targets: Seq<Seq<char>>,
    is_dir: Seq<bool>,
    dir_is_typescript: Seq<bool>,
) -> Result<(Seq<(Language, Seq<(Seq<char>, Seq<char>)>)>, Seq<Seq<char>>), LogicErrorView> {
    let pairs = request_pairs(sources, targets);
    match classes(sources, is_dir, dir_is_typescript, pairs.len() as int) {
        Err(e) => Err(e),
        Ok(cs) => Ok((batch_list(pairs, cs, all_languages()), skipped_of(pairs, cs))),
    }
}

proof fn lemma_classes_len(
    sources: Seq<Seq<char>>,
    is_dir: Seq<bool>,
    dir_is_typescript: Seq<bool>,
    n: int,
)
    requires
        n >= 0,
    ensures
        classes(sources, is_dir, dir_is_typescript, n) matches Ok(cs) ==> cs.len() == n,
    decreases n,
{
    if n > 0 {
        lemma_classes_len(sources, is_dir, dir_is_typescript, n - 1);
    }
}

proof fn lemma_classes_err(
    sources: Seq<Seq<char>>,
    is_dir: Seq<bool>,
    dir_is_typescript: Seq<bool>,
    k: int,
    n: int,
)
    requires
        0 <= k <= n,
        classes(sources, is_dir, dir_is_typescript, k) is Err,
    ensures
        classes(sources, is_dir, dir_is_typescript, n) == classes(
            sources,
            is_dir,
            dir_is_typescript,
            k,
        ),
    decreases n - k,
{
    if n > k {
        lemma_classes_err(sources, is_dir, dir_is_typescript, k, n - 1);
    }
}

/// Groups the requested moves by language. `is_dir[k]` tells whether the
/// `k`-th source (resolved against the project root) is a directory, and
/// `dir_is_typescript[k]` whether such a directory holds TypeScript or
/// JavaScript files; a directory goes to the TypeScript driver.
pub fn plan_batches(
    sources: &Vec<String>,
    targets: &Vec<String>,
    is_dir: &Vec<bool>,
    dir_is_typescript: &Vec<bool>,
) -> (r: Result<Batches, LogicError>)
    requires
        is_dir@.len() == sources@.len(),
        dir_is_typescript@.len() == sources@.len(),
    ensures
        match r {
            Ok(b) => batches_outcome(
                string_seqs(sources@),
                string_seqs(targets@),
                is_dir@,
                dir_is_typescript@,
            ) == Ok::<(Seq<(Language, Seq<(Seq<char>, Seq<char>)>)>, Seq<Seq<char>>), LogicErrorView>(
                (batch_views(b.batches@), string_seqs(b.skipped@)),
            ),
            Err(e) => batches_outcome(
                string_seqs(sources@),
                string_seqs(targets@),
                is_dir@,
                dir_is_typescript@,
            ) == Err::<(Seq<(Language, Seq<(Seq<char>, Seq<char>)>)>, Seq<Seq<char>>), LogicErrorView>(
                e@,
            ),
        },
{
    let ghost sv = string_seqs(sources@);
    let ghost tv = string_seqs(targets@);
    let n = if sources.len() <= targets.len() {
        sources.len()
    } else {
        targets.len()
    };
    let ghost pairs = request_pairs(sv, tv);
    // Classify each entry.
    let mut cs: Vec<Option<Language>> = Vec::new();
    let mut k: usize = 0;
    while k < n
        invariant
            k <= n <= sources@.len(),
            n <= targets@.len(),
            n == pairs.len(),
            is_dir@.len() == sources@.len(),
            dir_is_typescript@.len() == sources@.len(),
            sv == string_seqs(sources@),
            pairs == request_pairs(sv, string_seqs(targets@)),
            classes(sv, is_dir@, dir_is_typescript@, k as int) == Ok::<
                Seq<Option<Language>>,
                LogicErrorView,
            >(cs@),
        decreases n - k,
    {
        let c = if is_dir[k] {
            if dir_is_typescript[k] {
                Some(Language::TypeScript)
            } else {
                proof {
                    lemma_classes_err(sv, is_dir@, dir_is_typescript@, k + 1, n as int);
                }
                return Err(LogicError::DirectoryNotTypeScript { path: sources[k].clone() });
            }
        } else {
            language_for_path(sources[k].as_str())
        };
        cs.push(c);
        k = k + 1;
    }
    proof {
        lemma_classes_len(sv, is_dir@, dir_is_typescript@, n as int);
    }
    // The skipped sources.
    let mut skipped: Vec<String> = Vec::new();
    let mut k: usize = 0;
    assert(pairs.take(0) =~= Seq::<(Seq<char>, Seq<char>)>::empty());
    assert(string_seqs(skipped@) =~= Seq::<Seq<char>>::empty());
    while k < n
        invariant
            k <= n <= sources@.len(),
            n <= targets@.len(),
            n == pairs.len() == cs@.len(),
            sv == string_seqs(sources@),
            pairs == request_pairs(sv, string_seqs(targets@)),
            string_seqs(skipped@) == skipped_of(pairs.take(k as int), cs@.take(k as int)),
        decreases n - k,
    {
        assert(pairs.take(k + 1).drop_last() =~= pairs.take(k as int));
        assert(cs@.take(k + 1).drop_last() =~= cs@.take(k as int));
        assert(pairs.take(k + 1).last() == pairs[k as int]);
        assert(cs@.take(k + 1).last() == cs@[k as int]);
        if cs[k].is_none() {
            let ghost before = skipped@;
            let s = sources[k].clone();
            skipped.push(s);
            assert(string_seqs(skipped@) =~= string_seqs(before).push(sv[k as int]));
        }
        k = k + 1;
    }
    assert(pairs.take(n as int) =~= pairs);
    assert(cs@.take(n as int) =~= cs@);
    // The batches, in the order of the language names.
    let all = [
        Language::Dart,
        Language::Go,
        Language::Markdown,
        Language::Python,
        Language::Rust,
        Language::TypeScript,
    ];
    assert(all@ == all_languages());
    let mut batches: Vec<(Language, Vec<(String, String)>)> = Vec::new();
    let mut li: usize = 0;
    assert(all_languages().take(0) =~= Seq::<Language>::empty());
    assert(batch_views(batches@) =~= Seq::<(Language, Seq<(Seq<char>, Seq<char>)>)>::empty());
    while li < 6
        invariant
            li <= 6,
            all@ == all_languages(),
            n <= sources@.len(),
            n <= targets@.len(),
            n == pairs.len() == cs@.len(),
            sv == string_seqs(sources@),
            pairs == request_pairs(sv, string_seqs(targets@)),
            batch_views(batches@) == batch_list(pairs, cs@, all_languages().take(li as int)),
        decreases 6 - li,
    {
        let l = all[li];
        let mut files: Vec<(String, String)> = Vec::new();
        let mut k: usize = 0;
        assert(pair_seqs(files@) =~= Seq::<(Seq<char>, Seq<char>)>::empty());
        while k < n
            invariant
                k <= n <= sources@.len(),
                n <= targets@.len(),
                n == pairs.len() == cs@.len(),
                sv == string_seqs(sources@),
                pairs == request_pairs(sv, string_seqs(targets@)),
                pair_seqs(files@) == batch_of(pairs.take(k as int), cs@.take(k as int), l),
            decreases n - k,
        {
            assert(pairs.take(k + 1).drop_last() =~= pairs.take(k as int));
            assert(cs@.take(k + 1).drop_last() =~= cs@.take(k as int));
            assert(pairs.take(k + 1).last() == pairs[k as int]);
            assert(cs@.take(k + 1).last() == cs@[k as int]);
            if cs[k] == Some(l) {
                let ghost before = files@;
                let pair = (sources[k].clone(), targets[k].clone());
                let ghost pv = (pair.0@, pair.1@);
                files.push(pair);
                assert(pair_seqs(files@) =~= pair_seqs(before).push(pv));
            }
            k = k + 1;
        }
        assert(pairs.take(n as int) =~= pairs);
        assert(cs@.take(n as int) =~= cs@);
        assert(all_languages().take(li + 1).drop_last() =~= all_languages().take(li as int));
        assert(all_languages().take(li + 1).last() == l);
        if files.len() > 0 {
            let ghost before = batches@;
            let ghost fv = pair_seqs(files@);
            batches.push((l, files));
            assert(batch_views(batches@) =~= batch_views(before).push((l, fv)));
        }
        li = li + 1;
    }
    assert(all_languages().take(6) =~= all_languages());
    Ok(Batches { batches, skipped })
}

// ---------------------------------------------------------------------------
// The report

/// `s` with its first character upper-cased (`char::to_uppercase`).
pub open spec fn capitalized(s: Seq<char>) -> Seq<char> {
    if s.len() == 0 {
        Seq::empty()
    } else {
        char_uppercase(s[0]) + s.skip(1)
    }
}

/// Upper-cases the first character of `s`.
pub fn capitalize(s: &str) -> (r: String)
    ensures
        r@ == capitalized(s@),
        s@.len() > 0 && is_ascii_char(s@[0]) ==> r@ == seq![ascii_upper(s@[0])] + s@.skip(1),
{
    let t = chars_of(s);
    let mut r = String::new();
    if t.len() == 0 {
        return r;
    }
    push_uppercase(&mut r, t[0]);
    let ghost head = r@;
    let mut i: usize = 1;
    while i < t.len()
        invariant
            1 <= i <= t@.len(),
            r@ == head + t@.subrange(1, i as int),
        decreases t.len() - i,
    {
        push_char(&mut r, t[i]);
        i = i + 1;
        assert(r@ =~= head + t@.subrange(1, i as int));
    }
    assert(t@.subrange(1, t@.len() as int) =~= t@.skip(1));
    r
}

/// A path as the report shows it: relative to the project root where it
/// lies under it.
pub open spec fn rel_view(path: Seq<char>, root: Option<Seq<char>>) -> Seq<char> {
    match root {
        Some(r) => match strip_prefix_view(path_view(path), path_view(r)) {
            Some(_) => stripped_text(path, r),
            None => path,
        },
        None => path,
    }
}

/// `path` relative to `root` where it lies under it, else as given.
pub fn rel_display(path: &str, root: Option<&str>) -> (r: String)
    ensures
        r@ == rel_view(path@, opt_chars(root)),
{
    match root {
        Some(rt) => match strip_path_text(path, rt) {
            Some(p) => p,
            None => path.to_owned(),
        },
        None => path.to_owned(),
    }
}

/// The report names a requested relative path by the components of the
/// request: resolving it against the project root and then showing it
/// relative to that root gives back its components (without a leading `.`).
/// An empty root with a path that starts with `.` is the exception: the
/// resolved path then starts with `.` and the root does not.
pub proof fn lemma_display_undoes_resolution(path: Seq<char>, root: Seq<char>)
    requires
        !is_abs(path),
        !(!is_abs(root) && !path_view(root).cur && path_view(root).parts.len() == 0 && path_view(
            path,
        ).cur),
    ensures
        path_view(rel_view(resolved_source(path, Some(root)), Some(root))) == (PathView {
            abs: false,
            cur: false,
            parts: path_view(path).parts,
        }),
{
    let rv = path_view(root);
    let pv = path_view(path);
    lemma_path_view_ok(root);
    lemma_path_view_ok(path);
    let j = join_view(rv, pv);
    assert(view_ok(j)) by {
        assert forall|k: int| 0 <= k < j.parts.len() implies part_ok(#[trigger] j.parts[k]) by {
            if k < rv.parts.len() {
                assert(j.parts[k] == rv.parts[k]);
            } else {
                assert(j.parts[k] == pv.parts[k - rv.parts.len()]);
            }
        }
    }
    lemma_view_render(j);
    crate::paths::lemma_joined_text_view(root, path);
    assert(j.parts.take(rv.parts.len() as int) =~= rv.parts);
    let rest = rest_view(j, rv.parts.len() as int);
    assert(rest.parts =~= pv.parts);
    assert(strip_prefix_view(path_view(joined_text(root, path)), rv) == Some(rest));
    assert(view_ok(rest)) by {
        assert forall|k: int| 0 <= k < rest.parts.len() implies part_ok(#[trigger] rest.parts[k]) by {
            assert(rest.parts[k] == pv.parts[k]);
        }
    }
    lemma_view_render(rest);
    crate::paths::lemma_stripped_text_view(joined_text(root, path), root);
}

/// One line per move: `source -> target`, two spaces and a line feed.
pub open spec fn move_lines(files: Seq<(Seq<char>, Seq<char>)>, root: Option<Seq<char>>) -> Seq<char>
    decreases files.len(),
{
    if files.len() == 0 {
        Seq::empty()
    } else {
        move_lines(files.drop_last(), root) + rel_view(files.last().0, root) + " -> "@ + rel_view(
            files.last().1,
            root,
        ) + "  \n"@
    }
}

/// One line per path, with two spaces and a line feed.
pub open spec fn path_lines(paths: Seq<Seq<char>>, root: Option<Seq<char>>) -> Seq<char>
    decreases paths.len(),
{
    if paths.len() == 0 {
        Seq::empty()
    } else {
        path_lines(paths.drop_last(), root) + rel_view(paths.last(), root) + "  \n"@
    }
}

/// The note on the files that a Go package move took along.
pub open spec fn go_note(collaterals: Seq<Seq<char>>, root: Option<Seq<char>>) -> Seq<char> {
    if collaterals.len() == 0 {
        Seq::empty()
    } else {
        "\n// Note — Go moves entire packages. The following files were also relocated as part of the package rename:  \n\n"@
            + path_lines(collaterals, root)
    }
}

/// The sections of the batches that succeeded.
pub open spec fn success_sections(
    done: Seq<(Language, Seq<(Seq<char>, Seq<char>)>)>,
    root: Option<Seq<char>>,
    collaterals: Seq<Seq<char>>,
) -> Seq<char>
    decreases done.len(),
{
    if done.len() == 0 {
        Seq::empty()
    } else {
        let (l, files) = done.last();
        success_sections(done.drop_last(), root, collaterals) + "\n// "@ + capitalized(lang_name(l))
            + " results:\n\n"@ + move_lines(files, root) + if l == Language::Go {
            go_note(collaterals, root)
        } else {
            Seq::empty()
        }
    }
}

/// The sections of the batches that failed.
pub open spec fn failure_sections(
    failed: Seq<(Language, Seq<(Seq<char>, Seq<char>)>, Seq<char>)>,
    root: Option<Seq<char>>,
) -> Seq<char>
    decreases failed.len(),
{
    if failed.len() == 0 {
        Seq::empty()
    } else {
        let (l, files, err) = failed.last();
        failure_sections(failed.drop_last(), root) + "\n// "@ + capitalized(lang_name(l)) + " — "@
            + err + "\n\n"@ + move_lines(files, root)
    }
}

/// How many files the batches that succeeded moved.
pub open spec fn total_files(done: Seq<(Language, Seq<(Seq<char>, Seq<char>)>)>) -> nat
    decreases done.len(),
{
    if done.len() == 0 {
        0
    } else {
        total_files(done.drop_last()) + done.last().1.len()
    }
}

/// The report of a refactor in which some batch succeeded or some source was
/// skipped.
pub open spec fn report_text(
    done: Seq<(Language, Seq<(Seq<char>, Seq<char>)>)>,
    failed: Seq<(Language, Seq<(Seq<char>, Seq<char>)>, Seq<char>)>,
    skipped: Seq<Seq<char>>,
    root: Option<Seq<char>>,
    collaterals: Seq<Seq<char>>,
) -> Seq<char> {
    let n = total_files(done);
    "// Alhamdulillah "@ + decimal(n) + " file"@ + (if n == 1 {
        " was"@
    } else {
        " were"@
    }) + " successfully refactored:\n"@ + success_sections(done, root, collaterals) + (if failed.len()
        > 0 {
        "\n// Failed:\n"@ + failure_sections(failed, root)
    } else {
        Seq::empty()
    }) + (if skipped.len() > 0 {
        "\n// Skipped (unsupported extension):  \n\n"@ + path_lines(skipped, root)
    } else {
        Seq::empty()
    })
}

/// The moves of a failed batch, one per line, indented by two spaces.
pub open spec fn failed_file_list(files: Seq<(Seq<char>, Seq<char>)>, root: Option<Seq<char>>) -> Seq<
    char,
>
    decreases files.len(),
{
    if files.len() == 0 {
        Seq::empty()
    } else if files.len() == 1 {
        "  "@ + rel_view(files[0].0, root) + " -> "@ + rel_view(files[0].1, root)
    } else {
        failed_file_list(files.drop_last(), root) + "\n"@ + "  "@ + rel_view(files.last().0, root)
            + " -> "@ + rel_view(files.last().1, root)
    }
}

/// The error of a refactor in which every batch failed: one paragraph per
/// batch.
pub open spec fn failure_summary(
    failed: Seq<(Language, Seq<(Seq<char>, Seq<char>)>, Seq<char>)>,
    root: Option<Seq<char>>,
) -> Seq<char>
    decreases failed.len(),
{
    if failed.len() == 0 {
        Seq::empty()
    } else {
        let (l, files, err) = failed.last();
        let para = capitalized(lang_name(l)) + ": "@ + err + "\n"@ + failed_file_list(files, root);
        if failed.len() == 1 {
            para
        } else {
            failure_summary(failed.drop_last(), root) + "\n\n"@ + para
        }
    }
}

/// What a refactor answers: where every batch failed and nothing was
/// skipped, an error that lists the failures; where some batch failed
/// otherwise, an error that carries the whole report; where none failed, the
/// report.
pub open spec fn report_outcome(
    done: Seq<(Language, Seq<(Seq<char>, Seq<char>)>)>,
    failed: Seq<(Language, Seq<(Seq<char>, Seq<char>)>, Seq<char>)>,
    skipped: Seq<Seq<char>>,
    root: Option<Seq<char>>,
    collaterals: Seq<Seq<char>>,
) -> Result<Seq<char>, Seq<char>> {
    if failed.len() > 0 && done.len() == 0 && skipped.len() == 0 {
        Err(failure_summary(failed, root))
    } else if failed.len() > 0 {
        Err(report_text(done, failed, skipped, root, collaterals))
    } else {
        Ok(report_text(done, failed, skipped, root, collaterals))
    }
}

/// The text of an answer, report or error.
pub open spec fn outcome_text(r: Result<Seq<char>, Seq<char>>) -> Seq<char> {
    match r {
        Ok(t) => t,
        Err(t) => t,
    }
}

pub open spec fn failure_views(v: Seq<(Language, Vec<(String, String)>, String)>) -> Seq<
    (Language, Seq<(Seq<char>, Seq<char>)>, Seq<char>),
> {
    v.map_values(|f: (Language, Vec<(String, String)>, String)| (f.0, pair_seqs(f.1@), f.2@))
}

fn push_move_lines(s: &mut String, files: &Vec<(String, String)>, root: Option<&str>)
    ensures
        final(s)@ == old(s)@ + move_lines(pair_seqs(files@), opt_chars(root)),
{
    let ghost start = s@;
    let ghost fv = pair_seqs(files@);
    let mut k: usize = 0;
    assert(fv.take(0) =~= Seq::<(Seq<char>, Seq<char>)>::empty());
    while k < files.len()
        invariant
            k <= files@.len(),
            fv == pair_seqs(files@),
            s@ == start + move_lines(fv.take(k as int), opt_chars(root)),
        decreases files.len() - k,
    {
        assert(fv.take(k + 1).drop_last() =~= fv.take(k as int));
        assert(fv.take(k + 1).last() == fv[k as int]);
        let a = rel_display(files[k].0.as_str(), root);
        let b = rel_display(files[k].1.as_str(), root);
        push_str(s, a.as_str());
        push_str(s, " -> ");
        push_str(s, b.as_str());
        push_str(s, "  \n");
        assert(s@ =~= start + move_lines(fv.take(k + 1), opt_chars(root)));
        k = k + 1;
    }
    assert(fv.take(files@.len() as int) =~= fv);
}

fn push_path_lines(s: &mut String, paths: &Vec<String>, root: Option<&str>)
    ensures
        final(s)@ == old(s)@ + path_lines(string_seqs(paths@), opt_chars(root)),
{
    let ghost start = s@;
    let ghost pv = string_seqs(paths@);
    let mut k: usize = 0;
    assert(pv.take(0) =~= Seq::<Seq<char>>::empty());
    while k < paths.len()
        invariant
            k <= paths@.len(),
            pv == string_seqs(paths@),
            s@ == start + path_lines(pv.take(k as int), opt_chars(root)),
        decreases paths.len() - k,
    {
        assert(pv.take(k + 1).drop_last() =~= pv.take(k as int));
        assert(pv.take(k + 1).last() == pv[k as int]);
        let a = rel_display(paths[k].as_str(), root);
        push_str(s, a.as_str());
        push_str(s, "  \n");
        assert(s@ =~= start + path_lines(pv.take(k + 1), opt_chars(root)));
        k = k + 1;
    }
    assert(pv.take(paths@.len() as int) =~= pv);
}

fn push_failed_file_list(s: &mut String, files: &Vec<(String, String)>, root: Option<&str>)
    ensures
        final(s)@ == old(s)@ + failed_file_list(pair_seqs(files@), opt_chars(root)),
{
    let ghost start = s@;
    let ghost fv = pair_seqs(files@);
    let mut k: usize = 0;
    assert(fv.take(0) =~= Seq::<(Seq<char>, Seq<char>)>::empty());
    while k < files.len()
        invariant
            k <= files@.len(),
            fv == pair_seqs(files@),
            s@ == start + failed_file_list(fv.take(k as int), opt_chars(root)),
        decreases files.len() - k,
    {
        assert(fv.take(k + 1).drop_last() =~= fv.take(k as int));
        assert(fv.take(k + 1).last() == fv[k as int]);
        if k > 0 {
            push_str(s, "\n");
        } else {
            assert(fv.take(1)[0] == fv[0]);
        }
        let a = rel_display(files[k].0.as_str(), root);
        let b = rel_display(files[k].1.as_str(), root);
        push_str(s, "  ");
        push_str(s, a.as_str());
        push_str(s, " -> ");
        push_str(s, b.as_str());
        assert(s@ =~= start + failed_file_list(fv.take(k + 1), opt_chars(root)));
        k = k + 1;
    }
    assert(fv.take(files@.len() as int) =~= fv);
}

/// What a refactor answers, given the batches that succeeded (in the order
/// of the language names), those that failed with their error texts, the
/// skipped sources, the project root and the files that a Go package move
/// took along.
pub fn refactor_report(
    done: &Vec<(Language, Vec<(String, String)>)>,
    failed: &Vec<(Language, Vec<(String, String)>, String)>,
    skipped: &Vec<String>,
    root: Option<&str>,
    collaterals: &Vec<String>,
) -> (r: Result<String, String>)
    requires
        total_files(batch_views(done@)) <= u64::MAX,
    ensures
        match r {
            Ok(s) => report_outcome(
                batch_views(done@),
                failure_views(failed@),
                string_seqs(skipped@),
                opt_chars(root),
                string_seqs(collaterals@),
            ) == Ok::<Seq<char>, Seq<char>>(s@),
            Err(s) => report_outcome(
                batch_views(done@),
                failure_views(failed@),
                string_seqs(skipped@),
                opt_chars(root),
                string_seqs(collaterals@),
            ) == Err::<Seq<char>, Seq<char>>(s@),
        },
{
    let ghost dv = batch_views(done@);
    let ghost fv = failure_views(failed@);
    let ghost rt = opt_chars(root);
    let ghost cv = string_seqs(collaterals@);
    if failed.len() > 0 && done.len() == 0 && skipped.len() == 0 {
        let mut s = String::new();
        let mut k: usize = 0;
        assert(fv.take(0) =~= Seq::<(Language, Seq<(Seq<char>, Seq<char>)>, Seq<char>)>::empty());
        while k < failed.len()
            invariant
                k <= failed@.len(),
                fv == failure_views(failed@),
                rt == opt_chars(root),
                s@ == failure_summary(fv.take(k as int), rt),
            decreases failed.len() - k,
        {
            assert(fv.take(k + 1).drop_last() =~= fv.take(k as int));
            assert(fv.take(k + 1).last() == fv[k as int]);
            let ghost before = s@;
            if k > 0 {
                push_str(&mut s, "\n\n");
            }
            let ghost para_start = s@;
            let (l, files, err) = (&failed[k].0, &failed[k].1, &failed[k].2);
            let cap = capitalize(l.name());
            push_str(&mut s, cap.as_str());
            push_str(&mut s, ": ");
            push_str(&mut s, err.as_str());
            push_str(&mut s, "\n");
            push_failed_file_list(&mut s, files, root);
            assert(s@ =~= failure_summary(fv.take(k + 1), rt)) by {
                if k == 0 {
                    assert(fv.take(1).len() == 1);
                    assert(fv.take(0) =~= Seq::<(Language, Seq<(Seq<char>, Seq<char>)>, Seq<char>)>::empty());
                }
            }
            k = k + 1;
        }
        assert(fv.take(failed@.len() as int) =~= fv);
        return Err(s);
    }
    // The number of files moved.
    let mut total: u64 = 0;
    let mut k: usize = 0;
    assert(dv.take(0) =~= Seq::<(Language, Seq<(Seq<char>, Seq<char>)>)>::empty());
    while k < done.len()
        invariant
            k <= done@.len(),
            dv == batch_views(done@),
            total == total_files(dv.take(k as int)),
            total_files(dv) <= u64::MAX,
        decreases done.len() - k,
    {
        assert(dv.take(k + 1).drop_last() =~= dv.take(k as int));
        assert(dv.take(k + 1).last() == dv[k as int]);
        proof {
            lemma_total_files_prefix(dv, k + 1);
        }
        total = total + done[k].1.len() as u64;
        k = k + 1;
    }
    assert(dv.take(done@.len() as int) =~= dv);
    let mut s = String::new();
    push_str(&mut s, "// Alhamdulillah ");
    push_decimal(&mut s, total);
    push_str(&mut s, " file");
    if total == 1 {
        push_str(&mut s, " was");
    } else {
        push_str(&mut s, " were");
    }
    push_str(&mut s, " successfully refactored:\n");
    let ghost head = s@;
    let mut k: usize = 0;
    while k < done.len()
        invariant
            k <= done@.len(),
            dv == batch_views(done@),
            rt == opt_chars(root),
            cv == string_seqs(collaterals@),
            s@ == head + success_sections(dv.take(k as int), rt, cv),
        decreases done.len() - k,
    {
        assert(dv.take(k + 1).drop_last() =~= dv.take(k as int));
        assert(dv.take(k + 1).last() == dv[k as int]);
        let l = done[k].0;
        let cap = capitalize(l.name());
        push_str(&mut s, "\n// ");
        push_str(&mut s, cap.as_str());
        push_str(&mut s, " results:\n\n");
        push_move_lines(&mut s, &done[k].1, root);
        if l == Language::Go && collaterals.len() > 0 {
            push_str(
                &mut s,
                "\n// Note — Go moves entire packages. The following files were also relocated as part of the package rename:  \n\n",
            );
            push_path_lines(&mut s, collaterals, root);
        }
        assert(s@ =~= head + success_sections(dv.take(k + 1), rt, cv));
        k = k + 1;
    }
    assert(dv.take(done@.len() as int) =~= dv);
    let ghost body = s@;
    if failed.len() > 0 {
        push_str(&mut s, "\n// Failed:\n");
        let ghost fstart = s@;
        let mut k: usize = 0;
        assert(fv.take(0) =~= Seq::<(Language, Seq<(Seq<char>, Seq<char>)>, Seq<char>)>::empty());
        while k < failed.len()
            invariant
                k <= failed@.len(),
                fv == failure_views(failed@),
                rt == opt_chars(root),
                s@ == fstart + failure_sections(fv.take(k as int), rt),
            decreases failed.len() - k,
        {
            assert(fv.take(k + 1).drop_last() =~= fv.take(k as int));
            assert(fv.take(k + 1).last() == fv[k as int]);
            let cap = capitalize(failed[k].0.name());
            push_str(&mut s, "\n// ");
            push_str(&mut s, cap.as_str());
            push_str(&mut s, " — ");
            push_str(&mut s, failed[k].2.as_str());
            push_str(&mut s, "\n\n");
            push_move_lines(&mut s, &failed[k].1, root);
            assert(s@ =~= fstart + failure_sections(fv.take(k + 1), rt));
            k = k + 1;
        }
        assert(fv.take(failed@.len() as int) =~= fv);
    }
    let ghost after_failed = s@;
    if skipped.len() > 0 {
        push_str(&mut s, "\n// Skipped (unsupported extension):  \n\n");
        push_path_lines(&mut s, skipped, root);
    }
    assert(s@ =~= report_text(dv, fv, string_seqs(skipped@), rt, cv));
    if failed.len() > 0 {
        Err(s)
    } else {
        Ok(s)
    }
}

/// What came of one batch: its driver was not available (with the reason),
/// it moved its files, or the move failed (with the error text).
pub enum BatchEvent {
    Unavailable(String),
    Moved,
    MoveFailed(String),
}

/// What the dispatch loop does after a batch: go on with the next batch, or
/// stop the request with an error text.
pub enum DispatchAction {
    Next,
    Stop(String),
}

fn copy_pairs(v: &Vec<(String, String)>) -> (r: Vec<(String, String)>)
    ensures
        pair_seqs(r@) == pair_seqs(v@),
{
    let mut r: Vec<(String, String)> = Vec::with_capacity(v.len());
    let mut k: usize = 0;
    while k < v.len()
        invariant
            k <= v@.len(),
            pair_seqs(r@) == pair_seqs(v@).take(k as int),
        decreases v.len() - k,
    {
        let a = v[k].0.clone();
        let b = v[k].1.clone();
        let ghost before = r@;
        r.push((a, b));
        assert(r@ == before.push((a, b)));
        assert(pair_seqs(r@) =~= pair_seqs(v@).take(k + 1)) by {
            assert(pair_seqs(before).len() == k);
            assert forall|j: int| 0 <= j < k + 1 implies #[trigger] pair_seqs(r@)[j] == pair_seqs(
                v@,
            ).take(k + 1)[j] by {
                if j < k {
                    assert(pair_seqs(r@)[j] == pair_seqs(before)[j]);
                }
            }
        }
        k = k + 1;
    }
    assert(pair_seqs(v@).take(v@.len() as int) =~= pair_seqs(v@));
    r
}

fn copy_batches(v: &Vec<(Language, Vec<(String, String)>)>) -> (r: Vec<(Language, Vec<(String, String)>)>)
    ensures
        batch_views(r@) == batch_views(v@),
{
    let mut r: Vec<(Language, Vec<(String, String)>)> = Vec::with_capacity(v.len());
    let mut k: usize = 0;
    while k < v.len()
        invariant
            k <= v@.len(),
            batch_views(r@) == batch_views(v@).take(k as int),
        decreases v.len() - k,
    {
        let ghost before = r@;
        let p = copy_pairs(&v[k].1);
        r.push((v[k].0, p));
        assert(batch_views(r@) =~= batch_views(v@).take(k + 1)) by {
            assert(batch_views(before).len() == k);
            assert forall|j: int| 0 <= j < k + 1 implies #[trigger] batch_views(r@)[j]
                == batch_views(v@).take(k + 1)[j] by {
                if j < k {
                    assert(batch_views(r@)[j] == batch_views(before)[j]);
                }
            }
        }
        k = k + 1;
    }
    assert(batch_views(v@).take(v@.len() as int) =~= batch_views(v@));
    r
}

fn copy_failures(v: &Vec<(Language, Vec<(String, String)>, String)>) -> (r: Vec<
    (Language, Vec<(String, String)>, String),
>)
    ensures
        failure_views(r@) == failure_views(v@),
{
    let mut r: Vec<(Language, Vec<(String, String)>, String)> = Vec::with_capacity(v.len());
    let mut k: usize = 0;
    while k < v.len()
        invariant
            k <= v@.len(),
            failure_views(r@) == failure_views(v@).take(k as int),
        decreases v.len() - k,
    {
        let ghost before = r@;
        let p = copy_pairs(&v[k].1);
        let m = v[k].2.clone();
        r.push((v[k].0, p, m));
        assert(failure_views(r@) =~= failure_views(v@).take(k + 1)) by {
            assert(failure_views(before).len() == k);
            assert forall|j: int| 0 <= j < k + 1 implies #[trigger] failure_views(r@)[j]
                == failure_views(v@).take(k + 1)[j] by {
                if j < k {
                    assert(failure_views(r@)[j] == failure_views(before)[j]);
                }
            }
        }
        k = k + 1;
    }
    assert(failure_views(v@).take(v@.len() as int) =~= failure_views(v@));
    r
}

/// One step of the dispatch loop: records what came of the batch of `lang`
/// with `files`, given the batches that succeeded and those that failed so
/// far. A batch that moved its files joins the succeeded ones; one whose
/// driver was unavailable, or whose move failed, joins the failed ones with
/// its reason. Either way the remaining batches still run.
pub fn dispatch_step(
    done: &Vec<(Language, Vec<(String, String)>)>,
    failed: &Vec<(Language, Vec<(String, String)>, String)>,
    lang: Language,
    files: &Vec<(String, String)>,
    event: BatchEvent,
) -> (r: (Vec<(Language, Vec<(String, String)>)>, Vec<(Language, Vec<(String, String)>, String)>, DispatchAction))
    ensures
        r.2 is Next,
        match event {
            BatchEvent::Moved => batch_views(r.0@) == batch_views(done@).push((lang, pair_seqs(files@)))
                && failure_views(r.1@) == failure_views(failed@),
            BatchEvent::MoveFailed(m) => batch_views(r.0@) == batch_views(done@) && failure_views(r.1@)
                == failure_views(failed@).push((lang, pair_seqs(files@), m@)),
            BatchEvent::Unavailable(m) => batch_views(r.0@) == batch_views(done@) && failure_views(
                r.1@,
            ) == failure_views(failed@).push((lang, pair_seqs(files@), m@)),
        },
{
    let mut next_done = copy_batches(done);
    let mut next_failed = copy_failures(failed);
    match event {
        BatchEvent::Moved => {
            let ghost before = next_done@;
            next_done.push((lang, copy_pairs(files)));
            assert(batch_views(next_done@) =~= batch_views(before).push((lang, pair_seqs(files@))));
        },
        BatchEvent::MoveFailed(m) => {
            let ghost before = next_failed@;
            next_failed.push((lang, copy_pairs(files), m));
            assert(failure_views(next_failed@) =~= failure_views(before).push(
                (lang, pair_seqs(files@), m@),
            ));
        },
        BatchEvent::Unavailable(m) => {
            let ghost before = next_failed@;
            next_failed.push((lang, copy_pairs(files), m));
            assert(failure_views(next_failed@) =~= failure_views(before).push(
                (lang, pair_seqs(files@), m@),
            ));
        },
    }
    (next_done, next_failed, DispatchAction::Next)
}

proof fn lemma_total_files_prefix(dv: Seq<(Language, Seq<(Seq<char>, Seq<char>)>)>, k: int)
    requires
        0 <= k <= dv.len(),
    ensures
        total_files(dv.take(k)) <= total_files(dv),
    decreases dv.len() - k,
{
    if k < dv.len() {
        lemma_total_files_prefix(dv, k + 1);
        assert(dv.take(k + 1).drop_last() =~= dv.take(k));
    } else {
        assert(dv.take(k) =~= dv);
    }
}

// ---------------------------------------------------------------------------
// Laws

/// How many moves the batches hold.
pub open spec fn batch_total(bs: Seq<(Language, Seq<(Seq<char>, Seq<char>)>)>) -> nat
    decreases bs.len(),
{
    if bs.len() == 0 {
        0
    } else {
        batch_total(bs.drop_last()) + bs.last().1.len()
    }
}

/// How many moves the batches of `langs` hold.
pub open spec fn lang_sum(
    pairs: Seq<(Seq<char>, Seq<char>)>,
    cs: Seq<Option<Language>>,
    langs: Seq<Language>,
) -> nat
    decreases langs.len(),
{
    if langs.len() == 0 {
        0
    } else {
        lang_sum(pairs, cs, langs.drop_last()) + batch_of(pairs, cs, langs.last()).len()
    }
}

proof fn lemma_batch_list_total(
    pairs: Seq<(Seq<char>, Seq<char>)>,
    cs: Seq<Option<Language>>,
    langs: Seq<Language>,
)
    ensures
        batch_total(batch_list(pairs, cs, langs)) == lang_sum(pairs, cs, langs),
    decreases langs.len(),
{
    if langs.len() > 0 {
        lemma_batch_list_total(pairs, cs, langs.drop_last());
        let rest = batch_list(pairs, cs, langs.drop_last());
        let b = batch_of(pairs, cs, langs.last());
        if b.len() > 0 {
            assert(rest.push((langs.last(), b)).drop_last() =~= rest);
        }
    }
}

proof fn lemma_six(pairs: Seq<(Seq<char>, Seq<char>)>, cs: Seq<Option<Language>>)
    ensures
        lang_sum(pairs, cs, all_languages()) == batch_of(pairs, cs, Language::Dart).len()
            + batch_of(pairs, cs, Language::Go).len() + batch_of(pairs, cs, Language::Markdown).len()
            + batch_of(pairs, cs, Language::Python).len() + batch_of(pairs, cs, Language::Rust).len()
            + batch_of(pairs, cs, Language::TypeScript).len(),
{
    let a6 = all_languages();
    let a5 = seq![Language::Dart, Language::Go, Language::Markdown, Language::Python, Language::Rust];
    let a4 = seq![Language::Dart, Language::Go, Language::Markdown, Language::Python];
    let a3 = seq![Language::Dart, Language::Go, Language::Markdown];
    let a2 = seq![Language::Dart, Language::Go];
    let a1 = seq![Language::Dart];
    let a0 = Seq::<Language>::empty();
    assert(a6.drop_last() =~= a5);
    assert(a5.drop_last() =~= a4);
    assert(a4.drop_last() =~= a3);
    assert(a3.drop_last() =~= a2);
    assert(a2.drop_last() =~= a1);
    assert(a1.drop_last() =~= a0);
    assert(lang_sum(pairs, cs, a0) == 0);
    assert(lang_sum(pairs, cs, a1) == batch_of(pairs, cs, Language::Dart).len());
    assert(lang_sum(pairs, cs, a2) == lang_sum(pairs, cs, a1) + batch_of(pairs, cs, Language::Go).len());
    assert(lang_sum(pairs, cs, a3) == lang_sum(pairs, cs, a2) + batch_of(
        pairs,
        cs,
        Language::Markdown,
    ).len());
    assert(lang_sum(pairs, cs, a4) == lang_sum(pairs, cs, a3) + batch_of(
        pairs,
        cs,
        Language::Python,
    ).len());
    assert(lang_sum(pairs, cs, a5) == lang_sum(pairs, cs, a4) + batch_of(pairs, cs, Language::Rust).len());
    assert(lang_sum(pairs, cs, a6) == lang_sum(pairs, cs, a5) + batch_of(
        pairs,
        cs,
        Language::TypeScript,
    ).len());
}

pub open spec fn one_if(b: bool) -> int {
    if b {
        1
    } else {
        0
    }
}

proof fn lemma_partition(pairs: Seq<(Seq<char>, Seq<char>)>, cs: Seq<Option<Language>>)
    requires
        pairs.len() == cs.len(),
    ensures
        batch_of(pairs, cs, Language::Dart).len() + batch_of(pairs, cs, Language::Go).len()
            + batch_of(pairs, cs, Language::Markdown).len() + batch_of(pairs, cs, Language::Python).len()
            + batch_of(pairs, cs, Language::Rust).len() + batch_of(pairs, cs, Language::TypeScript).len()
            + skipped_of(pairs, cs).len() == pairs.len(),
    decreases pairs.len(),
{
    if pairs.len() > 0 {
        let p = pairs.drop_last();
        let c = cs.drop_last();
        lemma_partition(p, c);
        let x = cs.last();
        assert(batch_of(pairs, cs, Language::Dart).len() == batch_of(p, c, Language::Dart).len()
            + one_if(x == Some(Language::Dart)));
        assert(batch_of(pairs, cs, Language::Go).len() == batch_of(p, c, Language::Go).len()
            + one_if(x == Some(Language::Go)));
        assert(batch_of(pairs, cs, Language::Markdown).len() == batch_of(p, c, Language::Markdown).len()
            + one_if(x == Some(Language::Markdown)));
        assert(batch_of(pairs, cs, Language::Python).len() == batch_of(p, c, Language::Python).len()
            + one_if(x == Some(Language::Python)));
        assert(batch_of(pairs, cs, Language::Rust).len() == batch_of(p, c, Language::Rust).len()
            + one_if(x == Some(Language::Rust)));
        assert(batch_of(pairs, cs, Language::TypeScript).len() == batch_of(
            p,
            c,
            Language::TypeScript,
        ).len() + one_if(x == Some(Language::TypeScript)));
        assert(skipped_of(pairs, cs).len() == skipped_of(p, c).len() + one_if(x is None));
        match x {
            None => {},
            Some(l) => match l {
                Language::Dart => {},
                Language::Go => {},
                Language::Markdown => {},
                Language::Python => {},
                Language::Rust => {},
                Language::TypeScript => {},
            },
        }
    }
}

proof fn lemma_classes_at(
    sources: Seq<Seq<char>>,
    is_dir: Seq<bool>,
    dir_is_typescript: Seq<bool>,
    n: int,
    k: int,
)
    requires
        0 <= k < n,
        classes(sources, is_dir, dir_is_typescript, n) is Ok,
    ensures
        entry_class(sources[k], is_dir[k], dir_is_typescript[k]) is Ok,
        classes(sources, is_dir, dir_is_typescript, n)->Ok_0[k] == entry_class(
            sources[k],
            is_dir[k],
            dir_is_typescript[k],
        )->Ok_0,
    decreases n,
{
    lemma_classes_len(sources, is_dir, dir_is_typescript, n - 1);
    if k < n - 1 {
        lemma_classes_at(sources, is_dir, dir_is_typescript, n - 1, k);
    }
}

proof fn lemma_batch_of_has(
    pairs: Seq<(Seq<char>, Seq<char>)>,
    cs: Seq<Option<Language>>,
    l: Language,
    k: int,
)
    requires
        pairs.len() == cs.len(),
        0 <= k < pairs.len(),
        cs[k] == Some(l),
    ensures
        batch_of(pairs, cs, l).contains(pairs[k]),
    decreases pairs.len(),
{
    let rest = batch_of(pairs.drop_last(), cs.drop_last(), l);
    if k == pairs.len() - 1 {
        assert(batch_of(pairs, cs, l) == rest.push(pairs.last()));
        assert(batch_of(pairs, cs, l)[rest.len() as int] == pairs[k]);
    } else {
        lemma_batch_of_has(pairs.drop_last(), cs.drop_last(), l, k);
        let j = choose|j: int| 0 <= j < rest.len() && rest[j] == pairs.drop_last()[k];
        assert(batch_of(pairs, cs, l)[j] == rest[j]);
    }
}

proof fn lemma_skipped_of_has(pairs: Seq<(Seq<char>, Seq<char>)>, cs: Seq<Option<Language>>, k: int)
    requires
        pairs.len() == cs.len(),
        0 <= k < pairs.len(),
        cs[k] is None,
    ensures
        skipped_of(pairs, cs).contains(pairs[k].0),
    decreases pairs.len(),
{
    let rest = skipped_of(pairs.drop_last(), cs.drop_last());
    if k == pairs.len() - 1 {
        assert(skipped_of(pairs, cs)[rest.len() as int] == pairs[k].0);
    } else {
        lemma_skipped_of_has(pairs.drop_last(), cs.drop_last(), k);
        let j = choose|j: int| 0 <= j < rest.len() && rest[j] == pairs.drop_last()[k].0;
        assert(skipped_of(pairs, cs)[j] == rest[j]);
    }
}

proof fn lemma_batch_list_has(
    pairs: Seq<(Seq<char>, Seq<char>)>,
    cs: Seq<Option<Language>>,
    langs: Seq<Language>,
    m: int,
)
    requires
        0 <= m < langs.len(),
        batch_of(pairs, cs, langs[m]).len() > 0,
    ensures
        batch_list(pairs, cs, langs).contains((langs[m], batch_of(pairs, cs, langs[m]))),
    decreases langs.len(),
{
    let rest = batch_list(pairs, cs, langs.drop_last());
    let b = batch_of(pairs, cs, langs.last());
    if m == langs.len() - 1 {
        assert(batch_list(pairs, cs, langs)[rest.len() as int] == (langs.last(), b));
    } else {
        lemma_batch_list_has(pairs, cs, langs.drop_last(), m);
        assert(langs.drop_last()[m] == langs[m]);
        let x = (langs[m], batch_of(pairs, cs, langs[m]));
        let j = choose|j: int| 0 <= j < rest.len() && rest[j] == x;
        assert(batch_list(pairs, cs, langs)[j] == rest[j]);
    }
}

/// Each requested move goes where its source says: a file with a language's
/// extension into the batch of that language, a directory into the
/// TypeScript batch, any other file among the skipped sources.
pub proof fn lemma_move_in_its_batch(
    sources: Seq<Seq<char>>,
    targets: Seq<Seq<char>>,
    is_dir: Seq<bool>,
    dir_is_typescript: Seq<bool>,
    k: int,
)
    requires
        batches_outcome(sources, targets, is_dir, dir_is_typescript) is Ok,
        0 <= k < request_pairs(sources, targets).len(),
    ensures
        ({
            let (batches, skipped) = batches_outcome(sources, targets, is_dir, dir_is_typescript)->Ok_0;
            let pair = (sources[k], targets[k]);
            &&& is_dir[k] ==> exists|b: int|
                0 <= b < batches.len() && (#[trigger] batches[b]).0 == Language::TypeScript
                    && batches[b].1.contains(pair)
            &&& !is_dir[k] ==> match language_of_extension(path_extension_view(sources[k])) {
                Some(l) => exists|b: int|
                    0 <= b < batches.len() && (#[trigger] batches[b]).0 == l && batches[b].1.contains(pair),
                None => skipped.contains(sources[k]),
            }
        }),
{
    let pairs = request_pairs(sources, targets);
    let n = pairs.len() as int;
    lemma_classes_len(sources, is_dir, dir_is_typescript, n);
    lemma_classes_at(sources, is_dir, dir_is_typescript, n, k);
    let cs = classes(sources, is_dir, dir_is_typescript, n)->Ok_0;
    let (batches, skipped) = batches_outcome(sources, targets, is_dir, dir_is_typescript)->Ok_0;
    assert(pairs[k] == (sources[k], targets[k]));
    match cs[k] {
        None => {
            lemma_skipped_of_has(pairs, cs, k);
        },
        Some(l) => {
            lemma_batch_of_has(pairs, cs, l, k);
            let m: int = match l {
                Language::Dart => 0,
                Language::Go => 1,
                Language::Markdown => 2,
                Language::Python => 3,
                Language::Rust => 4,
                Language::TypeScript => 5,
            };
            assert(all_languages()[m] == l);
            lemma_batch_list_has(pairs, cs, all_languages(), m);
            let x = (l, batch_of(pairs, cs, l));
            let b = choose|b: int| 0 <= b < batches.len() && batches[b] == x;
            assert(batches[b].0 == l && batches[b].1.contains(pairs[k]));
        },
    }
}

/// The position of a language in the order of the names.
pub open spec fn lang_rank(l: Language) -> int {
    match l {
        Language::Dart => 0,
        Language::Go => 1,
        Language::Markdown => 2,
        Language::Python => 3,
        Language::Rust => 4,
        Language::TypeScript => 5,
    }
}

proof fn lemma_batch_list_shape(
    pairs: Seq<(Seq<char>, Seq<char>)>,
    cs: Seq<Option<Language>>,
    langs: Seq<Language>,
)
    requires
        forall|a: int, b: int| 0 <= a < b < langs.len() ==> lang_rank(#[trigger] langs[a]) < lang_rank(
            #[trigger] langs[b],
        ),
    ensures
        forall|i: int|
            0 <= i < batch_list(pairs, cs, langs).len() ==> exists|m: int|
                0 <= m < langs.len() && langs[m] == (#[trigger] batch_list(pairs, cs, langs)[i]).0,
        forall|i: int|
            0 <= i < batch_list(pairs, cs, langs).len() ==> (#[trigger] batch_list(pairs, cs, langs)[i]).1
                == batch_of(pairs, cs, batch_list(pairs, cs, langs)[i].0) && batch_list(
                pairs,
                cs,
                langs,
            )[i].1.len() > 0,
        forall|a: int, b: int|
            0 <= a < b < batch_list(pairs, cs, langs).len() ==> lang_rank(
                (#[trigger] batch_list(pairs, cs, langs)[a]).0,
            ) < lang_rank((#[trigger] batch_list(pairs, cs, langs)[b]).0),
    decreases langs.len(),
{
    if langs.len() > 0 {
        let front = langs.drop_last();
        assert forall|a: int, b: int| 0 <= a < b < front.len() implies lang_rank(#[trigger] front[a])
            < lang_rank(#[trigger] front[b]) by {
            assert(front[a] == langs[a] && front[b] == langs[b]);
        }
        lemma_batch_list_shape(pairs, cs, front);
        let rest = batch_list(pairs, cs, front);
        let all = batch_list(pairs, cs, langs);
        let last = langs.last();
        assert forall|i: int| 0 <= i < rest.len() implies lang_rank(#[trigger] rest[i].0) < lang_rank(
            last,
        ) by {
            let m = choose|m: int| 0 <= m < front.len() && front[m] == rest[i].0;
            assert(langs[m] == front[m]);
            assert(lang_rank(langs[m]) < lang_rank(langs[langs.len() - 1]));
        }
        assert forall|i: int| 0 <= i < all.len() implies exists|m: int|
            0 <= m < langs.len() && langs[m] == (#[trigger] all[i]).0 by {
            if i < rest.len() {
                assert(all[i] == rest[i]);
                let m = choose|m: int| 0 <= m < front.len() && front[m] == rest[i].0;
                assert(langs[m] == front[m]);
            } else {
                assert(langs[langs.len() - 1] == all[i].0);
            }
        }
        assert forall|a: int, b: int| 0 <= a < b < all.len() implies lang_rank((#[trigger] all[a]).0)
            < lang_rank((#[trigger] all[b]).0) by {
            assert(all[a] == rest[a]);
            if b < rest.len() {
                assert(all[b] == rest[b]);
            }
        }
        assert forall|i: int| 0 <= i < all.len() implies (#[trigger] all[i]).1 == batch_of(
            pairs,
            cs,
            all[i].0,
        ) && all[i].1.len() > 0 by {
            if i < rest.len() {
                assert(all[i] == rest[i]);
            }
        }
    }
}

/// The positions of the entries of class `Some(l)`, in increasing order.
pub open spec fn class_indices(cs: Seq<Option<Language>>, l: Language) -> Seq<int>
    decreases cs.len(),
{
    if cs.len() == 0 {
        Seq::empty()
    } else {
        let rest = class_indices(cs.drop_last(), l);
        if cs.last() == Some(l) {
            rest.push(cs.len() - 1)
        } else {
            rest
        }
    }
}

proof fn lemma_class_indices(pairs: Seq<(Seq<char>, Seq<char>)>, cs: Seq<Option<Language>>, l: Language)
    requires
        pairs.len() == cs.len(),
    ensures
        batch_of(pairs, cs, l) == class_indices(cs, l).map_values(|k: int| pairs[k]),
        forall|a: int, b: int|
            0 <= a < b < class_indices(cs, l).len() ==> #[trigger] class_indices(cs, l)[a]
                < #[trigger] class_indices(cs, l)[b],
        forall|a: int|
            0 <= a < class_indices(cs, l).len() ==> 0 <= #[trigger] class_indices(cs, l)[a] < cs.len()
                && cs[class_indices(cs, l)[a]] == Some(l),
        forall|k: int| 0 <= k < cs.len() && cs[k] == Some(l) ==> class_indices(cs, l).contains(k),
    decreases cs.len(),
{
    if cs.len() > 0 {
        let pd = pairs.drop_last();
        let cd = cs.drop_last();
        lemma_class_indices(pd, cd, l);
        let rest = class_indices(cd, l);
        let n = cs.len() - 1;
        assert forall|a: int| 0 <= a < rest.len() implies rest[a] < n && #[trigger] cs[rest[a]] == cd[rest[a]] by {}
        if cs.last() == Some(l) {
            let ci = rest.push(n);
            assert(batch_of(pairs, cs, l) == batch_of(pd, cd, l).push(pairs.last()));
            assert(ci.map_values(|k: int| pairs[k]) =~= rest.map_values(|k: int| pd[k]).push(pairs.last()));
            assert forall|k: int| 0 <= k < cs.len() && cs[k] == Some(l) implies ci.contains(k) by {
                if k < n {
                    assert(cd[k] == cs[k]);
                    let a = choose|a: int| 0 <= a < rest.len() && rest[a] == k;
                    assert(ci[a] == k);
                } else {
                    assert(ci[rest.len() as int] == k);
                }
            }
            assert forall|a: int, b: int| 0 <= a < b < ci.len() implies #[trigger] ci[a] < #[trigger] ci[b] by {
                if b < rest.len() {
                    assert(ci[a] == rest[a] && ci[b] == rest[b]);
                } else {
                    assert(ci[a] == rest[a]);
                }
            }
            assert forall|a: int| 0 <= a < ci.len() implies 0 <= #[trigger] ci[a] < cs.len() && cs[ci[a]] == Some(l) by {
                if a < rest.len() {
                    assert(ci[a] == rest[a]);
                }
            }
        } else {
            assert(rest.map_values(|k: int| pairs[k]) =~= rest.map_values(|k: int| pd[k]));
            assert forall|k: int| 0 <= k < cs.len() && cs[k] == Some(l) implies rest.contains(k) by {
                assert(k < n);
                assert(cd[k] == cs[k]);
            }
        }
    }
}

/// Each language's batch holds exactly the moves of that language, in the
/// order of the request: the pairs at the positions whose source is of the
/// language, in increasing order. A language has a batch exactly when some
/// move is of it, and then exactly one.
pub proof fn lemma_each_batch_exactly(
    sources: Seq<Seq<char>>,
    targets: Seq<Seq<char>>,
    is_dir: Seq<bool>,
    dir_is_typescript: Seq<bool>,
    l: Language,
)
    requires
        batches_outcome(sources, targets, is_dir, dir_is_typescript) is Ok,
    ensures
        ({
            let pairs = request_pairs(sources, targets);
            let cs = classes(sources, is_dir, dir_is_typescript, pairs.len() as int)->Ok_0;
            let batches = batches_outcome(sources, targets, is_dir, dir_is_typescript)->Ok_0.0;
            let idx = class_indices(cs, l);
            &&& forall|a: int|
                0 <= a < idx.len() ==> 0 <= #[trigger] idx[a] < pairs.len() && entry_class(
                    sources[idx[a]],
                    is_dir[idx[a]],
                    dir_is_typescript[idx[a]],
                ) == Ok::<Option<Language>, LogicErrorView>(Some(l))
            &&& forall|k: int|
                0 <= k < pairs.len() && entry_class(sources[k], is_dir[k], dir_is_typescript[k])
                    == Ok::<Option<Language>, LogicErrorView>(Some(l)) ==> idx.contains(k)
            &&& forall|a: int, b: int| 0 <= a < b < idx.len() ==> #[trigger] idx[a] < #[trigger] idx[b]
            &&& forall|b: int|
                0 <= b < batches.len() && (#[trigger] batches[b]).0 == l ==> batches[b].1
                    == idx.map_values(|k: int| pairs[k])
            &&& (exists|b: int| 0 <= b < batches.len() && (#[trigger] batches[b]).0 == l) <==> idx.len() > 0
            &&& forall|a: int, b: int|
                0 <= a < b < batches.len() ==> (#[trigger] batches[a]).0 != (#[trigger] batches[b]).0
        }),
{
    let pairs = request_pairs(sources, targets);
    let n = pairs.len() as int;
    lemma_classes_len(sources, is_dir, dir_is_typescript, n);
    let cs = classes(sources, is_dir, dir_is_typescript, n)->Ok_0;
    let batches = batches_outcome(sources, targets, is_dir, dir_is_typescript)->Ok_0.0;
    lemma_class_indices(pairs, cs, l);
    lemma_batches_in_name_order(sources, targets, is_dir, dir_is_typescript);
    let idx = class_indices(cs, l);
    assert forall|k: int| 0 <= k < n implies #[trigger] cs[k] == entry_class(
        sources[k],
        is_dir[k],
        dir_is_typescript[k],
    )->Ok_0 && entry_class(sources[k], is_dir[k], dir_is_typescript[k]) is Ok by {
        lemma_classes_at(sources, is_dir, dir_is_typescript, n, k);
    }
    assert forall|k: int|
        0 <= k < n && entry_class(sources[k], is_dir[k], dir_is_typescript[k]) == Ok::<
            Option<Language>,
            LogicErrorView,
        >(Some(l)) implies idx.contains(k) by {
        assert(cs[k] == Some(l));
    }
    assert forall|a: int, b: int| 0 <= a < b < batches.len() implies (#[trigger] batches[a]).0
        != (#[trigger] batches[b]).0 by {
        assert(lang_rank(batches[a].0) < lang_rank(batches[b].0));
    }
    let langs = all_languages();
    let m: int = lang_rank(l);
    assert(langs[m] == l);
    if idx.len() > 0 {
        assert(batch_of(pairs, cs, l).len() > 0);
        lemma_batch_list_has(pairs, cs, langs, m);
        let b = choose|b: int| 0 <= b < batches.len() && batches[b] == (langs[m], batch_of(pairs, cs, langs[m]));
        assert(batches[b].0 == l);
    }
    assert forall|b: int| 0 <= b < batches.len() && (#[trigger] batches[b]).0 == l implies batches[b].1
        == idx.map_values(|k: int| pairs[k]) && idx.len() > 0 by {
        assert(batches[b].1 == batch_of(pairs, cs, l));
    }
}

/// The batches come one per language that has moves, in the order of the
/// language names, and each holds exactly the moves of its language, in the
/// order of the request.
pub proof fn lemma_batches_in_name_order(
    sources: Seq<Seq<char>>,
    targets: Seq<Seq<char>>,
    is_dir: Seq<bool>,
    dir_is_typescript: Seq<bool>,
)
    requires
        batches_outcome(sources, targets, is_dir, dir_is_typescript) is Ok,
    ensures
        ({
            let pairs = request_pairs(sources, targets);
            let cs = classes(sources, is_dir, dir_is_typescript, pairs.len() as int)->Ok_0;
            let batches = batches_outcome(sources, targets, is_dir, dir_is_typescript)->Ok_0.0;
            &&& forall|a: int, b: int|
                0 <= a < b < batches.len() ==> lang_rank((#[trigger] batches[a]).0) < lang_rank(
                    (#[trigger] batches[b]).0,
                )
            &&& forall|i: int|
                0 <= i < batches.len() ==> (#[trigger] batches[i]).1 == batch_of(pairs, cs, batches[i].0)
                    && batches[i].1.len() > 0
        }),
{
    let pairs = request_pairs(sources, targets);
    let cs = classes(sources, is_dir, dir_is_typescript, pairs.len() as int)->Ok_0;
    let langs = all_languages();
    assert forall|a: int, b: int| 0 <= a < b < langs.len() implies lang_rank(#[trigger] langs[a])
        < lang_rank(#[trigger] langs[b]) by {}
    lemma_batch_list_shape(pairs, cs, langs);
}

/// Every requested move ends up in exactly one batch or among the skipped
/// sources: the batches and the skipped sources together hold as many
/// entries as there are source and target pairs.
pub proof fn lemma_batches_cover_request(
    sources: Seq<Seq<char>>,
    targets: Seq<Seq<char>>,
    is_dir: Seq<bool>,
    dir_is_typescript: Seq<bool>,
)
    requires
        batches_outcome(sources, targets, is_dir, dir_is_typescript) is Ok,
    ensures
        batch_total(batches_outcome(sources, targets, is_dir, dir_is_typescript)->Ok_0.0)
            + batches_outcome(sources, targets, is_dir, dir_is_typescript)->Ok_0.1.len()
            == request_pairs(sources, targets).len(),
{
    let pairs = request_pairs(sources, targets);
    lemma_classes_len(sources, is_dir, dir_is_typescript, pairs.len() as int);
    let cs = classes(sources, is_dir, dir_is_typescript, pairs.len() as int)->Ok_0;
    lemma_batch_list_total(pairs, cs, all_languages());
    lemma_six(pairs, cs);
    lemma_partition(pairs, cs);
}


// ---------------------------------------------------------------------------
// What the report names

/// Whether `part` stands somewhere in `whole`.
pub open spec fn appears_in(part: Seq<char>, whole: Seq<char>) -> bool {
    exists|i: int| 0 <= i && i + part.len() <= whole.len() && #[trigger] whole.subrange(i, i + part.len()) == part
}

/// The line of the report that names a move.
pub open spec fn move_line(file: (Seq<char>, Seq<char>), root: Option<Seq<char>>) -> Seq<char> {
    rel_view(file.0, root) + " -> "@ + rel_view(file.1, root) + "  \n"@
}

proof fn lemma_appears_at(part: Seq<char>, a: Seq<char>, b: Seq<char>)
    ensures
        appears_in(part, a + part + b),
{
    let w = a + part + b;
    assert(w.subrange(a.len() as int, (a.len() + part.len()) as int) =~= part);
}

proof fn lemma_appears_left(part: Seq<char>, a: Seq<char>, b: Seq<char>)
    requires
        appears_in(part, a),
    ensures
        appears_in(part, a + b),
{
    let i = choose|i: int| 0 <= i && i + part.len() <= a.len() && #[trigger] a.subrange(i, i + part.len()) == part;
    assert((a + b).subrange(i, i + part.len()) =~= a.subrange(i, i + part.len()));
}

proof fn lemma_appears_right(part: Seq<char>, a: Seq<char>, b: Seq<char>)
    requires
        appears_in(part, b),
    ensures
        appears_in(part, a + b),
{
    let i = choose|i: int| 0 <= i && i + part.len() <= b.len() && #[trigger] b.subrange(i, i + part.len()) == part;
    assert((a + b).subrange(a.len() + i, a.len() + i + part.len()) =~= b.subrange(i, i + part.len()));
}

proof fn lemma_appears_trans(p: Seq<char>, q: Seq<char>, r: Seq<char>)
    requires
        appears_in(p, q),
        appears_in(q, r),
    ensures
        appears_in(p, r),
{
    let i = choose|i: int| 0 <= i && i + p.len() <= q.len() && #[trigger] q.subrange(i, i + p.len()) == p;
    let j = choose|j: int| 0 <= j && j + q.len() <= r.len() && #[trigger] r.subrange(j, j + q.len()) == q;
    assert(r.subrange(j + i, j + i + p.len()) =~= q.subrange(i, i + p.len()));
}

proof fn lemma_move_lines_name(files: Seq<(Seq<char>, Seq<char>)>, root: Option<Seq<char>>, i: int)
    requires
        0 <= i < files.len(),
    ensures
        appears_in(move_line(files[i], root), move_lines(files, root)),
    decreases files.len(),
{
    let rest = move_lines(files.drop_last(), root);
    let last = move_line(files.last(), root);
    assert(move_lines(files, root) =~= rest + last);
    if i == files.len() - 1 {
        lemma_appears_at(last, rest, Seq::empty());
        assert(rest + last + Seq::<char>::empty() =~= rest + last);
    } else {
        lemma_move_lines_name(files.drop_last(), root, i);
        assert(files.drop_last()[i] == files[i]);
        lemma_appears_left(move_line(files[i], root), rest, last);
    }
}

proof fn lemma_success_sections_name(
    done: Seq<(Language, Seq<(Seq<char>, Seq<char>)>)>,
    root: Option<Seq<char>>,
    collaterals: Seq<Seq<char>>,
    k: int,
)
    requires
        0 <= k < done.len(),
    ensures
        appears_in(move_lines(done[k].1, root), success_sections(done, root, collaterals)),
    decreases done.len(),
{
    let (l, files) = done.last();
    let rest = success_sections(done.drop_last(), root, collaterals);
    let head = "\n// "@ + capitalized(lang_name(l)) + " results:\n\n"@;
    let tail = if l == Language::Go {
        go_note(collaterals, root)
    } else {
        Seq::empty()
    };
    assert(success_sections(done, root, collaterals) =~= (rest + head) + move_lines(files, root) + tail);
    if k == done.len() - 1 {
        lemma_appears_at(move_lines(files, root), rest + head, tail);
    } else {
        lemma_success_sections_name(done.drop_last(), root, collaterals, k);
        assert(done.drop_last()[k] == done[k]);
        lemma_appears_left(move_lines(done[k].1, root), rest, head + move_lines(files, root) + tail);
        assert(rest + (head + move_lines(files, root) + tail) =~= (rest + head) + move_lines(files, root)
            + tail);
    }
}

proof fn lemma_failure_sections_name(
    failed: Seq<(Language, Seq<(Seq<char>, Seq<char>)>, Seq<char>)>,
    root: Option<Seq<char>>,
    k: int,
)
    requires
        0 <= k < failed.len(),
    ensures
        appears_in(failed[k].2, failure_sections(failed, root)),
        appears_in(move_lines(failed[k].1, root), failure_sections(failed, root)),
    decreases failed.len(),
{
    let (l, files, err) = failed.last();
    let rest = failure_sections(failed.drop_last(), root);
    let head = "\n// "@ + capitalized(lang_name(l)) + " — "@;
    let mid = "\n\n"@;
    assert(failure_sections(failed, root) =~= (rest + head) + err + (mid + move_lines(files, root)));
    assert(failure_sections(failed, root) =~= (rest + head + err + mid) + move_lines(files, root)
        + Seq::<char>::empty());
    if k == failed.len() - 1 {
        lemma_appears_at(err, rest + head, mid + move_lines(files, root));
        lemma_appears_at(move_lines(files, root), rest + head + err + mid, Seq::empty());
    } else {
        lemma_failure_sections_name(failed.drop_last(), root, k);
        assert(failed.drop_last()[k] == failed[k]);
        let more = head + err + mid + move_lines(files, root);
        assert(failure_sections(failed, root) =~= rest + more);
        lemma_appears_left(failed[k].2, rest, more);
        lemma_appears_left(move_lines(failed[k].1, root), rest, more);
    }
}

proof fn lemma_failure_summary_names(
    failed: Seq<(Language, Seq<(Seq<char>, Seq<char>)>, Seq<char>)>,
    root: Option<Seq<char>>,
    k: int,
)
    requires
        0 <= k < failed.len(),
    ensures
        appears_in(failed[k].2, failure_summary(failed, root)),
    decreases failed.len(),
{
    let (l, files, err) = failed.last();
    let head = capitalized(lang_name(l)) + ": "@;
    let tail = "\n"@ + failed_file_list(files, root);
    let para = capitalized(lang_name(l)) + ": "@ + err + "\n"@ + failed_file_list(files, root);
    assert(para =~= head + err + tail);
    if failed.len() == 1 {
        assert(failed[k] == failed.last());
        lemma_appears_at(err, head, tail);
    } else {
        let rest = failure_summary(failed.drop_last(), root);
        assert(failure_summary(failed, root) =~= rest + ("\n\n"@ + para));
        if k == failed.len() - 1 {
            assert(failed[k] == failed.last());
            lemma_appears_at(err, rest + "\n\n"@ + head, tail);
            assert(rest + "\n\n"@ + head + err + tail =~= rest + ("\n\n"@ + para));
        } else {
            lemma_failure_summary_names(failed.drop_last(), root, k);
            assert(failed.drop_last()[k] == failed[k]);
            lemma_appears_left(failed[k].2, rest, "\n\n"@ + para);
        }
    }
}

/// A refactor in which some batch succeeded answers with the report, which
/// names every move of every batch that succeeded, one line each
/// (`source -> target`, relative to the project root); the answer is an
/// error exactly when some batch failed.
pub proof fn lemma_report_names_every_move(
    done: Seq<(Language, Seq<(Seq<char>, Seq<char>)>)>,
    failed: Seq<(Language, Seq<(Seq<char>, Seq<char>)>, Seq<char>)>,
    skipped: Seq<Seq<char>>,
    root: Option<Seq<char>>,
    collaterals: Seq<Seq<char>>,
    k: int,
    i: int,
)
    requires
        0 <= k < done.len(),
        0 <= i < done[k].1.len(),
    ensures
        report_outcome(done, failed, skipped, root, collaterals) is Ok <==> failed.len() == 0,
        outcome_text(report_outcome(done, failed, skipped, root, collaterals)) == report_text(
            done,
            failed,
            skipped,
            root,
            collaterals,
        ),
        appears_in(
            move_line(done[k].1[i], root),
            outcome_text(report_outcome(done, failed, skipped, root, collaterals)),
        ),
{
    let n = total_files(done);
    let header = "// Alhamdulillah "@ + decimal(n) + " file"@ + (if n == 1 {
        " was"@
    } else {
        " were"@
    }) + " successfully refactored:\n"@;
    let fail_part = if failed.len() > 0 {
        "\n// Failed:\n"@ + failure_sections(failed, root)
    } else {
        Seq::empty()
    };
    let skip_part = if skipped.len() > 0 {
        "\n// Skipped (unsupported extension):  \n\n"@ + path_lines(skipped, root)
    } else {
        Seq::empty()
    };
    let sections = success_sections(done, root, collaterals);
    assert(report_text(done, failed, skipped, root, collaterals) =~= header + sections + (fail_part
        + skip_part));
    lemma_move_lines_name(done[k].1, root, i);
    lemma_success_sections_name(done, root, collaterals, k);
    lemma_appears_trans(move_line(done[k].1[i], root), move_lines(done[k].1, root), sections);
    lemma_appears_right(move_line(done[k].1[i], root), header, sections);
    lemma_appears_left(move_line(done[k].1[i], root), header + sections, fail_part + skip_part);
}

/// A refactor in which some batch failed answers with an error, which
/// carries the error text of every batch that failed; where some batch
/// succeeded or some source was skipped, that error is the whole report and
/// also names the moves of each failed batch.
pub proof fn lemma_report_names_every_failure(
    done: Seq<(Language, Seq<(Seq<char>, Seq<char>)>)>,
    failed: Seq<(Language, Seq<(Seq<char>, Seq<char>)>, Seq<char>)>,
    skipped: Seq<Seq<char>>,
    root: Option<Seq<char>>,
    collaterals: Seq<Seq<char>>,
    k: int,
)
    requires
        0 <= k < failed.len(),
    ensures
        report_outcome(done, failed, skipped, root, collaterals) is Err,
        appears_in(failed[k].2, outcome_text(report_outcome(done, failed, skipped, root, collaterals))),
        done.len() > 0 || skipped.len() > 0 ==> outcome_text(
            report_outcome(done, failed, skipped, root, collaterals),
        ) == report_text(done, failed, skipped, root, collaterals) && appears_in(
            move_lines(failed[k].1, root),
            outcome_text(report_outcome(done, failed, skipped, root, collaterals)),
        ),
{
    if done.len() == 0 && skipped.len() == 0 {
        lemma_failure_summary_names(failed, root, k);
    } else {
        let n = total_files(done);
        let header = "// Alhamdulillah "@ + decimal(n) + " file"@ + (if n == 1 {
            " was"@
        } else {
            " were"@
        }) + " successfully refactored:\n"@ + success_sections(done, root, collaterals);
        let fs = failure_sections(failed, root);
        let skip_part = if skipped.len() > 0 {
            "\n// Skipped (unsupported extension):  \n\n"@ + path_lines(skipped, root)
        } else {
            Seq::empty()
        };
        assert(report_text(done, failed, skipped, root, collaterals) =~= (header + "\n// Failed:\n"@)
            + fs + skip_part);
        lemma_failure_sections_name(failed, root, k);
        lemma_appears_right(failed[k].2, header + "\n// Failed:\n"@, fs);
        lemma_appears_left(failed[k].2, (header + "\n// Failed:\n"@) + fs, skip_part);
        lemma_appears_right(move_lines(failed[k].1, root), header + "\n// Failed:\n"@, fs);
        lemma_appears_left(move_lines(failed[k].1, root), (header + "\n// Failed:\n"@) + fs, skip_part);
    }
}

} // verus!
