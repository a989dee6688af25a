//! Compiled regular expressions and glob patterns.
//!
//! Both are compiled by their outside crates (`regex`, `glob`). A compiled
//! value keeps the source text it was compiled from in a private field; the
//! only way to obtain one is the constructor in this module, so the source
//! recorded in a value is always the text that its engine was built from.
use vstd::prelude::*;

use crate::text::strings_view;

verus! {

#[verifier::external_type_specification]
#[verifier::external_body]
pub struct ExRegex(regex::Regex);

#[verifier::external_type_specification]
#[verifier::external_body]
pub struct ExRegexError(regex::Error);

#[verifier::external_type_specification]
#[verifier::external_body]
pub struct ExGlobPattern(glob::Pattern);

#[verifier::external_type_specification]
#[verifier::external_body]
pub struct ExGlobPatternError(glob::PatternError);

/// Whether `regex::Regex::new` accepts `pattern` (valid syntax, within the
/// crate's default size limit).
pub uninterp spec fn regex_compiles(pattern: Seq<char>) -> bool;

/// One match of a regex as a plain value: the byte offset in the searched
/// text at which the match starts, the whole matched text, and for each
/// requested group name the text of that group (`None` where it did not
/// take part).
pub type RowModel = (usize, Seq<char>, Seq<Option<Seq<char>>>);

/// What `regex::Regex::captures_iter` yields for the regex compiled from
/// `pattern` over `text`: one row per successive non-overlapping match,
/// holding the start offset of the match (`Match::start` of group 0), the
/// whole match and, for each name in `names`, the text of the capture group
/// of that name.
pub uninterp spec fn regex_captures(
    pattern: Seq<char>,
    text: Seq<char>,
    names: Seq<Seq<char>>,
) -> Seq<RowModel>;

/// Whether `glob::Pattern::new` accepts `pattern`.
pub uninterp spec fn glob_compiles(pattern: Seq<char>) -> bool;

/// Whether the glob compiled from `pattern` matches `path`
/// (`glob::Pattern::matches`, default match options).
pub uninterp spec fn glob_matches(pattern: Seq<char>, path: Seq<char>) -> bool;

/// The view of an optional string.
pub open spec fn opt_view(o: Option<String>) -> Option<Seq<char>> {
    match o {
        Some(s) => Some(s@),
        None => None,
    }
}

/// One match of a regex: where it starts (a byte offset in the searched
/// text), the whole matched text and the named groups.
pub struct CaptureRow {
    pub start: usize,
    pub whole: String,
    pub groups: Vec<Option<String>>,
}

impl CaptureRow {
    pub open spec fn view(&self) -> RowModel {
        (self.start, self.whole@, self.groups@.map_values(|o: Option<String>| opt_view(o)))
    }
}

/// The views of a sequence of capture rows.
pub open spec fn rows_view(rows: Seq<CaptureRow>) -> Seq<RowModel> {
    rows.map_values(|r: CaptureRow| r.view())
}

/// A regular expression together with the text it was compiled from.
pub struct CompiledRegex {
    inner: regex::Regex,
    source: String,
}

impl CompiledRegex {
    /// The text this regex was compiled from.
    pub closed spec fn source(&self) -> Seq<char> {
        self.source@
    }

    /// Compiles `pattern` with `regex::Regex::new`.
    ///
    /// Trusted: the result is `Ok` exactly when `regex_compiles(pattern)`,
    /// and the value records `pattern` as its source.
    #[verifier::external_body]
    pub(crate) fn new(pattern: &str) -> (r: Result<CompiledRegex, regex::Error>)
        ensures
            r is Ok <==> regex_compiles(pattern@),
            r matches Ok(c) ==> c.source() == pattern@,
    {
        match regex::Regex::new(pattern) {
            Ok(inner) => Ok(CompiledRegex { inner, source: pattern.to_string() }),
            Err(e) => Err(e),
        }
    }

    /// Runs `regex::Regex::captures_iter` over `text` and, for each match,
    /// reads the start and text of the whole match (`Captures::get(0)`,
    /// `Match::start`) and the groups named in `names` (`Captures::name`).
    ///
    /// Trusted: the rows are `regex_captures(self.source(), text, names)`,
    /// and each row has one entry per name.
    #[verifier::external_body]
    pub(crate) fn captures(&self, text: &str, names: &Vec<String>) -> (r: Vec<CaptureRow>)
        ensures
            rows_view(r@) == regex_captures(self.source(), text@, strings_view(names@)),
            forall|i: int| 0 <= i < r@.len() ==> (#[trigger] r@[i]).groups@.len() == names@.len(),
    {
        self.inner.captures_iter(text).map(|c| CaptureRow {
            start: c.get(0).map_or(0, |m| m.start()),
            whole: c.get(0).map_or(String::new(), |m| m.as_str().to_string()),
            groups: names.iter().map(|n| c.name(n).map(|m| m.as_str().to_string())).collect(),
        }).collect()
    }
}

/// The message of a `regex::Error` (its `Display` text).
///
/// Trusted: nothing is stated of the text.
#[verifier::external_body]
pub(crate) fn regex_error_message(e: &regex::Error) -> String {
    e.to_string()
}

/// A glob pattern together with the text it was compiled from.
pub struct CompiledGlob {
    inner: glob::Pattern,
    source: String,
}

impl CompiledGlob {
    /// The text this glob was compiled from.
    pub closed spec fn source(&self) -> Seq<char> {
        self.source@
    }

    /// Compiles `pattern` with `glob::Pattern::new`.
    ///
    /// Trusted: the result is `Ok` exactly when `glob_compiles(pattern)`,
    /// and the value records `pattern` as its source.
    #[verifier::external_body]
    pub(crate) fn new(pattern: &str) -> (r: Result<CompiledGlob, glob::PatternError>)
        ensures
            r is Ok <==> glob_compiles(pattern@),
            r matches Ok(g) ==> g.source() == pattern@,
    {
        match glob::Pattern::new(pattern) {
            Ok(inner) => Ok(CompiledGlob { inner, source: pattern.to_string() }),
            Err(e) => Err(e),
        }
    }

    /// `glob::Pattern::matches` on `path`.
    ///
    /// Trusted: the result is `glob_matches(self.source(), path)`.
    #[verifier::external_body]
    pub(crate) fn matches(&self, path: &str) -> (r: bool)
        ensures
            r == glob_matches(self.source(), path@),
    {
        self.inner.matches(path)
    }
}

} // verus!
