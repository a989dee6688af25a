//! The command line: its commands, and the decisions the commands take
//! (where the catalog comes from, where a catalog is saved, the lint
//! verdict).
use vstd::prelude::*;

use crate::pattern::{results_view, ScanResult};
use crate::reporter::{diff_report, report_diff};
use crate::text::strings_view;

verus! {

/// Output formats of `scan`.
#[derive(Clone, Copy, Debug, PartialEq, Eq, Structural)]
pub enum Format {
    Table,
    Csv,
    Json,
    CatalogJson,
}

/// The commands.
#[derive(Clone, Debug)]
pub enum Commands {
    /// Scan source code for authorization permission usage.
    Scan {
        config: Option<String>,
        root: Option<String>,
        format: Format,
        ignore_rules: Vec<String>,
        /// Save the catalog document: at the configured catalog path
        /// (`Some(None)`) or at the given path.
        save: Option<Option<String>>,
    },
    /// Show permissions used in code but missing from the catalog, and
    /// catalog entries no code uses.
    Diff { api: Option<String>, baseline: Option<String>, config: Option<String>, root: Option<String> },
    /// Fail when a permission used in code is missing from the catalog.
    Lint {
        api: Option<String>,
        baseline: Option<String>,
        config: Option<String>,
        root: Option<String>,
        ignore_rules: Vec<String>,
    },
}

/// A parsed command line.
#[derive(Clone, Debug)]
pub struct Cli {
    pub command: Commands,
}

/// The baseline file looked for in the scan root when no catalog is given.
pub const DEFAULT_BASELINE: &'static str = ".aegis.catalog.json";

/// Where the registered permissions are read from.
#[derive(Clone, Debug, PartialEq, Eq)]
pub enum CatalogSource {
    /// The authorization API at this base URL.
    Api(String),
    /// A baseline file given on the command line.
    File(String),
    /// The default baseline file at this path.
    DefaultFile(String),
}

/// The text of `std::path::Path::new(base).join(path)`: the joining rules
/// of the build target's paths (on Unix an absolute `path` replaces `base`,
/// otherwise a separator goes between them where `base` needs one).
pub uninterp spec fn path_join(base: Seq<char>, path: Seq<char>) -> Seq<char>;

/// The view of an optional string slice.
pub open spec fn opt_str_view(o: Option<&str>) -> Option<Seq<char>> {
    match o {
        Some(s) => Some(s@),
        None => None,
    }
}

/// The catalog file: the configured catalog path, or the default baseline
/// name, joined onto the scan root.
pub open spec fn catalog_path_of(config_catalog: Option<Seq<char>>, root: Seq<char>) -> Seq<char> {
    match config_catalog {
        Some(c) => path_join(root, c),
        None => path_join(root, DEFAULT_BASELINE@),
    }
}

/// Joins `path` onto `base` with `std::path::Path::join`.
///
/// Trusted: the result is `path_join(base, path)`.
#[verifier::external_body]
fn join_path(base: &str, path: &str) -> (r: String)
    ensures
        r@ == path_join(base@, path@),
{
    std::path::Path::new(base).join(path).to_string_lossy().into_owned()
}

/// The catalog file for a scan root: `config_catalog` if the configuration
/// names one, else the default baseline, under `root`.
pub fn catalog_path(config_catalog: Option<&str>, root: &str) -> (r: String)
    ensures
        r@ == catalog_path_of(opt_str_view(config_catalog), root@),
{
    match config_catalog {
        Some(c) => join_path(root, c),
        None => join_path(root, DEFAULT_BASELINE),
    }
}

/// Chooses where the registered permissions come from: the API or the
/// baseline file given on the command line (not both), or else the
/// catalog file of the scan root.
pub fn registered_source(
    api_url: Option<&str>,
    baseline: Option<&str>,
    config_catalog: Option<&str>,
    root: &str,
) -> (r: Result<CatalogSource, String>)
    ensures
        (api_url is Some && baseline is Some) <==> r is Err,
        r matches Err(m) ==> m@ == "provide either --api or --baseline, not both"@,
        r matches Ok(CatalogSource::Api(u)) ==> (api_url matches Some(a) && u@ == a@),
        r matches Ok(CatalogSource::File(f)) ==> api_url is None && (baseline matches Some(b) && f@ == b@),
        r matches Ok(CatalogSource::DefaultFile(f)) ==> api_url is None && baseline is None && f@
            == catalog_path_of(opt_str_view(config_catalog), root@),
        api_url is Some && baseline is None ==> r matches Ok(CatalogSource::Api(_)),
        api_url is None && baseline is Some ==> r matches Ok(CatalogSource::File(_)),
        api_url is None && baseline is None ==> r matches Ok(CatalogSource::DefaultFile(_)),
{
    match (api_url, baseline) {
        (Some(_), Some(_)) => Err(String::from_str("provide either --api or --baseline, not both")),
        (Some(url), None) => Ok(CatalogSource::Api(String::from_str(url))),
        (None, Some(path)) => Ok(CatalogSource::File(String::from_str(path))),
        (None, None) => Ok(CatalogSource::DefaultFile(catalog_path(config_catalog, root))),
    }
}

/// The message for a default baseline file that could not be loaded:
/// the error, then how to give a catalog.
pub fn default_catalog_hint(error: &str, path: &str) -> (r: String)
    ensures
        r@ == error@ + "\nProvide --api <url>, --baseline <file>, or add a '"@ + path@ + "' baseline file."@,
{
    let mut s = String::from_str(error);
    s.append("\nProvide --api <url>, --baseline <file>, or add a '");
    s.append(path);
    s.append("' baseline file.");
    s
}

/// Where `scan` saves the catalog document: nowhere without `--save`, the
/// catalog file of the root for a bare `--save`, else the given path.
pub fn save_target(save: &Option<Option<String>>, config_catalog: Option<&str>, root: &str) -> (r: Option<String>)
    ensures
        save is None ==> r is None,
        save matches Some(None) ==> (r matches Some(p) && p@ == catalog_path_of(opt_str_view(config_catalog), root@)),
        save matches Some(Some(q)) ==> (r matches Some(p) && p@ == q@),
{
    match save {
        None => None,
        Some(None) => Some(catalog_path(config_catalog, root)),
        Some(Some(p)) => Some(p.clone()),
    }
}

/// The exit code of `lint`: 1 where some permission used in code is
/// missing from the catalog, 0 otherwise. Catalog entries that no code
/// uses never fail it.
pub fn lint_exit_code(added: &[ScanResult]) -> (r: i32)
    ensures
        r == (if added@.len() == 0 { 0i32 } else { 1i32 }),
{
    if added.len() == 0 {
        0
    } else {
        1
    }
}

/// What a command prints, where, and the exit code it ends with.
#[derive(Clone, Debug, PartialEq, Eq)]
pub struct CommandOutput {
    pub text: String,
    /// Printed on standard error rather than standard output.
    pub to_stderr: bool,
    pub exit_code: i32,
}

/// What `diff` prints: that all is registered where nothing was added or
/// removed, else the diff report.
pub fn diff_output(added: &[ScanResult], gone: &[String], color: bool) -> (r: String)
    requires
        added@.len() + gone@.len() <= usize::MAX,
    ensures
        added@.len() == 0 && gone@.len() == 0 ==> r@ == "All permissions registered in catalog."@,
        !(added@.len() == 0 && gone@.len() == 0) ==> r@ == diff_report(
            results_view(added@),
            strings_view(gone@),
            color,
        ),
{
    if added.len() == 0 && gone.len() == 0 {
        String::from_str("All permissions registered in catalog.")
    } else {
        report_diff(added, gone, color)
    }
}

/// What `lint` prints and its exit code. With nothing unregistered it
/// succeeds, printing that all is registered, or the removed keys where
/// there are some, on standard output (coloured where `stdout_color`).
/// Otherwise it fails with the diff report on standard error (coloured
/// where `stderr_color`).
pub fn lint_output(added: &[ScanResult], gone: &[String], stdout_color: bool, stderr_color: bool) -> (r: CommandOutput)
    requires
        added@.len() + gone@.len() <= usize::MAX,
    ensures
        r.exit_code == (if added@.len() == 0 { 0i32 } else { 1i32 }),
        r.to_stderr == (added@.len() != 0),
        added@.len() == 0 && gone@.len() == 0 ==> r.text@ == "All permissions registered."@,
        added@.len() == 0 && gone@.len() != 0 ==> r.text@ == diff_report(
            results_view(added@),
            strings_view(gone@),
            stdout_color,
        ),
        added@.len() != 0 ==> r.text@ == diff_report(results_view(added@), strings_view(gone@), stderr_color),
{
    let exit_code = lint_exit_code(added);
    if added.len() == 0 {
        if gone.len() == 0 {
            CommandOutput { text: String::from_str("All permissions registered."), to_stderr: false, exit_code }
        } else {
            CommandOutput { text: report_diff(added, gone, stdout_color), to_stderr: false, exit_code }
        }
    } else {
        CommandOutput { text: report_diff(added, gone, stderr_color), to_stderr: true, exit_code }
    }
}

} // verus!
