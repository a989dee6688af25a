//! The scan configuration: rules, each with file globs and patterns.
use vstd::prelude::*;

verus! {

/// How a pattern yields permissions.
#[derive(Clone, Copy, Debug, PartialEq, Eq, Structural)]
pub enum CaptureMode {
    /// Each match of the regex is one permission, read from its
    /// `object`, `action` (and optional `level`) groups.
    Single,
    /// Each match of the regex is a block; the sub-pattern is applied to
    /// the block and each of its matches is one permission.
    Repeated,
}

impl Default for CaptureMode {
    fn default() -> (r: CaptureMode)
        ensures
            r == CaptureMode::Single,
    {
        CaptureMode::Single
    }
}

/// One extraction pattern of a rule.
#[derive(Clone, Debug)]
pub struct PatternDef {
    /// Regex with `object` and `action` named groups (or the block regex
    /// in repeated mode).
    pub regex: String,
    /// Static level, or `$level` to take the level from the `level` group.
    pub level: String,
    pub capture_mode: CaptureMode,
    /// Inner regex for repeated mode.
    pub sub_pattern: Option<String>,
}

/// A scan rule: which files it applies to and what it looks for there.
#[derive(Clone, Debug)]
pub struct ScanRule {
    pub id: String,
    /// Glob patterns, matched against paths relative to the scan root.
    pub files: Vec<String>,
    pub patterns: Vec<PatternDef>,
}

/// The whole configuration file.
#[derive(Clone, Debug)]
pub struct AegisConfig {
    pub version: u8,
    /// Path of the baseline catalog, relative to the scan root.
    pub catalog: Option<String>,
    pub rules: Vec<ScanRule>,
}

} // verus!
