//! Compiled patterns and the extraction of permissions from text.
use vstd::prelude::*;

use crate::config::{CaptureMode, PatternDef};
use crate::matcher::{
    opt_view, regex_captures, regex_compiles, regex_error_message, rows_view, CaptureRow, CompiledRegex, RowModel,
};
use vstd::string::StringSliceAdditionalSpecFns;
use vstd::utf8::{decode_utf8, encode_utf8, is_char_boundary};
use crate::text::{str_equal, strings_view};

verus! {

/// One permission found in the source: where and by which rule.
#[derive(Clone, Debug, PartialEq, Eq)]
pub struct ScanResult {
    pub level: String,
    pub resource: String,
    pub action: String,
    pub source_file: String,
    pub source_line: usize,
    pub rule_id: String,
}

/// The mathematical value of a [`ScanResult`].
pub struct ScanResultModel {
    pub level: Seq<char>,
    pub resource: Seq<char>,
    pub action: Seq<char>,
    pub source_file: Seq<char>,
    pub source_line: usize,
    pub rule_id: Seq<char>,
}

impl View for ScanResult {
    type V = ScanResultModel;

    open spec fn view(&self) -> ScanResultModel {
        ScanResultModel {
            level: self.level@,
            resource: self.resource@,
            action: self.action@,
            source_file: self.source_file@,
            source_line: self.source_line,
            rule_id: self.rule_id@,
        }
    }
}

/// The views of a sequence of scan results.
pub open spec fn results_view(v: Seq<ScanResult>) -> Seq<ScanResultModel> {
    v.map_values(|r: ScanResult| r@)
}

impl ScanResult {
    /// A copy of this result, field by field.
    pub fn duplicate(&self) -> (r: ScanResult)
        ensures
            r@ == self@,
    {
        ScanResult {
            level: self.level.clone(),
            resource: self.resource.clone(),
            action: self.action.clone(),
            source_file: self.source_file.clone(),
            source_line: self.source_line,
            rule_id: self.rule_id.clone(),
        }
    }
}

/// A pattern whose regexes failed to compile.
#[derive(Clone, Debug, PartialEq, Eq)]
pub enum CompileError {
    /// A regex that `regex` refused: its source and the crate's message.
    InvalidRegex { pattern: String, message: String },
}

/// A pattern with its regexes compiled, ready to run.
pub struct CompiledPattern {
    pub rule_id: String,
    pub level: String,
    pub regex: CompiledRegex,
    pub capture_mode: CaptureMode,
    pub sub_regex: Option<CompiledRegex>,
}

/// The mathematical value of a [`CompiledPattern`]: its regexes by source.
pub struct CompiledPatternModel {
    pub rule_id: Seq<char>,
    pub level: Seq<char>,
    pub regex: Seq<char>,
    pub capture_mode: CaptureMode,
    pub sub_regex: Option<Seq<char>>,
}

impl View for CompiledPattern {
    type V = CompiledPatternModel;

    open spec fn view(&self) -> CompiledPatternModel {
        CompiledPatternModel {
            rule_id: self.rule_id@,
            level: self.level@,
            regex: self.regex.source(),
            capture_mode: self.capture_mode,
            sub_regex: match self.sub_regex {
                Some(r) => Some(r.source()),
                None => None,
            },
        }
    }
}

/// The compiled form of `def` under rule `rule_id`.
pub open spec fn compiled_model(rule_id: Seq<char>, def: PatternDef) -> CompiledPatternModel {
    CompiledPatternModel {
        rule_id: rule_id,
        level: def.level@,
        regex: def.regex@,
        capture_mode: def.capture_mode,
        sub_regex: opt_view(def.sub_pattern),
    }
}

/// Whether all regexes of `def` compile.
pub open spec fn pattern_compiles(def: PatternDef) -> bool {
    &&& regex_compiles(def.regex@)
    &&& (def.sub_pattern matches Some(sp) ==> regex_compiles(sp@))
}

/// The names of the capture groups that a match is read from.
pub open spec fn group_names() -> Seq<Seq<char>> {
    seq!["object"@, "action"@, "level"@]
}

/// The group at index `i`, or `None` where the row has no such entry.
pub open spec fn group_at(groups: Seq<Option<Seq<char>>>, i: int) -> Option<Seq<char>> {
    if 0 <= i < groups.len() {
        groups[i]
    } else {
        None
    }
}

/// The level of a permission: the captured `level` group where the
/// pattern's level is `$level` and the group matched, else the pattern's level.
pub open spec fn resolved_level(default: Seq<char>, captured: Option<Seq<char>>) -> Seq<char> {
    if default == "$level"@ && captured is Some {
        captured->0
    } else {
        default
    }
}

/// The number of newline bytes in `bytes`.
pub open spec fn count_newlines(bytes: Seq<u8>) -> nat
    decreases bytes.len(),
{
    if bytes.len() == 0 {
        0
    } else {
        count_newlines(bytes.drop_last()) + if bytes.last() == 10u8 {
            1nat
        } else {
            0nat
        }
    }
}

/// `offset`, or the length of `bytes` where `offset` lies past its end.
pub open spec fn clamp_offset(bytes: Seq<u8>, offset: usize) -> int {
    if offset <= bytes.len() {
        offset as int
    } else {
        bytes.len() as int
    }
}

/// The line on which byte `offset` of a text with UTF-8 encoding `bytes`
/// lies, where the text's first line is line `line_num`: `line_num` plus the
/// newlines before the offset (saturating at `usize::MAX`).
pub open spec fn line_at(line_num: usize, bytes: Seq<u8>, offset: usize) -> usize {
    let n = line_num + count_newlines(bytes.take(clamp_offset(bytes, offset)));
    if n <= usize::MAX {
        n as usize
    } else {
        usize::MAX
    }
}

/// The permissions of one match, all at line `line`: one where both
/// `object` and `action` matched, none otherwise.
pub open spec fn row_results(
    row: RowModel,
    line: usize,
    default_level: Seq<char>,
    rule_id: Seq<char>,
    file_path: Seq<char>,
) -> Seq<ScanResultModel> {
    let object = group_at(row.2, 0);
    let action = group_at(row.2, 1);
    if object is Some && action is Some {
        seq![ScanResultModel {
            level: resolved_level(default_level, group_at(row.2, 2)),
            resource: object->0,
            action: action->0,
            source_file: file_path,
            source_line: line,
            rule_id: rule_id,
        }]
    } else {
        seq![]
    }
}

/// The permissions of a sequence of matches, in order, all at line `line`.
pub open spec fn rows_results(
    rows: Seq<RowModel>,
    line: usize,
    default_level: Seq<char>,
    rule_id: Seq<char>,
    file_path: Seq<char>,
) -> Seq<ScanResultModel>
    decreases rows.len(),
{
    if rows.len() == 0 {
        seq![]
    } else {
        rows_results(rows.drop_last(), line, default_level, rule_id, file_path)
            + row_results(rows.last(), line, default_level, rule_id, file_path)
    }
}

/// The permissions of the first `k` matches of a regex over a text with
/// UTF-8 encoding `bytes` whose first line is `line_num`: each at the line
/// on which its match starts.
pub open spec fn matches_results(
    rows: Seq<RowModel>,
    k: nat,
    bytes: Seq<u8>,
    line_num: usize,
    default_level: Seq<char>,
    rule_id: Seq<char>,
    file_path: Seq<char>,
) -> Seq<ScanResultModel>
    decreases k,
{
    if k == 0 {
        seq![]
    } else {
        matches_results(rows, (k - 1) as nat, bytes, line_num, default_level, rule_id, file_path)
            + row_results(
            rows[k - 1],
            line_at(line_num, bytes, rows[k - 1].0),
            default_level,
            rule_id,
            file_path,
        )
    }
}

/// The number of `{` bytes in `bytes[s..i)`.
pub open spec fn opens(bytes: Seq<u8>, s: int, i: int) -> nat
    decreases i - s,
{
    if i <= s {
        0
    } else {
        opens(bytes, s, i - 1) + if bytes[i - 1] == 123u8 {
            1nat
        } else {
            0nat
        }
    }
}

/// The number of `}` bytes in `bytes[s..i)`.
pub open spec fn closes(bytes: Seq<u8>, s: int, i: int) -> nat
    decreases i - s,
{
    if i <= s {
        0
    } else {
        closes(bytes, s, i - 1) + if bytes[i - 1] == 125u8 {
            1nat
        } else {
            0nat
        }
    }
}

/// Whether every `{` in `bytes[s..i)` has been closed.
pub open spec fn braces_closed(bytes: Seq<u8>, s: int, i: int) -> bool {
    opens(bytes, s, i) <= closes(bytes, s, i)
}

/// The first position after `i` at which the braces opened since `s` are
/// all closed; the end of `bytes` where there is none.
pub open spec fn closing_from(bytes: Seq<u8>, s: int, i: int) -> int
    decreases bytes.len() - i,
{
    if i >= bytes.len() {
        bytes.len() as int
    } else if braces_closed(bytes, s, i + 1) {
        i + 1
    } else {
        closing_from(bytes, s, i + 1)
    }
}

/// Where the block of a match spanning `bytes[s..e)` ends: at `e` where the
/// match closes every brace it opens, else just after the `}` that closes
/// them (or at the end of the text).
pub open spec fn block_end(bytes: Seq<u8>, s: int, e: int) -> int {
    if braces_closed(bytes, s, e) {
        e
    } else {
        closing_from(bytes, s, e)
    }
}

/// The end of a match that starts at byte `start` and whose text is
/// `whole`, within the text's bytes.
pub open spec fn match_end(bytes: Seq<u8>, start: usize, whole: Seq<char>) -> int {
    if start + encode_utf8(whole).len() <= bytes.len() {
        start + encode_utf8(whole).len()
    } else {
        bytes.len() as int
    }
}

/// The bytes from `start` up to `end`, where `start` is a character
/// boundary and `end` one at or after it; up to the end of the text where
/// `end` is not; empty where `start` is not.
pub open spec fn block_bytes(bytes: Seq<u8>, start: usize, end: int) -> Seq<u8> {
    if start > bytes.len() || !is_char_boundary(bytes, start as int) {
        seq![]
    } else {
        let rest = bytes.subrange(start as int, bytes.len() as int);
        if start <= end && is_char_boundary(rest, end - start) {
            rest.subrange(0, end - start)
        } else {
            rest
        }
    }
}

/// Repeated mode: the block of outer match `i`, the text from where that
/// match starts to where it ends, or, where the match leaves a `{` open, up
/// to the `}` that closes it (or the end of the text).
pub open spec fn block_text(bytes: Seq<u8>, outer: Seq<RowModel>, i: int) -> Seq<char> {
    let start = outer[i].0;
    decode_utf8(block_bytes(bytes, start, block_end(bytes, start as int, match_end(bytes, start, outer[i].1))))
}

/// Repeated mode: for the first `k` blocks, in order, the permissions of
/// the sub-regex's matches in the block, each at the line on which the
/// block starts.
pub open spec fn blocks_results(
    outer: Seq<RowModel>,
    k: nat,
    bytes: Seq<u8>,
    sub_regex: Seq<char>,
    line_num: usize,
    default_level: Seq<char>,
    rule_id: Seq<char>,
    file_path: Seq<char>,
) -> Seq<ScanResultModel>
    decreases k,
{
    if k == 0 {
        seq![]
    } else {
        blocks_results(outer, (k - 1) as nat, bytes, sub_regex, line_num, default_level, rule_id, file_path)
            + rows_results(
            regex_captures(sub_regex, block_text(bytes, outer, k - 1), group_names()),
            line_at(line_num, bytes, outer[k - 1].0),
            default_level,
            rule_id,
            file_path,
        )
    }
}

/// All permissions that `cp` finds in `content`, whose first line is line
/// `line_num`.
pub open spec fn extracted(
    content: Seq<char>,
    line_num: usize,
    cp: CompiledPatternModel,
    file_path: Seq<char>,
) -> Seq<ScanResultModel> {
    let bytes = encode_utf8(content);
    let outer = regex_captures(cp.regex, content, group_names());
    match cp.capture_mode {
        CaptureMode::Single => matches_results(
            outer,
            outer.len(),
            bytes,
            line_num,
            cp.level,
            cp.rule_id,
            file_path,
        ),
        CaptureMode::Repeated => match cp.sub_regex {
            Some(sub) => blocks_results(
                outer,
                outer.len(),
                bytes,
                sub,
                line_num,
                cp.level,
                cp.rule_id,
                file_path,
            ),
            None => seq![],
        },
    }
}

/// Whether every result was found at `file_path`, on line `line_num` or
/// later, by the rule `rule_id`.
pub open spec fn all_found_at(
    results: Seq<ScanResultModel>,
    line_num: usize,
    rule_id: Seq<char>,
    file_path: Seq<char>,
) -> bool {
    forall|i: int|
        0 <= i < results.len() ==> {
            &&& (#[trigger] results[i]).source_line >= line_num
            &&& results[i].rule_id == rule_id
            &&& results[i].source_file == file_path
        }
}

proof fn lemma_concat_found_at(
    a: Seq<ScanResultModel>,
    b: Seq<ScanResultModel>,
    line_num: usize,
    rule_id: Seq<char>,
    file_path: Seq<char>,
)
    requires
        all_found_at(a, line_num, rule_id, file_path),
        all_found_at(b, line_num, rule_id, file_path),
    ensures
        all_found_at(a + b, line_num, rule_id, file_path),
{
    assert forall|i: int| 0 <= i < (a + b).len() implies {
        &&& (#[trigger] (a + b)[i]).source_line >= line_num
        &&& (a + b)[i].rule_id == rule_id
        &&& (a + b)[i].source_file == file_path
    } by {
        if i < a.len() {
            assert((a + b)[i] == a[i]);
        } else {
            assert((a + b)[i] == b[i - a.len()]);
        }
    }
}

proof fn lemma_rows_found_at(
    rows: Seq<RowModel>,
    line: usize,
    line_num: usize,
    default_level: Seq<char>,
    rule_id: Seq<char>,
    file_path: Seq<char>,
)
    requires
        line >= line_num,
    ensures
        all_found_at(rows_results(rows, line, default_level, rule_id, file_path), line_num, rule_id, file_path),
    decreases rows.len(),
{
    if rows.len() > 0 {
        lemma_rows_found_at(rows.drop_last(), line, line_num, default_level, rule_id, file_path);
        lemma_concat_found_at(
            rows_results(rows.drop_last(), line, default_level, rule_id, file_path),
            row_results(rows.last(), line, default_level, rule_id, file_path),
            line_num,
            rule_id,
            file_path,
        );
    }
}

proof fn lemma_matches_found_at(
    rows: Seq<RowModel>,
    k: nat,
    bytes: Seq<u8>,
    line_num: usize,
    default_level: Seq<char>,
    rule_id: Seq<char>,
    file_path: Seq<char>,
)
    ensures
        all_found_at(
            matches_results(rows, k, bytes, line_num, default_level, rule_id, file_path),
            line_num,
            rule_id,
            file_path,
        ),
    decreases k,
{
    if k > 0 {
        lemma_matches_found_at(rows, (k - 1) as nat, bytes, line_num, default_level, rule_id, file_path);
        lemma_concat_found_at(
            matches_results(rows, (k - 1) as nat, bytes, line_num, default_level, rule_id, file_path),
            row_results(rows[k - 1], line_at(line_num, bytes, rows[k - 1].0), default_level, rule_id, file_path),
            line_num,
            rule_id,
            file_path,
        );
    }
}

proof fn lemma_blocks_found_at(
    outer: Seq<RowModel>,
    k: nat,
    bytes: Seq<u8>,
    sub_regex: Seq<char>,
    line_num: usize,
    default_level: Seq<char>,
    rule_id: Seq<char>,
    file_path: Seq<char>,
)
    ensures
        all_found_at(
            blocks_results(outer, k, bytes, sub_regex, line_num, default_level, rule_id, file_path),
            line_num,
            rule_id,
            file_path,
        ),
    decreases k,
{
    if k > 0 {
        let inner = regex_captures(sub_regex, block_text(bytes, outer, k - 1), group_names());
        let line = line_at(line_num, bytes, outer[k - 1].0);
        lemma_blocks_found_at(outer, (k - 1) as nat, bytes, sub_regex, line_num, default_level, rule_id, file_path);
        lemma_rows_found_at(inner, line, line_num, default_level, rule_id, file_path);
        lemma_concat_found_at(
            blocks_results(outer, (k - 1) as nat, bytes, sub_regex, line_num, default_level, rule_id, file_path),
            rows_results(inner, line, default_level, rule_id, file_path),
            line_num,
            rule_id,
            file_path,
        );
    }
}

/// Every permission a pattern extracts is recorded at the file it was asked
/// about, on the content's first line or later, and under the pattern's
/// rule, in both capture modes.
pub proof fn lemma_extracted_found_at(
    content: Seq<char>,
    line_num: usize,
    cp: CompiledPatternModel,
    file_path: Seq<char>,
)
    ensures
        all_found_at(extracted(content, line_num, cp, file_path), line_num, cp.rule_id, file_path),
{
    let outer = regex_captures(cp.regex, content, group_names());
    let bytes = encode_utf8(content);
    match cp.capture_mode {
        CaptureMode::Single => {
            lemma_matches_found_at(outer, outer.len(), bytes, line_num, cp.level, cp.rule_id, file_path);
        },
        CaptureMode::Repeated => {
            if let Some(sub) = cp.sub_regex {
                lemma_blocks_found_at(outer, outer.len(), bytes, sub, line_num, cp.level, cp.rule_id, file_path);
            }
        },
    }
}

/// Whether a match took part with both its `object` and `action` groups.
spec fn has_permission(row: RowModel) -> bool {
    group_at(row.2, 0) is Some && group_at(row.2, 1) is Some
}

/// The permission that a match with `object` and `action` stands for.
spec fn match_permission(
    row: RowModel,
    line: usize,
    level: Seq<char>,
    rule_id: Seq<char>,
    file_path: Seq<char>,
) -> ScanResultModel {
    ScanResultModel {
        level: if level == "$level"@ && group_at(row.2, 2) is Some {
            group_at(row.2, 2)->0
        } else {
            level
        },
        resource: group_at(row.2, 0)->0,
        action: group_at(row.2, 1)->0,
        source_file: file_path,
        source_line: line,
        rule_id: rule_id,
    }
}

proof fn lemma_row_results_shape(
    row: RowModel,
    line: usize,
    level: Seq<char>,
    rule_id: Seq<char>,
    file_path: Seq<char>,
)
    ensures
        has_permission(row) ==> row_results(row, line, level, rule_id, file_path) == seq![
            match_permission(row, line, level, rule_id, file_path),
        ],
        !has_permission(row) ==> row_results(row, line, level, rule_id, file_path).len() == 0,
{
}

proof fn lemma_rows_complete(
    rows: Seq<RowModel>,
    j: int,
    line: usize,
    level: Seq<char>,
    rule_id: Seq<char>,
    file_path: Seq<char>,
)
    requires
        0 <= j < rows.len(),
        has_permission(rows[j]),
    ensures
        rows_results(rows, line, level, rule_id, file_path).contains(
            match_permission(rows[j], line, level, rule_id, file_path),
        ),
    decreases rows.len(),
{
    let prev = rows_results(rows.drop_last(), line, level, rule_id, file_path);
    let last = row_results(rows.last(), line, level, rule_id, file_path);
    let all = rows_results(rows, line, level, rule_id, file_path);
    assert(all == prev + last);
    if j == rows.len() - 1 {
        lemma_row_results_shape(rows.last(), line, level, rule_id, file_path);
        assert(all[prev.len() as int] == last[0]);
    } else {
        assert(rows.drop_last()[j] == rows[j]);
        lemma_rows_complete(rows.drop_last(), j, line, level, rule_id, file_path);
        let m = choose|m: int|
            0 <= m < prev.len() && prev[m] == match_permission(rows[j], line, level, rule_id, file_path);
        assert(all[m] == prev[m]);
    }
}

proof fn lemma_rows_sound(
    rows: Seq<RowModel>,
    line: usize,
    level: Seq<char>,
    rule_id: Seq<char>,
    file_path: Seq<char>,
)
    ensures
        forall|i: int|
            0 <= i < rows_results(rows, line, level, rule_id, file_path).len() ==> exists|j: int|
                0 <= j < rows.len() && has_permission(rows[j]) && #[trigger] rows_results(
                    rows,
                    line,
                    level,
                    rule_id,
                    file_path,
                )[i] == match_permission(rows[j], line, level, rule_id, file_path),
    decreases rows.len(),
{
    if rows.len() > 0 {
        lemma_rows_sound(rows.drop_last(), line, level, rule_id, file_path);
        let prev = rows_results(rows.drop_last(), line, level, rule_id, file_path);
        let last = row_results(rows.last(), line, level, rule_id, file_path);
        let all = rows_results(rows, line, level, rule_id, file_path);
        assert(all == prev + last);
        lemma_row_results_shape(rows.last(), line, level, rule_id, file_path);
        assert forall|i: int| 0 <= i < all.len() implies exists|j: int|
            0 <= j < rows.len() && has_permission(rows[j]) && #[trigger] all[i] == match_permission(
                rows[j],
                line,
                level,
                rule_id,
                file_path,
            ) by {
            if i < prev.len() {
                assert(all[i] == prev[i]);
                let j = choose|j: int|
                    0 <= j < rows.drop_last().len() && has_permission(rows.drop_last()[j]) && #[trigger] prev[i]
                        == match_permission(rows.drop_last()[j], line, level, rule_id, file_path);
                assert(rows.drop_last()[j] == rows[j]);
            } else {
                assert(all[i] == last[i - prev.len()]);
                assert(rows.last() == rows[rows.len() - 1]);
            }
        }
    } else {
        assert(rows_results(rows, line, level, rule_id, file_path).len() == 0);
    }
}

proof fn lemma_matches_complete(
    rows: Seq<RowModel>,
    k: nat,
    j: int,
    bytes: Seq<u8>,
    line_num: usize,
    level: Seq<char>,
    rule_id: Seq<char>,
    file_path: Seq<char>,
)
    requires
        k <= rows.len(),
        0 <= j < k,
        has_permission(rows[j]),
    ensures
        matches_results(rows, k, bytes, line_num, level, rule_id, file_path).contains(
            match_permission(rows[j], line_at(line_num, bytes, rows[j].0), level, rule_id, file_path),
        ),
    decreases k,
{
    let prev = matches_results(rows, (k - 1) as nat, bytes, line_num, level, rule_id, file_path);
    let line = line_at(line_num, bytes, rows[k - 1].0);
    let last = row_results(rows[k - 1], line, level, rule_id, file_path);
    let all = matches_results(rows, k, bytes, line_num, level, rule_id, file_path);
    assert(all == prev + last);
    if j == k - 1 {
        lemma_row_results_shape(rows[k - 1], line, level, rule_id, file_path);
        assert(all[prev.len() as int] == last[0]);
    } else {
        lemma_matches_complete(rows, (k - 1) as nat, j, bytes, line_num, level, rule_id, file_path);
        let m = choose|m: int|
            0 <= m < prev.len() && prev[m] == match_permission(
                rows[j],
                line_at(line_num, bytes, rows[j].0),
                level,
                rule_id,
                file_path,
            );
        assert(all[m] == prev[m]);
    }
}

proof fn lemma_matches_sound(
    rows: Seq<RowModel>,
    k: nat,
    bytes: Seq<u8>,
    line_num: usize,
    level: Seq<char>,
    rule_id: Seq<char>,
    file_path: Seq<char>,
)
    requires
        k <= rows.len(),
    ensures
        forall|i: int|
            0 <= i < matches_results(rows, k, bytes, line_num, level, rule_id, file_path).len() ==> exists|j: int|
                0 <= j < k && has_permission(rows[j]) && #[trigger] matches_results(
                    rows,
                    k,
                    bytes,
                    line_num,
                    level,
                    rule_id,
                    file_path,
                )[i] == match_permission(rows[j], line_at(line_num, bytes, rows[j].0), level, rule_id, file_path),
    decreases k,
{
    if k > 0 {
        lemma_matches_sound(rows, (k - 1) as nat, bytes, line_num, level, rule_id, file_path);
        let prev = matches_results(rows, (k - 1) as nat, bytes, line_num, level, rule_id, file_path);
        let line = line_at(line_num, bytes, rows[k - 1].0);
        let last = row_results(rows[k - 1], line, level, rule_id, file_path);
        let all = matches_results(rows, k, bytes, line_num, level, rule_id, file_path);
        assert(all == prev + last);
        lemma_row_results_shape(rows[k - 1], line, level, rule_id, file_path);
        assert forall|i: int| 0 <= i < all.len() implies exists|j: int|
            0 <= j < k && has_permission(rows[j]) && #[trigger] all[i] == match_permission(
                rows[j],
                line_at(line_num, bytes, rows[j].0),
                level,
                rule_id,
                file_path,
            ) by {
            if i < prev.len() {
                assert(all[i] == prev[i]);
            } else {
                assert(all[i] == last[i - prev.len()]);
                let j = k - 1;
                assert(0 <= j < k && has_permission(rows[j]) && all[i] == match_permission(
                    rows[j],
                    line_at(line_num, bytes, rows[j].0),
                    level,
                    rule_id,
                    file_path,
                ));
            }
        }
    } else {
        assert(matches_results(rows, k, bytes, line_num, level, rule_id, file_path).len() == 0);
    }
}

proof fn lemma_blocks_complete(
    outer: Seq<RowModel>,
    k: nat,
    m: int,
    j: int,
    bytes: Seq<u8>,
    sub_regex: Seq<char>,
    line_num: usize,
    level: Seq<char>,
    rule_id: Seq<char>,
    file_path: Seq<char>,
)
    requires
        k <= outer.len(),
        0 <= m < k,
        0 <= j < regex_captures(sub_regex, block_text(bytes, outer, m), group_names()).len(),
        has_permission(regex_captures(sub_regex, block_text(bytes, outer, m), group_names())[j]),
    ensures
        blocks_results(outer, k, bytes, sub_regex, line_num, level, rule_id, file_path).contains(
            match_permission(
                regex_captures(sub_regex, block_text(bytes, outer, m), group_names())[j],
                line_at(line_num, bytes, outer[m].0),
                level,
                rule_id,
                file_path,
            ),
        ),
    decreases k,
{
    let prev = blocks_results(outer, (k - 1) as nat, bytes, sub_regex, line_num, level, rule_id, file_path);
    let inner = regex_captures(sub_regex, block_text(bytes, outer, k - 1), group_names());
    let line = line_at(line_num, bytes, outer[k - 1].0);
    let last = rows_results(inner, line, level, rule_id, file_path);
    let all = blocks_results(outer, k, bytes, sub_regex, line_num, level, rule_id, file_path);
    assert(all == prev + last);
    let target = match_permission(
        regex_captures(sub_regex, block_text(bytes, outer, m), group_names())[j],
        line_at(line_num, bytes, outer[m].0),
        level,
        rule_id,
        file_path,
    );
    if m == k - 1 {
        lemma_rows_complete(inner, j, line, level, rule_id, file_path);
        let n = choose|n: int| 0 <= n < last.len() && last[n] == target;
        assert(all[prev.len() + n] == last[n]);
    } else {
        lemma_blocks_complete(outer, (k - 1) as nat, m, j, bytes, sub_regex, line_num, level, rule_id, file_path);
        let n = choose|n: int| 0 <= n < prev.len() && prev[n] == target;
        assert(all[n] == prev[n]);
    }
}

proof fn lemma_blocks_sound(
    outer: Seq<RowModel>,
    k: nat,
    bytes: Seq<u8>,
    sub_regex: Seq<char>,
    line_num: usize,
    level: Seq<char>,
    rule_id: Seq<char>,
    file_path: Seq<char>,
)
    requires
        k <= outer.len(),
    ensures
        forall|i: int|
            0 <= i < blocks_results(outer, k, bytes, sub_regex, line_num, level, rule_id, file_path).len()
                ==> exists|m: int, j: int|
                0 <= m < k && 0 <= j < regex_captures(sub_regex, block_text(bytes, outer, m), group_names()).len()
                    && has_permission(regex_captures(sub_regex, block_text(bytes, outer, m), group_names())[j])
                    && #[trigger] blocks_results(outer, k, bytes, sub_regex, line_num, level, rule_id, file_path)[i]
                    == match_permission(
                    regex_captures(sub_regex, block_text(bytes, outer, m), group_names())[j],
                    line_at(line_num, bytes, outer[m].0),
                    level,
                    rule_id,
                    file_path,
                ),
    decreases k,
{
    if k > 0 {
        lemma_blocks_sound(outer, (k - 1) as nat, bytes, sub_regex, line_num, level, rule_id, file_path);
        let prev = blocks_results(outer, (k - 1) as nat, bytes, sub_regex, line_num, level, rule_id, file_path);
        let inner = regex_captures(sub_regex, block_text(bytes, outer, k - 1), group_names());
        let line = line_at(line_num, bytes, outer[k - 1].0);
        let last = rows_results(inner, line, level, rule_id, file_path);
        let all = blocks_results(outer, k, bytes, sub_regex, line_num, level, rule_id, file_path);
        assert(all == prev + last);
        lemma_rows_sound(inner, line, level, rule_id, file_path);
        assert forall|i: int| 0 <= i < all.len() implies exists|m: int, j: int|
            0 <= m < k && 0 <= j < regex_captures(sub_regex, block_text(bytes, outer, m), group_names()).len()
                && has_permission(regex_captures(sub_regex, block_text(bytes, outer, m), group_names())[j])
                && #[trigger] all[i] == match_permission(
                regex_captures(sub_regex, block_text(bytes, outer, m), group_names())[j],
                line_at(line_num, bytes, outer[m].0),
                level,
                rule_id,
                file_path,
            ) by {
            if i < prev.len() {
                assert(all[i] == prev[i]);
            } else {
                assert(all[i] == last[i - prev.len()]);
                let n = i - prev.len();
                assert(0 <= n < last.len());
                let j = choose|j: int|
                    0 <= j < inner.len() && has_permission(inner[j]) && #[trigger] last[n] == match_permission(
                        inner[j],
                        line,
                        level,
                        rule_id,
                        file_path,
                    );
                let m = k - 1;
                assert(0 <= m < k && 0 <= j < regex_captures(sub_regex, block_text(bytes, outer, m), group_names()).len()
                    && has_permission(regex_captures(sub_regex, block_text(bytes, outer, m), group_names())[j])
                    && all[i] == match_permission(
                    regex_captures(sub_regex, block_text(bytes, outer, m), group_names())[j],
                    line_at(line_num, bytes, outer[m].0),
                    level,
                    rule_id,
                    file_path,
                ));
            }
        }
    } else {
        assert(blocks_results(outer, k, bytes, sub_regex, line_num, level, rule_id, file_path).len() == 0);
    }
}

/// Single mode: every match of the regex, read with the groups `object`,
/// `action` and `level`, in which `object` and `action` took part gives a
/// permission with those texts, at the line on which the match starts;
/// its level is the match's `level` text where the pattern's level is
/// `$level` and that group took part, else the pattern's level.
pub proof fn lemma_single_mode_reads_each_match(
    content: Seq<char>,
    line_num: usize,
    cp: CompiledPatternModel,
    file_path: Seq<char>,
    j: int,
)
    requires
        cp.capture_mode == CaptureMode::Single,
        0 <= j < regex_captures(cp.regex, content, seq!["object"@, "action"@, "level"@]).len(),
        group_at(regex_captures(cp.regex, content, seq!["object"@, "action"@, "level"@])[j].2, 0) is Some,
        group_at(regex_captures(cp.regex, content, seq!["object"@, "action"@, "level"@])[j].2, 1) is Some,
    ensures
        ({
            let row = regex_captures(cp.regex, content, seq!["object"@, "action"@, "level"@])[j];
            let lvl = if cp.level == "$level"@ && group_at(row.2, 2) is Some {
                group_at(row.2, 2)->0
            } else {
                cp.level
            };
            extracted(content, line_num, cp, file_path).contains(
                (ScanResultModel {
                    level: lvl,
                    resource: group_at(row.2, 0)->0,
                    action: group_at(row.2, 1)->0,
                    source_file: file_path,
                    source_line: line_at(line_num, encode_utf8(content), row.0),
                    rule_id: cp.rule_id,
                }),
            )
        }),
{
    assert(group_names() =~= seq!["object"@, "action"@, "level"@]);
    let outer = regex_captures(cp.regex, content, group_names());
    lemma_matches_complete(
        outer,
        outer.len(),
        j,
        encode_utf8(content),
        line_num,
        cp.level,
        cp.rule_id,
        file_path,
    );
}

/// Single mode: every permission found comes from one match of the regex,
/// read with the groups `object`, `action` and `level`, in which `object`
/// and `action` took part, as [`lemma_single_mode_reads_each_match`] says.
pub proof fn lemma_single_mode_results_come_from_matches(
    content: Seq<char>,
    line_num: usize,
    cp: CompiledPatternModel,
    file_path: Seq<char>,
    i: int,
)
    requires
        cp.capture_mode == CaptureMode::Single,
        0 <= i < extracted(content, line_num, cp, file_path).len(),
    ensures
        group_names() == seq!["object"@, "action"@, "level"@],
        exists|j: int|
            0 <= j < regex_captures(cp.regex, content, group_names()).len() && ({
                let row = #[trigger] regex_captures(cp.regex, content, group_names())[j];
                &&& group_at(row.2, 0) is Some
                &&& group_at(row.2, 1) is Some
                &&& extracted(content, line_num, cp, file_path)[i] == (ScanResultModel {
                    level: if cp.level == "$level"@ && group_at(row.2, 2) is Some {
                        group_at(row.2, 2)->0
                    } else {
                        cp.level
                    },
                    resource: group_at(row.2, 0)->0,
                    action: group_at(row.2, 1)->0,
                    source_file: file_path,
                    source_line: line_at(line_num, encode_utf8(content), row.0),
                    rule_id: cp.rule_id,
                })
            }),
{
    assert(group_names() =~= seq!["object"@, "action"@, "level"@]);
    let outer = regex_captures(cp.regex, content, group_names());
    let bytes = encode_utf8(content);
    lemma_matches_sound(outer, outer.len(), bytes, line_num, cp.level, cp.rule_id, file_path);
    let all = matches_results(outer, outer.len(), bytes, line_num, cp.level, cp.rule_id, file_path);
    assert(all[i] == extracted(content, line_num, cp, file_path)[i]);
    let j = choose|j: int|
        0 <= j < outer.len() && has_permission(outer[j]) && #[trigger] all[i] == match_permission(
            outer[j],
            line_at(line_num, bytes, outer[j].0),
            cp.level,
            cp.rule_id,
            file_path,
        );
}

/// Repeated mode: in the block of every match of the outer regex, every
/// match of the sub-regex, read with the same groups `object`, `action`
/// and `level` as single mode, in which `object` and `action` took part
/// gives a permission with those texts, at the line on which the block
/// starts; its level is the sub-match's `level` text where the pattern's
/// level is `$level` and that group took part, else the pattern's level.
pub proof fn lemma_repeated_mode_reads_each_sub_match(
    content: Seq<char>,
    line_num: usize,
    cp: CompiledPatternModel,
    file_path: Seq<char>,
    m: int,
    j: int,
)
    requires
        cp.capture_mode == CaptureMode::Repeated,
        cp.sub_regex is Some,
        0 <= m < regex_captures(cp.regex, content, seq!["object"@, "action"@, "level"@]).len(),
        0 <= j < regex_captures(
            cp.sub_regex->0,
            block_text(encode_utf8(content), regex_captures(cp.regex, content, seq!["object"@, "action"@, "level"@]), m),
            seq!["object"@, "action"@, "level"@],
        ).len(),
        group_at(
            regex_captures(
                cp.sub_regex->0,
                block_text(encode_utf8(content), regex_captures(cp.regex, content, seq!["object"@, "action"@, "level"@]), m),
                seq!["object"@, "action"@, "level"@],
            )[j].2,
            0,
        ) is Some,
        group_at(
            regex_captures(
                cp.sub_regex->0,
                block_text(encode_utf8(content), regex_captures(cp.regex, content, seq!["object"@, "action"@, "level"@]), m),
                seq!["object"@, "action"@, "level"@],
            )[j].2,
            1,
        ) is Some,
    ensures
        ({
            let names = seq!["object"@, "action"@, "level"@];
            let outer = regex_captures(cp.regex, content, names);
            let row = regex_captures(cp.sub_regex->0, block_text(encode_utf8(content), outer, m), names)[j];
            let lvl = if cp.level == "$level"@ && group_at(row.2, 2) is Some {
                group_at(row.2, 2)->0
            } else {
                cp.level
            };
            extracted(content, line_num, cp, file_path).contains(
                (ScanResultModel {
                    level: lvl,
                    resource: group_at(row.2, 0)->0,
                    action: group_at(row.2, 1)->0,
                    source_file: file_path,
                    source_line: line_at(line_num, encode_utf8(content), outer[m].0),
                    rule_id: cp.rule_id,
                }),
            )
        }),
{
    assert(group_names() =~= seq!["object"@, "action"@, "level"@]);
    let outer = regex_captures(cp.regex, content, group_names());
    lemma_blocks_complete(
        outer,
        outer.len(),
        m,
        j,
        encode_utf8(content),
        cp.sub_regex->0,
        line_num,
        cp.level,
        cp.rule_id,
        file_path,
    );
}

/// Repeated mode: every permission found comes from one sub-match, read
/// with the groups `object`, `action` and `level`, in the block of one
/// outer match, as [`lemma_repeated_mode_reads_each_sub_match`] says.
pub proof fn lemma_repeated_mode_results_come_from_sub_matches(
    content: Seq<char>,
    line_num: usize,
    cp: CompiledPatternModel,
    file_path: Seq<char>,
    i: int,
)
    requires
        cp.capture_mode == CaptureMode::Repeated,
        0 <= i < extracted(content, line_num, cp, file_path).len(),
    ensures
        cp.sub_regex is Some,
        group_names() == seq!["object"@, "action"@, "level"@],
        exists|m: int, j: int|
            #![trigger regex_captures(
                cp.sub_regex->0,
                block_text(encode_utf8(content), regex_captures(cp.regex, content, group_names()), m),
                group_names(),
            )[j]]
            0 <= m < regex_captures(cp.regex, content, group_names()).len() && ({
                let names = group_names();
                let outer = regex_captures(cp.regex, content, names);
                let rows = regex_captures(cp.sub_regex->0, block_text(encode_utf8(content), outer, m), names);
                &&& 0 <= j < rows.len()
                &&& group_at(rows[j].2, 0) is Some
                &&& group_at(rows[j].2, 1) is Some
                &&& extracted(content, line_num, cp, file_path)[i] == (ScanResultModel {
                    level: if cp.level == "$level"@ && group_at(rows[j].2, 2) is Some {
                        group_at(rows[j].2, 2)->0
                    } else {
                        cp.level
                    },
                    resource: group_at(rows[j].2, 0)->0,
                    action: group_at(rows[j].2, 1)->0,
                    source_file: file_path,
                    source_line: line_at(line_num, encode_utf8(content), outer[m].0),
                    rule_id: cp.rule_id,
                })
            }),
{
    assert(group_names() =~= seq!["object"@, "action"@, "level"@]);
    let outer = regex_captures(cp.regex, content, group_names());
    let bytes = encode_utf8(content);
    let sub = cp.sub_regex->0;
    lemma_blocks_sound(outer, outer.len(), bytes, sub, line_num, cp.level, cp.rule_id, file_path);
    let all = blocks_results(outer, outer.len(), bytes, sub, line_num, cp.level, cp.rule_id, file_path);
    assert(all[i] == extracted(content, line_num, cp, file_path)[i]);
    let (m, j) = choose|m: int, j: int|
        0 <= m < outer.len() && 0 <= j < regex_captures(sub, block_text(bytes, outer, m), group_names()).len()
            && has_permission(regex_captures(sub, block_text(bytes, outer, m), group_names())[j])
            && #[trigger] all[i] == match_permission(
            regex_captures(sub, block_text(bytes, outer, m), group_names())[j],
            line_at(line_num, bytes, outer[m].0),
            cp.level,
            cp.rule_id,
            file_path,
        );
}

/// The group names `object`, `action`, `level` as strings.
fn group_name_strings() -> (r: Vec<String>)
    ensures
        strings_view(r@) == group_names(),
{
    let mut v: Vec<String> = Vec::new();
    v.push(String::from_str("object"));
    v.push(String::from_str("action"));
    v.push(String::from_str("level"));
    assert(strings_view(v@) =~= group_names());
    v
}

/// The level of a permission: `captured` where `default` is `$level` and a
/// level was captured, else `default`.
pub fn resolve_level(default: &str, captured: Option<String>) -> (r: String)
    ensures
        r@ == resolved_level(default@, opt_view(captured)),
{
    match captured {
        Some(cap) => {
            if str_equal(default, "$level") {
                cap
            } else {
                String::from_str(default)
            }
        },
        None => String::from_str(default),
    }
}

/// The entry at `i` of a row's groups, or `None` past its end.
fn group_of(row: &CaptureRow, i: usize) -> (r: Option<String>)
    ensures
        opt_view(r) == group_at(row.view().2, i as int),
{
    if i < row.groups.len() {
        match &row.groups[i] {
            Some(s) => Some(s.clone()),
            None => None,
        }
    } else {
        None
    }
}

/// The permission of one match at line `line`, where both `object` and
/// `action` took part.
fn row_result(
    row: &CaptureRow,
    line: usize,
    default_level: &str,
    rule_id: &str,
    file_path: &str,
) -> (r: Option<ScanResult>)
    ensures
        row_results(row.view(), line, default_level@, rule_id@, file_path@) == match r {
            Some(x) => seq![x@],
            None => Seq::<ScanResultModel>::empty(),
        },
{
    let object = group_of(row, 0);
    let action = group_of(row, 1);
    match (object, action) {
        (Some(object), Some(action)) => {
            let level = resolve_level(default_level, group_of(row, 2));
            Some(
                ScanResult {
                    level,
                    resource: object,
                    action,
                    source_file: String::from_str(file_path),
                    source_line: line,
                    rule_id: String::from_str(rule_id),
                },
            )
        },
        _ => None,
    }
}

/// Appends `found` to `out`.
pub fn append_results(out: &mut Vec<ScanResult>, found: &Vec<ScanResult>)
    ensures
        results_view(final(out)@) == results_view(old(out)@) + results_view(found@),
{
    let mut k: usize = 0;
    while k < found.len()
        invariant
            k <= found@.len(),
            results_view(out@) == results_view(old(out)@) + results_view(found@).take(k as int),
        decreases found@.len() - k,
    {
        let ghost prev = out@;
        out.push(found[k].duplicate());
        proof {
            assert(results_view(out@) =~= results_view(prev).push(found@[k as int]@));
            assert(results_view(found@).take(k + 1) =~= results_view(found@).take(k as int).push(
                found@[k as int]@,
            ));
        }
        k = k + 1;
    }
    assert(results_view(found@).take(found@.len() as int) =~= results_view(found@));
}

/// The number of newlines before byte `offset` of `bytes` (clamped to its
/// length), counted on from `count` newlines before byte `pos`.
fn count_newlines_to(bytes: &[u8], pos: usize, count: usize, offset: usize) -> (r: (usize, usize))
    requires
        pos <= bytes@.len(),
        count == count_newlines(bytes@.take(pos as int)),
        count <= pos,
    ensures
        r.0 == clamp_offset(bytes@, offset),
        r.1 == count_newlines(bytes@.take(r.0 as int)),
        r.1 <= r.0,
{
    let target = if offset <= bytes.len() {
        offset
    } else {
        bytes.len()
    };
    let mut p: usize = pos;
    let mut c: usize = count;
    if target < pos {
        p = 0;
        c = 0;
        assert(bytes@.take(0) =~= Seq::<u8>::empty());
    }
    while p < target
        invariant
            p <= target <= bytes@.len(),
            c == count_newlines(bytes@.take(p as int)),
            c <= p,
        decreases target - p,
    {
        assert(bytes@.take(p + 1).drop_last() =~= bytes@.take(p as int));
        if bytes[p] == 10u8 {
            c = c + 1;
        }
        p = p + 1;
    }
    (p, c)
}

/// The line `line_num + newlines`, saturating at `usize::MAX`.
fn line_from(line_num: usize, newlines: usize) -> (r: usize)
    ensures
        r == (if line_num + newlines <= usize::MAX {
            (line_num + newlines) as usize
        } else {
            usize::MAX
        }),
{
    if line_num <= usize::MAX - newlines {
        line_num + newlines
    } else {
        usize::MAX
    }
}

/// The permissions of a sequence of regex matches over `content`, whose
/// groups are `object`, `action`, `level` in that order: one per match in
/// which both `object` and `action` took part, at the line on which the
/// match starts (the content's first line being `line_num`).
pub fn results_from_captures(
    rows: &Vec<CaptureRow>,
    content: &str,
    line_num: usize,
    default_level: &str,
    rule_id: &str,
    file_path: &str,
) -> (r: Vec<ScanResult>)
    ensures
        results_view(r@) == matches_results(
            rows_view(rows@),
            rows@.len(),
            content.spec_bytes(),
            line_num,
            default_level@,
            rule_id@,
            file_path@,
        ),
{
    let bytes = content.as_bytes();
    let mut out: Vec<ScanResult> = Vec::new();
    let mut pos: usize = 0;
    let mut count: usize = 0;
    let mut i: usize = 0;
    assert(bytes@.take(0) =~= Seq::<u8>::empty());
    while i < rows.len()
        invariant
            i <= rows@.len(),
            bytes@ == content.spec_bytes(),
            pos <= bytes@.len(),
            count == count_newlines(bytes@.take(pos as int)),
            count <= pos,
            results_view(out@) == matches_results(
                rows_view(rows@),
                i as nat,
                content.spec_bytes(),
                line_num,
                default_level@,
                rule_id@,
                file_path@,
            ),
        decreases rows@.len() - i,
    {
        let (p, c) = count_newlines_to(bytes, pos, count, rows[i].start);
        pos = p;
        count = c;
        let line = line_from(line_num, c);
        let ghost before = out@;
        match row_result(&rows[i], line, default_level, rule_id, file_path) {
            Some(x) => {
                out.push(x);
            },
            None => {},
        }
        proof {
            assert(rows_view(rows@)[i as int] == rows@[i as int].view());
            assert(line == line_at(line_num, content.spec_bytes(), rows@[i as int].start));
            assert(results_view(out@) =~= results_view(before) + row_results(
                rows@[i as int].view(),
                line,
                default_level@,
                rule_id@,
                file_path@,
            ));
        }
        i = i + 1;
    }
    out
}

/// The permissions of a sequence of regex matches whose groups are
/// `object`, `action`, `level` in that order, all at line `line`: one per
/// match in which both `object` and `action` took part.
pub fn results_at_line(
    rows: &Vec<CaptureRow>,
    line: usize,
    default_level: &str,
    rule_id: &str,
    file_path: &str,
) -> (r: Vec<ScanResult>)
    ensures
        results_view(r@) == rows_results(rows_view(rows@), line, default_level@, rule_id@, file_path@),
{
    let mut out: Vec<ScanResult> = Vec::new();
    let mut i: usize = 0;
    while i < rows.len()
        invariant
            i <= rows@.len(),
            results_view(out@) == rows_results(
                rows_view(rows@).take(i as int),
                line,
                default_level@,
                rule_id@,
                file_path@,
            ),
        decreases rows@.len() - i,
    {
        let ghost before = out@;
        match row_result(&rows[i], line, default_level, rule_id, file_path) {
            Some(x) => {
                out.push(x);
            },
            None => {},
        }
        proof {
            let rv = rows_view(rows@);
            assert(rv.take(i + 1).drop_last() =~= rv.take(i as int));
            assert(rv.take(i + 1).last() == rows@[i as int].view());
            assert(results_view(out@) =~= results_view(before) + row_results(
                rows@[i as int].view(),
                line,
                default_level@,
                rule_id@,
                file_path@,
            ));
        }
        i = i + 1;
    }
    assert(rows_view(rows@).take(rows@.len() as int) =~= rows_view(rows@));
    out
}

/// Where the block of a match spanning `bytes[s..e)` ends (see
/// [`block_end`]).
fn find_block_end(bytes: &[u8], s: usize, e: usize) -> (r: usize)
    requires
        s <= e <= bytes@.len(),
    ensures
        r == block_end(bytes@, s as int, e as int),
{
    let mut p: usize = s;
    let mut o: usize = 0;
    let mut c: usize = 0;
    while p < e
        invariant
            s <= p <= e <= bytes@.len(),
            o == opens(bytes@, s as int, p as int),
            c == closes(bytes@, s as int, p as int),
            o <= p - s,
            c <= p - s,
        decreases e - p,
    {
        if bytes[p] == 123u8 {
            o = o + 1;
        }
        if bytes[p] == 125u8 {
            c = c + 1;
        }
        p = p + 1;
    }
    if o <= c {
        return e;
    }
    while p < bytes.len()
        invariant
            s <= e <= p <= bytes@.len(),
            o == opens(bytes@, s as int, p as int),
            c == closes(bytes@, s as int, p as int),
            o <= p - s,
            c <= p - s,
            !braces_closed(bytes@, s as int, p as int),
            block_end(bytes@, s as int, e as int) == closing_from(bytes@, s as int, p as int),
        decreases bytes@.len() - p,
    {
        if bytes[p] == 123u8 {
            o = o + 1;
        }
        if bytes[p] == 125u8 {
            c = c + 1;
        }
        p = p + 1;
        if o <= c {
            return p;
        }
    }
    bytes.len()
}

/// Repeated mode: the block of outer match `i` in `content` (see
/// [`block_text`]).
pub fn block_of<'a>(content: &'a str, outer: &Vec<CaptureRow>, i: usize) -> (r: &'a str)
    requires
        i < outer@.len(),
    ensures
        r@ == block_text(content.spec_bytes(), rows_view(outer@), i as int),
{
    broadcast use vstd::utf8::encode_utf8_decode_utf8;

    let bytes = content.as_bytes();
    let ghost ov = rows_view(outer@);
    assert(ov[i as int] == outer@[i as int].view());
    let start = outer[i].start;
    if start > bytes.len() || !content.is_char_boundary(start) {
        proof {
            reveal_strlit("");
            assert(decode_utf8(Seq::<u8>::empty()) =~= Seq::<char>::empty());
        }
        return "";
    }
    let whole = outer[i].whole.as_str();
    let wlen = whole.as_bytes().len();
    assert(whole@ == outer@[i as int].whole@);
    let e = if wlen <= bytes.len() - start {
        start + wlen
    } else {
        bytes.len()
    };
    assert(e == match_end(bytes@, start, outer@[i as int].whole@));
    let end = find_block_end(bytes, start, e);
    let (_, rest) = content.split_at(start);
    assert(rest@ == decode_utf8(rest.spec_bytes()));
    if start <= end && rest.is_char_boundary(end - start) {
        let (block, _) = rest.split_at(end - start);
        assert(block@ == decode_utf8(block.spec_bytes()));
        return block;
    }
    rest
}

impl CompiledPattern {
    /// Compiles the regexes of `pattern` for the rule `rule_id`.
    ///
    /// Fails with the first regex that does not compile: the main regex,
    /// then the sub-pattern.
    pub fn compile(rule_id: &str, pattern: &PatternDef) -> (r: Result<CompiledPattern, CompileError>)
        ensures
            r is Ok <==> pattern_compiles(*pattern),
            r matches Ok(cp) ==> cp@ == compiled_model(rule_id@, *pattern),
            r matches Err(CompileError::InvalidRegex { pattern: src, .. }) ==> src@ == (if !regex_compiles(
                pattern.regex@,
            ) {
                pattern.regex@
            } else {
                pattern.sub_pattern->0@
            }),
    {
        let regex = match CompiledRegex::new(pattern.regex.as_str()) {
            Ok(re) => re,
            Err(e) => {
                return Err(
                    CompileError::InvalidRegex {
                        pattern: pattern.regex.clone(),
                        message: regex_error_message(&e),
                    },
                );
            },
        };
        let sub_regex = match &pattern.sub_pattern {
            Some(sp) => match CompiledRegex::new(sp.as_str()) {
                Ok(re) => Some(re),
                Err(e) => {
                    return Err(
                        CompileError::InvalidRegex { pattern: sp.clone(), message: regex_error_message(&e) },
                    );
                },
            },
            None => None,
        };
        Ok(
            CompiledPattern {
                rule_id: String::from_str(rule_id),
                level: pattern.level.clone(),
                regex,
                capture_mode: pattern.capture_mode,
                sub_regex,
            },
        )
    }
}

/// All permissions that `compiled` finds in `content`, each recorded at
/// `file_path` and at the line on which it was found, the content's first
/// line being `line_num`.
///
/// Single mode: one per match of the regex with `object` and `action`, at
/// the line where the match starts. Repeated mode: each match of the regex
/// opens a block that runs up to the next match (or the end of the content);
/// one permission per match of the sub-regex in the block, at the line
/// where the block starts; nothing without a sub-regex.
pub fn extract_matches(
    content: &str,
    line_num: usize,
    compiled: &CompiledPattern,
    file_path: &str,
) -> (r: Vec<ScanResult>)
    ensures
        results_view(r@) == extracted(content@, line_num, compiled@, file_path@),
{
    let names = group_name_strings();
    let outer = compiled.regex.captures(content, &names);
    match compiled.capture_mode {
        CaptureMode::Single => {
            results_from_captures(
                &outer,
                content,
                line_num,
                compiled.level.as_str(),
                compiled.rule_id.as_str(),
                file_path,
            )
        },
        CaptureMode::Repeated => {
            match &compiled.sub_regex {
                Some(sub) => {
                    let bytes = content.as_bytes();
                    let mut out: Vec<ScanResult> = Vec::new();
                    let mut i: usize = 0;
                    while i < outer.len()
                        invariant
                            i <= outer@.len(),
                            bytes@ == content.spec_bytes(),
                            strings_view(names@) == group_names(),
                            results_view(out@) == blocks_results(
                                rows_view(outer@),
                                i as nat,
                                content.spec_bytes(),
                                sub.source(),
                                line_num,
                                compiled.level@,
                                compiled.rule_id@,
                                file_path@,
                            ),
                        decreases outer@.len() - i,
                    {
                        let block = block_of(content, &outer, i);
                        let inner = sub.captures(block, &names);
                        assert(bytes@.take(0) =~= Seq::<u8>::empty());
                        let (_, newlines) = count_newlines_to(bytes, 0, 0, outer[i].start);
                        let line = line_from(line_num, newlines);
                        let found = results_at_line(
                            &inner,
                            line,
                            compiled.level.as_str(),
                            compiled.rule_id.as_str(),
                            file_path,
                        );
                        proof {
                            assert(rows_view(outer@)[i as int] == outer@[i as int].view());
                        }
                        append_results(&mut out, &found);
                        i = i + 1;
                    }
                    out
                },
                None => Vec::new(),
            }
        },
    }
}

} // verus!
