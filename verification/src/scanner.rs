//! Scanning one file: which compiled rules apply to its path, and what
//! their patterns find in its content.
use vstd::prelude::*;

use crate::config::{AegisConfig, ScanRule};
use crate::matcher::{glob_compiles, glob_matches, CompiledGlob};
use crate::catalog::{lemma_unregistered_exact, result_key_of, unregistered_of};
use crate::pattern::{
    append_results, compiled_model, extract_matches, extracted, lemma_extracted_found_at,
    pattern_compiles, results_view, CompiledPattern, CompiledPatternModel, ScanResult, ScanResultModel,
};
use crate::text::{contains_string, strings_view};

verus! {

/// A rule whose patterns compiled: the file globs and the patterns.
pub struct CompiledRule {
    pub files: Vec<String>,
    pub patterns: Vec<CompiledPattern>,
}

/// The mathematical value of a compiled rule: globs and pattern models.
pub open spec fn rule_view(r: CompiledRule) -> (Seq<Seq<char>>, Seq<CompiledPatternModel>) {
    (strings_view(r.files@), r.patterns@.map_values(|p: CompiledPattern| p@))
}

/// The views of a sequence of compiled rules.
pub open spec fn rules_view(rules: Seq<CompiledRule>) -> Seq<(Seq<Seq<char>>, Seq<CompiledPatternModel>)> {
    rules.map_values(|r: CompiledRule| rule_view(r))
}

/// The patterns of a rule that compile, in order, compiled for `rule_id`.
pub open spec fn compiled_patterns_of(rule_id: Seq<char>, defs: Seq<crate::config::PatternDef>) -> Seq<CompiledPatternModel>
    decreases defs.len(),
{
    if defs.len() == 0 {
        seq![]
    } else {
        let prev = compiled_patterns_of(rule_id, defs.drop_last());
        if pattern_compiles(defs.last()) {
            prev.push(compiled_model(rule_id, defs.last()))
        } else {
            prev
        }
    }
}

/// The rules of the configuration that are not ignored and have at least
/// one pattern that compiles, in order, each with its compiled patterns.
pub open spec fn compiled_rules_of(rules: Seq<ScanRule>, ignore: Seq<Seq<char>>) -> Seq<(Seq<Seq<char>>, Seq<CompiledPatternModel>)>
    decreases rules.len(),
{
    if rules.len() == 0 {
        seq![]
    } else {
        let prev = compiled_rules_of(rules.drop_last(), ignore);
        let rule = rules.last();
        let patterns = compiled_patterns_of(rule.id@, rule.patterns@);
        if ignore.contains(rule.id@) || patterns.len() == 0 {
            prev
        } else {
            prev.push((strings_view(rule.files@), patterns))
        }
    }
}

/// Whether some glob of `globs` compiles and matches `path`.
pub open spec fn globs_match(globs: Seq<Seq<char>>, path: Seq<char>) -> bool {
    exists|i: int| 0 <= i < globs.len() && glob_compiles(globs[i]) && #[trigger] glob_matches(globs[i], path)
}

/// The patterns of the rules whose globs match `path`, rule by rule.
pub open spec fn applicable_of(rules: Seq<(Seq<Seq<char>>, Seq<CompiledPatternModel>)>, path: Seq<char>) -> Seq<CompiledPatternModel>
    decreases rules.len(),
{
    if rules.len() == 0 {
        seq![]
    } else {
        let prev = applicable_of(rules.drop_last(), path);
        if globs_match(rules.last().0, path) {
            prev + rules.last().1
        } else {
            prev
        }
    }
}

/// What the patterns find in `content` at `path` (its first line being
/// line 1), pattern by pattern.
pub open spec fn file_results_of(
    patterns: Seq<CompiledPatternModel>,
    content: Seq<char>,
    path: Seq<char>,
) -> Seq<ScanResultModel>
    decreases patterns.len(),
{
    if patterns.len() == 0 {
        seq![]
    } else {
        file_results_of(patterns.drop_last(), content, path) + extracted(content, 1, patterns.last(), path)
    }
}

/// Compiles the rules of `config`: ignored rules are left out, patterns
/// whose regexes do not compile are dropped, and so are rules left with no
/// pattern.
pub fn compile_rules(config: &AegisConfig, ignore_rules: &[String]) -> (r: Vec<CompiledRule>)
    ensures
        rules_view(r@) == compiled_rules_of(config.rules@, strings_view(ignore_rules@)),
{
    let ignore = copy_slice(ignore_rules);
    let mut out: Vec<CompiledRule> = Vec::new();
    let mut i: usize = 0;
    while i < config.rules.len()
        invariant
            i <= config.rules@.len(),
            strings_view(ignore@) == strings_view(ignore_rules@),
            rules_view(out@) == compiled_rules_of(config.rules@.take(i as int), strings_view(ignore_rules@)),
        decreases config.rules@.len() - i,
    {
        let rule = &config.rules[i];
        let ghost prev = out@;
        proof {
            assert(config.rules@.take(i + 1).drop_last() =~= config.rules@.take(i as int));
            assert(config.rules@.take(i + 1).last() == config.rules@[i as int]);
        }
        if !contains_string(&ignore, &rule.id) {
            let mut patterns: Vec<CompiledPattern> = Vec::new();
            let mut j: usize = 0;
            while j < rule.patterns.len()
                invariant
                    j <= rule.patterns@.len(),
                    patterns@.map_values(|p: CompiledPattern| p@) == compiled_patterns_of(
                        rule.id@,
                        rule.patterns@.take(j as int),
                    ),
                decreases rule.patterns@.len() - j,
            {
                let ghost before = patterns@;
                match CompiledPattern::compile(rule.id.as_str(), &rule.patterns[j]) {
                    Ok(cp) => {
                        patterns.push(cp);
                        assert(patterns@.map_values(|p: CompiledPattern| p@) =~= before.map_values(
                            |p: CompiledPattern| p@,
                        ).push(compiled_model(rule.id@, rule.patterns@[j as int])));
                    },
                    Err(_) => {},
                }
                proof {
                    assert(rule.patterns@.take(j + 1).drop_last() =~= rule.patterns@.take(j as int));
                    assert(rule.patterns@.take(j + 1).last() == rule.patterns@[j as int]);
                }
                j = j + 1;
            }
            assert(rule.patterns@.take(rule.patterns@.len() as int) =~= rule.patterns@);
            if patterns.len() > 0 {
                let files = copy_slice(rule.files.as_slice());
                out.push(CompiledRule { files, patterns });
                assert(rules_view(out@) =~= rules_view(prev).push(
                    (strings_view(rule.files@), compiled_patterns_of(rule.id@, rule.patterns@)),
                ));
            }
        }
        i = i + 1;
    }
    assert(config.rules@.take(config.rules@.len() as int) =~= config.rules@);
    out
}

/// A copy of a slice of strings.
fn copy_slice(v: &[String]) -> (r: Vec<String>)
    ensures
        strings_view(r@) == strings_view(v@),
{
    let mut out: Vec<String> = Vec::new();
    let mut i: usize = 0;
    while i < v.len()
        invariant
            i <= v@.len(),
            strings_view(out@) == strings_view(v@).take(i as int),
        decreases v@.len() - i,
    {
        let ghost prev = out@;
        let c = v[i].clone();
        out.push(c);
        assert(strings_view(out@) =~= strings_view(prev).push(v@[i as int]@));
        assert(strings_view(out@) =~= strings_view(v@).take(i + 1));
        i = i + 1;
    }
    assert(strings_view(v@).take(v@.len() as int) =~= strings_view(v@));
    out
}

/// Whether some glob of `files` compiles and matches `path`; globs that
/// do not compile match nothing.
pub fn rule_applies(files: &Vec<String>, path: &str) -> (r: bool)
    ensures
        r == globs_match(strings_view(files@), path@),
{
    let mut i: usize = 0;
    while i < files.len()
        invariant
            i <= files@.len(),
            forall|j: int|
                0 <= j < i ==> !(glob_compiles(files@[j]@) && #[trigger] glob_matches(files@[j]@, path@)),
        decreases files@.len() - i,
    {
        match CompiledGlob::new(files[i].as_str()) {
            Ok(g) => {
                if g.matches(path) {
                    assert(strings_view(files@)[i as int] == files@[i as int]@);
                    return true;
                }
            },
            Err(_) => {},
        }
        i = i + 1;
    }
    assert(!globs_match(strings_view(files@), path@)) by {
        if globs_match(strings_view(files@), path@) {
            let j = choose|j: int|
                0 <= j < strings_view(files@).len() && glob_compiles(strings_view(files@)[j])
                    && #[trigger] glob_matches(strings_view(files@)[j], path@);
            assert(strings_view(files@)[j] == files@[j]@);
        }
    }
    false
}

/// Whether any pattern of the rules applies to `path`.
pub fn applies_to(rules: &Vec<CompiledRule>, path: &str) -> (r: bool)
    ensures
        r == (applicable_of(rules_view(rules@), path@).len() > 0),
{
    let mut i: usize = 0;
    while i < rules.len()
        invariant
            i <= rules@.len(),
            applicable_of(rules_view(rules@).take(i as int), path@).len() == 0,
        decreases rules@.len() - i,
    {
        let rv = Ghost(rules_view(rules@));
        proof {
            assert(rv@.take(i + 1).drop_last() =~= rv@.take(i as int));
            assert(rv@.take(i + 1).last() == rule_view(rules@[i as int]));
        }
        if rule_applies(&rules[i].files, path) && rules[i].patterns.len() > 0 {
            proof {
                lemma_applicable_prefix(rv@, path@, i + 1);
            }
            return true;
        }
        i = i + 1;
    }
    assert(rules_view(rules@).take(rules@.len() as int) =~= rules_view(rules@));
    false
}

/// The applicable patterns of a prefix of the rules come first.
proof fn lemma_applicable_prefix(rules: Seq<(Seq<Seq<char>>, Seq<CompiledPatternModel>)>, path: Seq<char>, k: int)
    requires
        0 <= k <= rules.len(),
    ensures
        applicable_of(rules.take(k), path).len() <= applicable_of(rules, path).len(),
    decreases rules.len(),
{
    if k < rules.len() {
        assert(rules.drop_last().take(k) =~= rules.take(k));
        lemma_applicable_prefix(rules.drop_last(), path, k);
    } else {
        assert(rules.take(k) =~= rules);
    }
}

/// What the compiled rules find in one file: for each rule whose globs
/// match `path`, in order, what each of its patterns finds in `content`,
/// each result recorded at `path` and at the line (counted from 1) on which
/// it was found.
pub fn scan_file(rules: &Vec<CompiledRule>, path: &str, content: &str) -> (r: Vec<ScanResult>)
    ensures
        results_view(r@) == file_results_of(applicable_of(rules_view(rules@), path@), content@, path@),
{
    let mut out: Vec<ScanResult> = Vec::new();
    let mut i: usize = 0;
    while i < rules.len()
        invariant
            i <= rules@.len(),
            results_view(out@) == file_results_of(
                applicable_of(rules_view(rules@).take(i as int), path@),
                content@,
                path@,
            ),
        decreases rules@.len() - i,
    {
        let ghost rv = rules_view(rules@);
        let ghost prefix = applicable_of(rv.take(i as int), path@);
        proof {
            assert(rv.take(i + 1).drop_last() =~= rv.take(i as int));
            assert(rv.take(i + 1).last() == rule_view(rules@[i as int]));
        }
        if rule_applies(&rules[i].files, path) {
            let rule = &rules[i];
            let ghost pats = rule.patterns@.map_values(|p: CompiledPattern| p@);
            let mut j: usize = 0;
            assert(prefix + pats.take(0) =~= prefix);
            while j < rule.patterns.len()
                invariant
                    j <= rule.patterns@.len(),
                    pats == rule.patterns@.map_values(|p: CompiledPattern| p@),
                    results_view(out@) == file_results_of(prefix + pats.take(j as int), content@, path@),
                decreases rule.patterns@.len() - j,
            {
                let found = extract_matches(content, 1, &rule.patterns[j], path);
                append_results(&mut out, &found);
                proof {
                    assert((prefix + pats.take(j + 1)).drop_last() =~= prefix + pats.take(j as int));
                    assert((prefix + pats.take(j + 1)).last() == rule.patterns@[j as int]@);
                }
                j = j + 1;
            }
            assert(pats.take(rule.patterns@.len() as int) =~= pats);
        }
        i = i + 1;
    }
    assert(rules_view(rules@).take(rules@.len() as int) =~= rules_view(rules@));
    out
}

/// The views of a list of files, each a path and a content.
pub open spec fn files_view(files: Seq<(String, String)>) -> Seq<(Seq<char>, Seq<char>)> {
    files.map_values(|f: (String, String)| (f.0@, f.1@))
}

/// What the compiled rules find in a list of files, file by file in order
/// (see [`scan_file`]).
pub open spec fn files_results(
    rules: Seq<(Seq<Seq<char>>, Seq<CompiledPatternModel>)>,
    files: Seq<(Seq<char>, Seq<char>)>,
) -> Seq<ScanResultModel>
    decreases files.len(),
{
    if files.len() == 0 {
        seq![]
    } else {
        let f = files.last();
        files_results(rules, files.drop_last()) + file_results_of(applicable_of(rules, f.0), f.1, f.0)
    }
}

/// What the compiled rules find in a list of files, each given by its path
/// relative to the scan root and its content: the results of each file in
/// turn (see [`scan_file`]).
pub fn scan_files(rules: &Vec<CompiledRule>, files: &[(String, String)]) -> (r: Vec<ScanResult>)
    ensures
        results_view(r@) == files_results(rules_view(rules@), files_view(files@)),
{
    let mut out: Vec<ScanResult> = Vec::new();
    let mut i: usize = 0;
    while i < files.len()
        invariant
            i <= files@.len(),
            results_view(out@) == files_results(rules_view(rules@), files_view(files@).take(i as int)),
        decreases files@.len() - i,
    {
        let found = scan_file(rules, files[i].0.as_str(), files[i].1.as_str());
        append_results(&mut out, &found);
        proof {
            let fv = files_view(files@);
            assert(fv.take(i + 1).drop_last() =~= fv.take(i as int));
            assert(fv.take(i + 1).last() == (files@[i as int].0@, files@[i as int].1@));
        }
        i = i + 1;
    }
    assert(files_view(files@).take(files@.len() as int) =~= files_view(files@));
    out
}

/// Whether no pattern belongs to an ignored rule.
pub open spec fn none_ignored(patterns: Seq<CompiledPatternModel>, ignore: Seq<Seq<char>>) -> bool {
    forall|k: int| 0 <= k < patterns.len() ==> !ignore.contains(#[trigger] patterns[k].rule_id)
}

proof fn lemma_compiled_patterns_rule(rule_id: Seq<char>, defs: Seq<crate::config::PatternDef>)
    ensures
        forall|k: int|
            0 <= k < compiled_patterns_of(rule_id, defs).len() ==> (#[trigger] compiled_patterns_of(
                rule_id,
                defs,
            )[k]).rule_id == rule_id,
    decreases defs.len(),
{
    if defs.len() > 0 {
        lemma_compiled_patterns_rule(rule_id, defs.drop_last());
    }
}

proof fn lemma_compiled_rules_clear(rules: Seq<ScanRule>, ignore: Seq<Seq<char>>)
    ensures
        forall|r: int|
            0 <= r < compiled_rules_of(rules, ignore).len() ==> none_ignored(
                (#[trigger] compiled_rules_of(rules, ignore)[r]).1,
                ignore,
            ),
    decreases rules.len(),
{
    if rules.len() > 0 {
        lemma_compiled_rules_clear(rules.drop_last(), ignore);
        let rule = rules.last();
        let patterns = compiled_patterns_of(rule.id@, rule.patterns@);
        lemma_compiled_patterns_rule(rule.id@, rule.patterns@);
        let prev = compiled_rules_of(rules.drop_last(), ignore);
        if !(ignore.contains(rule.id@) || patterns.len() == 0) {
            let all = prev.push((strings_view(rule.files@), patterns));
            assert(compiled_rules_of(rules, ignore) == all);
            assert forall|r: int| 0 <= r < all.len() implies none_ignored((#[trigger] all[r]).1, ignore) by {
                if r < prev.len() {
                    assert(all[r] == prev[r]);
                } else {
                    assert forall|k: int| 0 <= k < patterns.len() implies !ignore.contains(
                        #[trigger] patterns[k].rule_id,
                    ) by {
                        assert(patterns[k].rule_id == rule.id@);
                    }
                }
            }
        }
    }
}

proof fn lemma_applicable_clear(
    rules: Seq<(Seq<Seq<char>>, Seq<CompiledPatternModel>)>,
    path: Seq<char>,
    ignore: Seq<Seq<char>>,
)
    requires
        forall|r: int| 0 <= r < rules.len() ==> none_ignored((#[trigger] rules[r]).1, ignore),
    ensures
        none_ignored(applicable_of(rules, path), ignore),
    decreases rules.len(),
{
    if rules.len() > 0 {
        let prev = rules.drop_last();
        assert forall|r: int| 0 <= r < prev.len() implies none_ignored((#[trigger] prev[r]).1, ignore) by {
            assert(prev[r] == rules[r]);
        }
        lemma_applicable_clear(prev, path, ignore);
        let a = applicable_of(prev, path);
        let b = rules.last().1;
        assert(none_ignored(b, ignore)) by {
            assert(rules.last() == rules[rules.len() - 1]);
        }
        assert forall|k: int| 0 <= k < (a + b).len() implies !ignore.contains(#[trigger] (a + b)[k].rule_id) by {
            if k < a.len() {
                assert((a + b)[k] == a[k]);
            } else {
                assert((a + b)[k] == b[k - a.len()]);
            }
        }
    }
}

/// Whether every result was found at `path`, on a line numbered from 1, by
/// a rule not in `ignore`.
pub open spec fn found_outside_ignored(results: Seq<ScanResultModel>, path: Seq<char>, ignore: Seq<Seq<char>>) -> bool {
    forall|i: int|
        0 <= i < results.len() ==> {
            &&& (#[trigger] results[i]).source_file == path
            &&& results[i].source_line >= 1
            &&& !ignore.contains(results[i].rule_id)
        }
}

proof fn lemma_file_results_clear(
    patterns: Seq<CompiledPatternModel>,
    content: Seq<char>,
    path: Seq<char>,
    ignore: Seq<Seq<char>>,
)
    requires
        none_ignored(patterns, ignore),
    ensures
        found_outside_ignored(file_results_of(patterns, content, path), path, ignore),
    decreases patterns.len(),
{
    if patterns.len() > 0 {
        let last = patterns.last();
        assert(patterns.last() == patterns[patterns.len() - 1]);
        assert(none_ignored(patterns.drop_last(), ignore)) by {
            assert forall|k: int| 0 <= k < patterns.drop_last().len() implies !ignore.contains(
                #[trigger] patterns.drop_last()[k].rule_id,
            ) by {
                assert(patterns.drop_last()[k] == patterns[k]);
            }
        }
        lemma_file_results_clear(patterns.drop_last(), content, path, ignore);
        lemma_extracted_found_at(content, 1, last, path);
        let a = file_results_of(patterns.drop_last(), content, path);
        let b = extracted(content, 1, last, path);
        assert forall|i: int| 0 <= i < (a + b).len() implies {
            &&& (#[trigger] (a + b)[i]).source_file == path
            &&& (a + b)[i].source_line >= 1
            &&& !ignore.contains((a + b)[i].rule_id)
        } by {
            if i < a.len() {
                assert((a + b)[i] == a[i]);
            } else {
                assert((a + b)[i] == b[i - a.len()]);
            }
        }
    }
}

/// Scanning a file with the rules compiled from a configuration yields
/// nothing from an ignored rule, and records every result at the file's
/// path, on a line numbered from 1.
pub proof fn lemma_ignored_rules_find_nothing(
    rules: Seq<ScanRule>,
    ignore: Seq<Seq<char>>,
    path: Seq<char>,
    content: Seq<char>,
)
    ensures
        found_outside_ignored(
            file_results_of(applicable_of(compiled_rules_of(rules, ignore), path), content, path),
            path,
            ignore,
        ),
{
    lemma_compiled_rules_clear(rules, ignore);
    lemma_applicable_clear(compiled_rules_of(rules, ignore), path, ignore);
    lemma_file_results_clear(applicable_of(compiled_rules_of(rules, ignore), path), content, path, ignore);
}

/// What scanning one file finds with the rules of a configuration, when
/// the rules in `ignore` are left out.
pub open spec fn file_scan(
    rules: Seq<ScanRule>,
    ignore: Seq<Seq<char>>,
    path: Seq<char>,
    content: Seq<char>,
) -> Seq<ScanResultModel> {
    file_results_of(applicable_of(compiled_rules_of(rules, ignore), path), content, path)
}

/// The results whose rule is not in `ignore`, in order.
pub open spec fn results_outside(results: Seq<ScanResultModel>, ignore: Seq<Seq<char>>) -> Seq<ScanResultModel>
    decreases results.len(),
{
    if results.len() == 0 {
        seq![]
    } else {
        let prev = results_outside(results.drop_last(), ignore);
        if ignore.contains(results.last().rule_id) {
            prev
        } else {
            prev.push(results.last())
        }
    }
}

/// What one rule contributes to a file's scan: what its compiled patterns
/// find, where it is not ignored, has a compiled pattern and a glob of it
/// matches the path.
pub open spec fn rule_contribution(
    rule: ScanRule,
    ignore: Seq<Seq<char>>,
    path: Seq<char>,
    content: Seq<char>,
) -> Seq<ScanResultModel> {
    let patterns = compiled_patterns_of(rule.id@, rule.patterns@);
    if ignore.contains(rule.id@) || patterns.len() == 0 || !globs_match(strings_view(rule.files@), path) {
        seq![]
    } else {
        file_results_of(patterns, content, path)
    }
}

proof fn lemma_file_results_concat(
    a: Seq<CompiledPatternModel>,
    b: Seq<CompiledPatternModel>,
    content: Seq<char>,
    path: Seq<char>,
)
    ensures
        file_results_of(a + b, content, path) == file_results_of(a, content, path) + file_results_of(
            b,
            content,
            path,
        ),
    decreases b.len(),
{
    if b.len() == 0 {
        assert(a + b =~= a);
    } else {
        lemma_file_results_concat(a, b.drop_last(), content, path);
        assert((a + b).drop_last() =~= a + b.drop_last());
        assert((a + b).last() == b.last());
    }
}

proof fn lemma_file_scan_step(rules: Seq<ScanRule>, ignore: Seq<Seq<char>>, path: Seq<char>, content: Seq<char>)
    requires
        rules.len() > 0,
    ensures
        file_scan(rules, ignore, path, content) == file_scan(rules.drop_last(), ignore, path, content)
            + rule_contribution(rules.last(), ignore, path, content),
{
    let rule = rules.last();
    let prev = compiled_rules_of(rules.drop_last(), ignore);
    let patterns = compiled_patterns_of(rule.id@, rule.patterns@);
    let pa = applicable_of(prev, path);
    if ignore.contains(rule.id@) || patterns.len() == 0 {
        assert(file_results_of(pa, content, path) + Seq::<ScanResultModel>::empty() =~= file_results_of(
            pa,
            content,
            path,
        ));
    } else {
        let e = (strings_view(rule.files@), patterns);
        assert(prev.push(e).drop_last() =~= prev);
        assert(prev.push(e).last() == e);
        if globs_match(e.0, path) {
            lemma_file_results_concat(pa, patterns, content, path);
        } else {
            assert(file_results_of(pa, content, path) + Seq::<ScanResultModel>::empty() =~= file_results_of(
                pa,
                content,
                path,
            ));
        }
    }
}

proof fn lemma_results_outside_concat(a: Seq<ScanResultModel>, b: Seq<ScanResultModel>, ignore: Seq<Seq<char>>)
    ensures
        results_outside(a + b, ignore) == results_outside(a, ignore) + results_outside(b, ignore),
    decreases b.len(),
{
    if b.len() == 0 {
        assert(a + b =~= a);
        assert(results_outside(a, ignore) + Seq::<ScanResultModel>::empty() =~= results_outside(a, ignore));
    } else {
        lemma_results_outside_concat(a, b.drop_last(), ignore);
        assert((a + b).drop_last() =~= a + b.drop_last());
        assert((a + b).last() == b.last());
        let pa = results_outside(a, ignore);
        let pb = results_outside(b.drop_last(), ignore);
        if !ignore.contains(b.last().rule_id) {
            assert((pa + pb).push(b.last()) =~= pa + pb.push(b.last()));
        }
    }
}

/// Results that all come from rule `id` are kept whole or dropped whole.
proof fn lemma_results_outside_one_rule(results: Seq<ScanResultModel>, id: Seq<char>, ignore: Seq<Seq<char>>)
    requires
        forall|i: int| 0 <= i < results.len() ==> (#[trigger] results[i]).rule_id == id,
    ensures
        results_outside(results, ignore) == (if ignore.contains(id) {
            Seq::<ScanResultModel>::empty()
        } else {
            results
        }),
    decreases results.len(),
{
    if results.len() > 0 {
        let prev = results.drop_last();
        assert forall|i: int| 0 <= i < prev.len() implies (#[trigger] prev[i]).rule_id == id by {
            assert(prev[i] == results[i]);
        }
        lemma_results_outside_one_rule(prev, id, ignore);
        assert(results[results.len() - 1].rule_id == id);
        assert(prev.push(results.last()) =~= results);
    }
}

proof fn lemma_file_results_rule(patterns: Seq<CompiledPatternModel>, id: Seq<char>, content: Seq<char>, path: Seq<char>)
    requires
        forall|k: int| 0 <= k < patterns.len() ==> (#[trigger] patterns[k]).rule_id == id,
    ensures
        forall|i: int|
            0 <= i < file_results_of(patterns, content, path).len() ==> (#[trigger] file_results_of(
                patterns,
                content,
                path,
            )[i]).rule_id == id,
    decreases patterns.len(),
{
    if patterns.len() > 0 {
        let prev = patterns.drop_last();
        assert forall|k: int| 0 <= k < prev.len() implies (#[trigger] prev[k]).rule_id == id by {
            assert(prev[k] == patterns[k]);
        }
        lemma_file_results_rule(prev, id, content, path);
        assert(patterns[patterns.len() - 1].rule_id == id);
        lemma_extracted_found_at(content, 1, patterns.last(), path);
        let a = file_results_of(prev, content, path);
        let b = extracted(content, 1, patterns.last(), path);
        assert forall|i: int| 0 <= i < (a + b).len() implies (#[trigger] (a + b)[i]).rule_id == id by {
            if i < a.len() {
                assert((a + b)[i] == a[i]);
            } else {
                assert((a + b)[i] == b[i - a.len()]);
            }
        }
    }
}

/// Leaving out more rules only takes results away: where every rule in
/// `fewer` is also in `more`, the scan that ignores `more` is the scan that
/// ignores `fewer` without the results of the rules in `more`.
pub proof fn lemma_ignoring_more_rules(
    rules: Seq<ScanRule>,
    fewer: Seq<Seq<char>>,
    more: Seq<Seq<char>>,
    path: Seq<char>,
    content: Seq<char>,
)
    requires
        forall|id: Seq<char>| fewer.contains(id) ==> more.contains(id),
    ensures
        file_scan(rules, more, path, content) == results_outside(file_scan(rules, fewer, path, content), more),
    decreases rules.len(),
{
    if rules.len() == 0 {
        assert(file_scan(rules, more, path, content) =~= Seq::<ScanResultModel>::empty());
        assert(file_scan(rules, fewer, path, content) =~= Seq::<ScanResultModel>::empty());
    } else {
        let rule = rules.last();
        let prev = rules.drop_last();
        lemma_ignoring_more_rules(prev, fewer, more, path, content);
        lemma_file_scan_step(rules, fewer, path, content);
        lemma_file_scan_step(rules, more, path, content);
        lemma_results_outside_concat(
            file_scan(prev, fewer, path, content),
            rule_contribution(rule, fewer, path, content),
            more,
        );
        let patterns = compiled_patterns_of(rule.id@, rule.patterns@);
        lemma_compiled_patterns_rule(rule.id@, rule.patterns@);
        lemma_file_results_rule(patterns, rule.id@, content, path);
        let c = rule_contribution(rule, fewer, path, content);
        assert forall|i: int| 0 <= i < c.len() implies (#[trigger] c[i]).rule_id == rule.id@ by {
            assert(c.len() > 0);
        }
        lemma_results_outside_one_rule(c, rule.id@, more);
        if fewer.contains(rule.id@) {
            assert(more.contains(rule.id@));
        }
    }
}

proof fn lemma_results_outside_none(results: Seq<ScanResultModel>, ignore: Seq<Seq<char>>)
    requires
        forall|i: int| 0 <= i < results.len() ==> !ignore.contains((#[trigger] results[i]).rule_id),
    ensures
        results_outside(results, ignore) == results,
    decreases results.len(),
{
    if results.len() > 0 {
        let prev = results.drop_last();
        assert forall|i: int| 0 <= i < prev.len() implies !ignore.contains((#[trigger] prev[i]).rule_id) by {
            assert(prev[i] == results[i]);
        }
        lemma_results_outside_none(prev, ignore);
        assert(!ignore.contains(results[results.len() - 1].rule_id));
        assert(prev.push(results.last()) =~= results);
    }
}

/// Adding a rule to the ignore list removes exactly that rule's results
/// and keeps all others, in order.
pub proof fn lemma_ignoring_one_more_rule(
    rules: Seq<ScanRule>,
    ignore: Seq<Seq<char>>,
    id: Seq<char>,
    path: Seq<char>,
    content: Seq<char>,
)
    ensures
        file_scan(rules, ignore.push(id), path, content) == results_outside(
            file_scan(rules, ignore, path, content),
            seq![id],
        ),
{
    let more = ignore.push(id);
    assert forall|x: Seq<char>| ignore.contains(x) implies more.contains(x) by {
        let j = choose|j: int| 0 <= j < ignore.len() && ignore[j] == x;
        assert(more[j] == x);
    }
    lemma_ignoring_more_rules(rules, ignore, more, path, content);
    let f = file_scan(rules, ignore, path, content);
    lemma_ignored_rules_find_nothing(rules, ignore, path, content);
    assert forall|x: Seq<char>| !ignore.contains(x) implies (more.contains(x) <==> seq![id].contains(x)) by {
        if more.contains(x) {
            let j = choose|j: int| 0 <= j < more.len() && more[j] == x;
            if j < ignore.len() {
                assert(ignore[j] == x);
            }
            assert(seq![id][0] == x);
        }
        if seq![id].contains(x) {
            assert(more[ignore.len() as int] == x);
        }
    }
    lemma_results_outside_same(f, more, seq![id], ignore);
}

/// Filtering by two ignore lists that agree on every rule not in `known`
/// gives the same results, where no result's rule is in `known`.
proof fn lemma_results_outside_same(
    results: Seq<ScanResultModel>,
    a: Seq<Seq<char>>,
    b: Seq<Seq<char>>,
    known: Seq<Seq<char>>,
)
    requires
        forall|i: int| 0 <= i < results.len() ==> !known.contains((#[trigger] results[i]).rule_id),
        forall|x: Seq<char>| !known.contains(x) ==> (a.contains(x) <==> b.contains(x)),
    ensures
        results_outside(results, a) == results_outside(results, b),
    decreases results.len(),
{
    if results.len() > 0 {
        let prev = results.drop_last();
        assert forall|i: int| 0 <= i < prev.len() implies !known.contains((#[trigger] prev[i]).rule_id) by {
            assert(prev[i] == results[i]);
        }
        lemma_results_outside_same(prev, a, b, known);
        assert(!known.contains(results[results.len() - 1].rule_id));
    }
}

/// Ignoring more rules never makes a passing lint fail: where every key
/// that the scan ignoring `fewer` finds is registered, so is every key that
/// the scan ignoring `more` finds.
pub proof fn lemma_ignoring_more_rules_keeps_lint_passing(
    rules: Seq<ScanRule>,
    fewer: Seq<Seq<char>>,
    more: Seq<Seq<char>>,
    path: Seq<char>,
    content: Seq<char>,
    registered: Seq<Seq<char>>,
)
    requires
        forall|id: Seq<char>| fewer.contains(id) ==> more.contains(id),
        unregistered_of(file_scan(rules, fewer, path, content), registered).len() == 0,
    ensures
        unregistered_of(file_scan(rules, more, path, content), registered).len() == 0,
{
    let f = file_scan(rules, fewer, path, content);
    lemma_ignoring_more_rules(rules, fewer, more, path, content);
    lemma_unregistered_exact(f, registered);
    lemma_results_outside_from(f, more);
    let g = file_scan(rules, more, path, content);
    lemma_unregistered_exact(g, registered);
    assert forall|i: int| 0 <= i < g.len() implies registered.contains(result_key_of(#[trigger] g[i])) by {
        let j = choose|j: int| 0 <= j < f.len() && f[j] == g[i];
        assert(registered.contains(result_key_of(f[j])));
    }
}

/// Each result kept by the filter is one of the results.
proof fn lemma_results_outside_from(results: Seq<ScanResultModel>, ignore: Seq<Seq<char>>)
    ensures
        forall|i: int|
            0 <= i < results_outside(results, ignore).len() ==> results.contains(
                #[trigger] results_outside(results, ignore)[i],
            ),
    decreases results.len(),
{
    if results.len() > 0 {
        let prev = results.drop_last();
        lemma_results_outside_from(prev, ignore);
        let o = results_outside(results, ignore);
        let op = results_outside(prev, ignore);
        assert forall|i: int| 0 <= i < o.len() implies results.contains(#[trigger] o[i]) by {
            if i < op.len() {
                assert(o[i] == op[i]);
                let j = choose|j: int| 0 <= j < prev.len() && prev[j] == op[i];
                assert(results[j] == prev[j]);
            } else {
                assert(results[results.len() - 1] == o[i]);
            }
        }
    }
}

/// What scanning a list of files finds with the rules of a configuration,
/// when the rules in `ignore` are left out.
pub open spec fn tree_scan(
    rules: Seq<ScanRule>,
    ignore: Seq<Seq<char>>,
    files: Seq<(Seq<char>, Seq<char>)>,
) -> Seq<ScanResultModel> {
    files_results(compiled_rules_of(rules, ignore), files)
}

/// The scan of a list of files is the scans of its files, one after the other.
pub proof fn lemma_tree_scan_step(rules: Seq<ScanRule>, ignore: Seq<Seq<char>>, files: Seq<(Seq<char>, Seq<char>)>)
    requires
        files.len() > 0,
    ensures
        tree_scan(rules, ignore, files) == tree_scan(rules, ignore, files.drop_last()) + file_scan(
            rules,
            ignore,
            files.last().0,
            files.last().1,
        ),
{
}

/// Over a list of files, leaving out more rules only takes results away:
/// where every rule in `fewer` is also in `more`, the scan ignoring `more`
/// is the scan ignoring `fewer` without the results of the rules in `more`.
pub proof fn lemma_tree_ignoring_more_rules(
    rules: Seq<ScanRule>,
    fewer: Seq<Seq<char>>,
    more: Seq<Seq<char>>,
    files: Seq<(Seq<char>, Seq<char>)>,
)
    requires
        forall|id: Seq<char>| fewer.contains(id) ==> more.contains(id),
    ensures
        tree_scan(rules, more, files) == results_outside(tree_scan(rules, fewer, files), more),
    decreases files.len(),
{
    if files.len() == 0 {
        assert(tree_scan(rules, more, files) =~= Seq::<ScanResultModel>::empty());
    } else {
        let f = files.last();
        lemma_tree_ignoring_more_rules(rules, fewer, more, files.drop_last());
        lemma_tree_scan_step(rules, fewer, files);
        lemma_tree_scan_step(rules, more, files);
        lemma_ignoring_more_rules(rules, fewer, more, f.0, f.1);
        lemma_results_outside_concat(
            tree_scan(rules, fewer, files.drop_last()),
            file_scan(rules, fewer, f.0, f.1),
            more,
        );
    }
}

/// Over a list of files, adding a rule to the ignore list removes exactly
/// that rule's results and keeps all others, in order.
pub proof fn lemma_tree_ignoring_one_more_rule(
    rules: Seq<ScanRule>,
    ignore: Seq<Seq<char>>,
    id: Seq<char>,
    files: Seq<(Seq<char>, Seq<char>)>,
)
    ensures
        tree_scan(rules, ignore.push(id), files) == results_outside(tree_scan(rules, ignore, files), seq![id]),
    decreases files.len(),
{
    if files.len() == 0 {
        assert(tree_scan(rules, ignore.push(id), files) =~= Seq::<ScanResultModel>::empty());
    } else {
        let f = files.last();
        lemma_tree_ignoring_one_more_rule(rules, ignore, id, files.drop_last());
        lemma_tree_scan_step(rules, ignore, files);
        lemma_tree_scan_step(rules, ignore.push(id), files);
        lemma_ignoring_one_more_rule(rules, ignore, id, f.0, f.1);
        lemma_results_outside_concat(
            tree_scan(rules, ignore, files.drop_last()),
            file_scan(rules, ignore, f.0, f.1),
            seq![id],
        );
    }
}

/// Over a list of files, ignoring more rules never makes a passing lint fail.
pub proof fn lemma_tree_ignoring_more_rules_keeps_lint_passing(
    rules: Seq<ScanRule>,
    fewer: Seq<Seq<char>>,
    more: Seq<Seq<char>>,
    files: Seq<(Seq<char>, Seq<char>)>,
    registered: Seq<Seq<char>>,
)
    requires
        forall|id: Seq<char>| fewer.contains(id) ==> more.contains(id),
        unregistered_of(tree_scan(rules, fewer, files), registered).len() == 0,
    ensures
        unregistered_of(tree_scan(rules, more, files), registered).len() == 0,
{
    let f = tree_scan(rules, fewer, files);
    lemma_tree_ignoring_more_rules(rules, fewer, more, files);
    lemma_unregistered_exact(f, registered);
    lemma_results_outside_from(f, more);
    let g = tree_scan(rules, more, files);
    lemma_unregistered_exact(g, registered);
    assert forall|i: int| 0 <= i < g.len() implies registered.contains(result_key_of(#[trigger] g[i])) by {
        let j = choose|j: int| 0 <= j < f.len() && f[j] == g[i];
        assert(registered.contains(result_key_of(f[j])));
    }
}


/// A rule applies to a path exactly when one of its globs compiles and
/// matches the path, whatever the other globs are.
pub proof fn lemma_rule_applies_iff_some_glob_matches(globs: Seq<Seq<char>>, path: Seq<char>)
    ensures
        globs_match(globs, path) <==> exists|i: int|
            0 <= i < globs.len() && glob_compiles(globs[i]) && #[trigger] glob_matches(globs[i], path),
{
}

/// A glob that compiles and matches the path makes its rule apply.
pub proof fn lemma_rule_applies_by_one_glob(globs: Seq<Seq<char>>, path: Seq<char>, i: int)
    requires
        0 <= i < globs.len(),
        glob_compiles(globs[i]),
        glob_matches(globs[i], path),
    ensures
        globs_match(globs, path),
{
}

/// Adding globs before or after a rule's globs never stops it applying.
pub proof fn lemma_rule_applies_with_more_globs(
    before: Seq<Seq<char>>,
    globs: Seq<Seq<char>>,
    after: Seq<Seq<char>>,
    path: Seq<char>,
)
    requires
        globs_match(globs, path),
    ensures
        globs_match(before + globs + after, path),
{
    let i = choose|i: int| 0 <= i < globs.len() && glob_compiles(globs[i]) && #[trigger] glob_matches(globs[i], path);
    let all = before + globs + after;
    assert(all[before.len() + i] == globs[i]);
    lemma_rule_applies_by_one_glob(all, path, before.len() + i);
}

/// Compiling a rule's patterns keeps exactly those whose regexes compile,
/// in order, each compiled for the rule.
pub proof fn lemma_compiled_patterns_keep_compiling(rule_id: Seq<char>, defs: Seq<crate::config::PatternDef>)
    ensures
        compiled_patterns_of(rule_id, defs) == defs.filter(|d: crate::config::PatternDef| pattern_compiles(d)).map_values(
            |d: crate::config::PatternDef| compiled_model(rule_id, d),
        ),
    decreases defs.len(),
{
    reveal(Seq::filter);
    let pred = |d: crate::config::PatternDef| pattern_compiles(d);
    let model = |d: crate::config::PatternDef| compiled_model(rule_id, d);
    if defs.len() > 0 {
        lemma_compiled_patterns_keep_compiling(rule_id, defs.drop_last());
        let prev = defs.drop_last().filter(pred);
        if pred(defs.last()) {
            assert(prev.push(defs.last()).map_values(model) =~= prev.map_values(model).push(model(defs.last())));
        }
    } else {
        assert(defs.filter(pred).map_values(model) =~= Seq::<CompiledPatternModel>::empty());
    }
}

/// The compiled patterns of two lists of pattern definitions, one after
/// the other, are those of the first followed by those of the second.
pub proof fn lemma_compiled_patterns_concat(
    rule_id: Seq<char>,
    a: Seq<crate::config::PatternDef>,
    b: Seq<crate::config::PatternDef>,
)
    ensures
        compiled_patterns_of(rule_id, a + b) == compiled_patterns_of(rule_id, a) + compiled_patterns_of(rule_id, b),
    decreases b.len(),
{
    if b.len() == 0 {
        assert(a + b =~= a);
        assert(compiled_patterns_of(rule_id, a) + compiled_patterns_of(rule_id, b) =~= compiled_patterns_of(
            rule_id,
            a,
        ));
    } else {
        lemma_compiled_patterns_concat(rule_id, a, b.drop_last());
        assert((a + b).drop_last() =~= a + b.drop_last());
        assert((a + b).last() == b.last());
        let pa = compiled_patterns_of(rule_id, a);
        let pb = compiled_patterns_of(rule_id, b.drop_last());
        if pattern_compiles(b.last()) {
            assert(pa + pb.push(compiled_model(rule_id, b.last())) =~= (pa + pb).push(
                compiled_model(rule_id, b.last()),
            ));
        }
    }
}

/// Every pattern that compiles is kept, and the number kept is the number
/// of definitions that compile.
pub proof fn lemma_compiled_patterns_count(rule_id: Seq<char>, defs: Seq<crate::config::PatternDef>)
    ensures
        compiled_patterns_of(rule_id, defs).len() == defs.filter(|d: crate::config::PatternDef| pattern_compiles(d)).len(),
        forall|i: int|
            0 <= i < defs.len() && pattern_compiles(#[trigger] defs[i]) ==> compiled_patterns_of(rule_id, defs).contains(
                compiled_model(rule_id, defs[i]),
            ),
{
    lemma_compiled_patterns_keep_compiling(rule_id, defs);
    let pred = |d: crate::config::PatternDef| pattern_compiles(d);
    let model = |d: crate::config::PatternDef| compiled_model(rule_id, d);
    assert forall|i: int| 0 <= i < defs.len() && pattern_compiles(#[trigger] defs[i]) implies compiled_patterns_of(
        rule_id,
        defs,
    ).contains(compiled_model(rule_id, defs[i])) by {
        defs.lemma_filter_contains(pred, i);
        let f = defs.filter(pred);
        let k = choose|k: int| 0 <= k < f.len() && f[k] == defs[i];
        assert(f.map_values(model)[k] == compiled_model(rule_id, defs[i]));
    }
}

/// The compiled rules of two lists of rules, one after the other, are those
/// of the first followed by those of the second; a single rule is kept,
/// with its compiling patterns, exactly when it is not ignored and some
/// pattern of it compiles.
pub proof fn lemma_compiled_rules_concat(rules_a: Seq<ScanRule>, rules_b: Seq<ScanRule>, ignore: Seq<Seq<char>>)
    ensures
        compiled_rules_of(rules_a + rules_b, ignore) == compiled_rules_of(rules_a, ignore) + compiled_rules_of(
            rules_b,
            ignore,
        ),
    decreases rules_b.len(),
{
    if rules_b.len() == 0 {
        assert(rules_a + rules_b =~= rules_a);
        assert(compiled_rules_of(rules_a, ignore) + compiled_rules_of(rules_b, ignore) =~= compiled_rules_of(
            rules_a,
            ignore,
        ));
    } else {
        lemma_compiled_rules_concat(rules_a, rules_b.drop_last(), ignore);
        assert((rules_a + rules_b).drop_last() =~= rules_a + rules_b.drop_last());
        assert((rules_a + rules_b).last() == rules_b.last());
        let ra = compiled_rules_of(rules_a, ignore);
        let rb = compiled_rules_of(rules_b.drop_last(), ignore);
        let rule = rules_b.last();
        let entry = (strings_view(rule.files@), compiled_patterns_of(rule.id@, rule.patterns@));
        assert(ra + rb.push(entry) =~= (ra + rb).push(entry));
    }
}

proof fn lemma_no_pattern_compiles(rule_id: Seq<char>, defs: Seq<crate::config::PatternDef>)
    requires
        forall|i: int| 0 <= i < defs.len() ==> !pattern_compiles(#[trigger] defs[i]),
    ensures
        compiled_patterns_of(rule_id, defs).len() == 0,
    decreases defs.len(),
{
    if defs.len() > 0 {
        assert(!pattern_compiles(defs[defs.len() - 1]));
        assert forall|i: int| 0 <= i < defs.drop_last().len() implies !pattern_compiles(
            #[trigger] defs.drop_last()[i],
        ) by {
            assert(defs.drop_last()[i] == defs[i]);
        }
        lemma_no_pattern_compiles(rule_id, defs.drop_last());
    }
}

/// A single rule compiles to itself with the patterns that compile, unless
/// it is ignored or none of its patterns compiles.
pub proof fn lemma_compiled_rule_single(rule: ScanRule, ignore: Seq<Seq<char>>)
    ensures
        compiled_rules_of(seq![rule], ignore) == if ignore.contains(rule.id@) || (forall|i: int|
            0 <= i < rule.patterns@.len() ==> !pattern_compiles(#[trigger] rule.patterns@[i])) {
            Seq::<(Seq<Seq<char>>, Seq<CompiledPatternModel>)>::empty()
        } else {
            seq![(strings_view(rule.files@), compiled_patterns_of(rule.id@, rule.patterns@))]
        },
{
    let s = seq![rule];
    assert(s.drop_last() =~= Seq::<ScanRule>::empty());
    assert(s.last() == rule);
    assert(compiled_rules_of(s.drop_last(), ignore) == Seq::<(Seq<Seq<char>>, Seq<CompiledPatternModel>)>::empty());
    let entry = (strings_view(rule.files@), compiled_patterns_of(rule.id@, rule.patterns@));
    assert(Seq::<(Seq<Seq<char>>, Seq<CompiledPatternModel>)>::empty().push(entry) =~= seq![entry]);
    let defs = rule.patterns@;
    lemma_compiled_patterns_count(rule.id@, defs);
    if forall|i: int| 0 <= i < defs.len() ==> !pattern_compiles(#[trigger] defs[i]) {
        lemma_no_pattern_compiles(rule.id@, defs);
    } else {
        let i = choose|i: int| 0 <= i < defs.len() && pattern_compiles(#[trigger] defs[i]);
        assert(compiled_patterns_of(rule.id@, defs).contains(compiled_model(rule.id@, defs[i])));
    }
}

} // verus!
