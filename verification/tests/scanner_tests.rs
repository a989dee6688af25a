use aegis::config::{AegisConfig, CaptureMode, PatternDef, ScanRule};
use aegis::scanner::{applies_to, compile_rules, rule_applies, scan_file, scan_files};

fn test_config() -> AegisConfig {
    AegisConfig {
        version: 1,
        catalog: None,
        rules: vec![
            ScanRule {
                id: "react-can".to_string(),
                files: vec!["**/*.tsx".to_string()],
                patterns: vec![PatternDef {
                    regex: r#"<Can\s+object="(?P<object>[^"]+)"\s+action="(?P<action>[^"]+)"#
                        .to_string(),
                    level: "ui".to_string(),
                    capture_mode: CaptureMode::Single,
                    sub_pattern: None,
                }],
            },
            ScanRule {
                id: "go-check".to_string(),
                files: vec!["**/*.go".to_string()],
                patterns: vec![PatternDef {
                    regex: r#"CheckAny\(.*?,\s*"(?P<object>[^"]+)",\s*"(?P<action>[^"]+)"\)"#
                        .to_string(),
                    level: "api".to_string(),
                    capture_mode: CaptureMode::Single,
                    sub_pattern: None,
                }],
            },
        ],
    }
}

#[test]
fn test_scanner_finds_react_permissions() {
    let rules = compile_rules(&test_config(), &[]);
    let results = scan_file(
        &rules,
        "src/App.tsx",
        r#"<Can object="api:packages" action="delete"><button/></Can>"#,
    );
    assert_eq!(results.len(), 1);
    assert_eq!(results[0].level, "ui");
    assert_eq!(results[0].resource, "api:packages");
    assert_eq!(results[0].action, "delete");
    assert_eq!(results[0].rule_id, "react-can");
    assert_eq!(results[0].source_file, "src/App.tsx");
    assert_eq!(results[0].source_line, 1);
}

#[test]
fn test_scanner_finds_go_permissions() {
    let rules = compile_rules(&test_config(), &[]);
    let results = scan_file(&rules, "handler.go", r#"CheckAny(ctx, roles, "api:packages", "read")"#);
    assert_eq!(results.len(), 1);
    assert_eq!(results[0].level, "api");
}

#[test]
fn test_scanner_skips_non_matching_files() {
    let rules = compile_rules(&test_config(), &[]);
    assert!(!applies_to(&rules, "readme.md"));
    assert!(applies_to(&rules, "app.tsx"));
    let results = scan_file(&rules, "readme.md", "just docs");
    assert!(results.is_empty());
    assert!(scan_file(&rules, "readme.md", r#"<Can object="a" action="b">"#).is_empty());
}

#[test]
fn test_ignore_rules() {
    let rules = compile_rules(&test_config(), &["react-can".to_string()]);
    assert_eq!(rules.len(), 1);
    assert!(scan_file(&rules, "app.tsx", r#"<Can object="api:test" action="read">"#).is_empty());
}

#[test]
fn rules_without_valid_patterns_are_dropped() {
    let mut config = test_config();
    config.rules[0].patterns[0].regex = "(unclosed".to_string();
    config.rules[1].patterns.push(PatternDef {
        regex: "[bad".to_string(),
        level: "api".to_string(),
        capture_mode: CaptureMode::Single,
        sub_pattern: None,
    });
    let rules = compile_rules(&config, &[]);
    assert_eq!(rules.len(), 1);
    assert_eq!(rules[0].patterns.len(), 1);
    assert_eq!(rules[0].patterns[0].rule_id, "go-check");
}

#[test]
fn invalid_globs_match_nothing() {
    let files = vec!["[".to_string(), "*.go".to_string()];
    assert!(rule_applies(&files, "main.go"));
    assert!(!rule_applies(&vec!["[".to_string()], "["));
    assert!(!rule_applies(&vec![], "main.go"));
}

#[test]
fn results_follow_rule_then_pattern_order() {
    let mut config = test_config();
    config.rules[1].files.push("**/*.tsx".to_string());
    let rules = compile_rules(&config, &[]);
    let content = r#"<Can object="a:b" action="read"> CheckAny(c, r, "x:y", "write")"#;
    let results = scan_file(&rules, "ui/App.tsx", content);
    assert_eq!(results.len(), 2);
    assert_eq!(results[0].rule_id, "react-can");
    assert_eq!(results[1].rule_id, "go-check");
    assert_eq!(results[1].resource, "x:y");
}

#[test]
fn scan_file_reports_the_line_of_the_match() {
    let rules = compile_rules(&test_config(), &[]);
    let results = scan_file(
        &rules,
        "h.go",
        "package h\nCheckAny(ctx, roles, \"api:packages\", \"read\")",
    );
    assert_eq!(results.len(), 1);
    assert_eq!(results[0].source_file, "h.go");
    assert_eq!(results[0].source_line, 2);
}

#[test]
fn scan_files_joins_each_file_in_order() {
    let rules = compile_rules(&test_config(), &[]);
    let files = vec![
        ("a.go".to_string(), "x\nCheckAny(c, r, \"api:a\", \"read\")".to_string()),
        ("notes.md".to_string(), r#"<Can object="x" action="y">"#.to_string()),
        ("b.tsx".to_string(), r#"<Can object="ui:b" action="write">"#.to_string()),
    ];
    let results = scan_files(&rules, &files);
    assert_eq!(results.len(), 2);
    assert_eq!(results[0].source_file, "a.go");
    assert_eq!(results[0].resource, "api:a");
    assert_eq!(results[0].source_line, 2);
    assert_eq!(results[1].source_file, "b.tsx");
    assert_eq!(results[1].rule_id, "react-can");
    assert!(scan_files(&rules, &[]).is_empty());
}

#[test]
fn scan_files_ignoring_a_rule_drops_only_its_results() {
    let files = vec![
        ("a.go".to_string(), r#"CheckAny(c, r, "api:a", "read")"#.to_string()),
        ("b.tsx".to_string(), r#"<Can object="ui:b" action="write">"#.to_string()),
    ];
    let all = scan_files(&compile_rules(&test_config(), &[]), &files);
    let fewer = scan_files(&compile_rules(&test_config(), &["go-check".to_string()]), &files);
    assert_eq!(all.len(), 2);
    assert_eq!(fewer.len(), 1);
    assert_eq!(fewer[0].rule_id, "react-can");
    assert_eq!(fewer[0].resource, all[1].resource);
}
