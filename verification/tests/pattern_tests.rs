use aegis::config::{CaptureMode, PatternDef};
use aegis::matcher::CaptureRow;
use aegis::pattern::{
    extract_matches, resolve_level, results_at_line, results_from_captures, CompileError,
    CompiledPattern,
};

fn compile_single(regex: &str, level: &str) -> CompiledPattern {
    CompiledPattern::compile(
        "test",
        &PatternDef {
            regex: regex.to_string(),
            level: level.to_string(),
            capture_mode: CaptureMode::Single,
            sub_pattern: None,
        },
    )
    .unwrap()
}

#[test]
fn test_single_match_can_component() {
    let compiled = compile_single(
        r#"<Can\s+object="(?P<object>[^"]+)"\s+action="(?P<action>[^"]+)"#,
        "ui",
    );
    let content = r#"<Can object="api:packages" action="delete">"#;
    let results = extract_matches(content, 42, &compiled, "App.tsx");

    assert_eq!(results.len(), 1);
    assert_eq!(results[0].level, "ui");
    assert_eq!(results[0].resource, "api:packages");
    assert_eq!(results[0].action, "delete");
    assert_eq!(results[0].source_line, 42);
    assert_eq!(results[0].rule_id, "test");
}

#[test]
fn test_single_match_use_permission() {
    let compiled = compile_single(
        r#"usePermission\(["'](?P<object>[^"']+)["'],\s*["'](?P<action>[^"']+)["']"#,
        "ui",
    );
    let content = r#"usePermission("api:packages", "read")"#;
    let results = extract_matches(content, 10, &compiled, "hook.ts");

    assert_eq!(results.len(), 1);
    assert_eq!(results[0].resource, "api:packages");
    assert_eq!(results[0].action, "read");
}

#[test]
fn test_single_match_go_check_any() {
    let compiled = compile_single(
        r#"CheckAny\(.*?,\s*"(?P<object>[^"]+)",\s*"(?P<action>[^"]+)"\)"#,
        "api",
    );
    let content = r#"CheckAny(ctx, roles, "api:packages", "read")"#;
    let results = extract_matches(content, 15, &compiled, "handler.go");

    assert_eq!(results.len(), 1);
    assert_eq!(results[0].level, "api");
    assert_eq!(results[0].resource, "api:packages");
}

#[test]
fn test_repeated_mode_any_block() {
    let pattern = PatternDef {
        regex: r#"any=\{\[\s*((?:\{[^}]+\},?\s*)+)\]"#.to_string(),
        level: "ui".to_string(),
        capture_mode: CaptureMode::Repeated,
        sub_pattern: Some(
            r#"\{object:\s*"(?P<object>[^"]+)",\s*action:\s*"(?P<action>[^"]+)"\}"#.to_string(),
        ),
    };
    let compiled = CompiledPattern::compile("test", &pattern).unwrap();
    let content = r#"<Can any={[{object: "api:packages", action: "delete"}, {object: "api:transactions", action: "read"}]}>"#;
    let results = extract_matches(content, 99, &compiled, "Page.tsx");

    assert_eq!(results.len(), 2);
    assert_eq!(results[0].resource, "api:packages");
    assert_eq!(results[0].action, "delete");
    assert_eq!(results[1].resource, "api:transactions");
    assert_eq!(results[1].action, "read");
}

#[test]
fn test_repeated_mode_all_block() {
    let pattern = PatternDef {
        regex: r#"all=\{\[\s*((?:\{[^}]+\},?\s*)+)\]"#.to_string(),
        level: "ui".to_string(),
        capture_mode: CaptureMode::Repeated,
        sub_pattern: Some(
            r#"object:\s*"(?P<object>[^"]+)",\s*action:\s*"(?P<action>[^"]+)"\}"#.to_string(),
        ),
    };
    let compiled = CompiledPattern::compile("test", &pattern).unwrap();
    let content = r#"all={[{object: "api:packages", action: "delete"}, {object: "api:packages", action: "read"}]}"#;
    let results = extract_matches(content, 42, &compiled, "Page.tsx");

    assert_eq!(results.len(), 2);
    assert_eq!(results[0].source_line, 42);
    assert_eq!(results[1].source_line, 42);
}

#[test]
fn test_annotation_comment() {
    let compiled = compile_single(
        r#"@rbac\s+(?P<level>\w+):(?P<object>[\w.-]+):(?P<action>\w+)"#,
        "$level",
    );
    let content = "// @rbac api:webhooks:create";
    let results = extract_matches(content, 1, &compiled, "main.go");

    assert_eq!(results.len(), 1);
    assert_eq!(results[0].level, "api");
    assert_eq!(results[0].resource, "webhooks");
    assert_eq!(results[0].action, "create");
}

#[test]
fn test_no_match_returns_empty() {
    let compiled = compile_single(r#"<Can\s+object="(?P<object>[^"]+)"#, "ui");
    let content = "regular text without permissions";
    let results = extract_matches(content, 1, &compiled, "file.ts");
    assert!(results.is_empty());
}

#[test]
fn test_action_before_object() {
    let compiled = compile_single(
        r#"<Can\s+action="(?P<action>[^"]+)"\s+object="(?P<object>[^"]+)"#,
        "ui",
    );
    let content = r#"<Can action="delete" object="api:packages">"#;
    let results = extract_matches(content, 1, &compiled, "test.tsx");
    assert_eq!(results.len(), 1);
    assert_eq!(results[0].action, "delete");
    assert_eq!(results[0].resource, "api:packages");
}

#[test]
fn single_mode_skips_matches_without_action_group() {
    let compiled = compile_single(r#"<Can\s+object="(?P<object>[^"]+)""#, "ui");
    let results = extract_matches(r#"<Can object="a:b">"#, 3, &compiled, "x.tsx");
    assert!(results.is_empty());
}

#[test]
fn single_mode_finds_every_match_in_order() {
    let compiled = compile_single(r#"can\("(?P<object>\w+)","(?P<action>\w+)"\)"#, "api");
    let results = extract_matches(r#"can("a","r") x can("b","w")"#, 7, &compiled, "f.go");
    assert_eq!(results.len(), 2);
    assert_eq!((results[0].resource.as_str(), results[0].action.as_str()), ("a", "r"));
    assert_eq!((results[1].resource.as_str(), results[1].action.as_str()), ("b", "w"));
    assert_eq!(results[1].source_file, "f.go");
    assert_eq!(results[1].source_line, 7);
}

#[test]
fn repeated_mode_without_sub_pattern_finds_nothing() {
    let pattern = PatternDef {
        regex: r#"(?P<object>\w+):(?P<action>\w+)"#.to_string(),
        level: "ui".to_string(),
        capture_mode: CaptureMode::Repeated,
        sub_pattern: None,
    };
    let compiled = CompiledPattern::compile("test", &pattern).unwrap();
    assert!(extract_matches("a:b", 1, &compiled, "x").is_empty());
}

#[test]
fn static_level_ignores_captured_level() {
    let compiled = compile_single(r#"(?P<level>\w+):(?P<object>\w+):(?P<action>\w+)"#, "api");
    let results = extract_matches("ui:docs:read", 1, &compiled, "x");
    assert_eq!(results[0].level, "api");
}

#[test]
fn compile_rejects_invalid_regex() {
    let bad = PatternDef {
        regex: "foo(bar".to_string(),
        level: "ui".to_string(),
        capture_mode: CaptureMode::Single,
        sub_pattern: None,
    };
    match CompiledPattern::compile("r", &bad) {
        Err(CompileError::InvalidRegex { pattern, message }) => {
            assert_eq!(pattern, "foo(bar");
            assert!(message.contains("unclosed group"));
        }
        Ok(_) => panic!("invalid regex compiled"),
    }
    let bad_sub = PatternDef {
        regex: "ok".to_string(),
        level: "ui".to_string(),
        capture_mode: CaptureMode::Repeated,
        sub_pattern: Some("[unclosed".to_string()),
    };
    match CompiledPattern::compile("r", &bad_sub) {
        Err(CompileError::InvalidRegex { pattern, message }) => {
            assert_eq!(pattern, "[unclosed");
            assert!(!message.is_empty());
        }
        Ok(_) => panic!("invalid sub-pattern compiled"),
    }
}

#[test]
fn compile_keeps_rule_and_level() {
    let compiled = compile_single("x", "$level");
    assert_eq!(compiled.rule_id, "test");
    assert_eq!(compiled.level, "$level");
    assert_eq!(compiled.capture_mode, CaptureMode::Single);
    assert!(compiled.sub_regex.is_none());
}

#[test]
fn resolve_level_uses_capture_only_for_dollar_level() {
    assert_eq!(resolve_level("$level", Some("api".to_string())), "api");
    assert_eq!(resolve_level("$level", None), "$level");
    assert_eq!(resolve_level("ui", Some("api".to_string())), "ui");
    assert_eq!(resolve_level("ui", None), "ui");
}

#[test]
fn results_from_captures_reads_object_action_level() {
    let content = "m1\nm2 m3\n\nm4";
    let rows = vec![
        CaptureRow {
            start: 0,
            whole: "m1".to_string(),
            groups: vec![Some("docs".to_string()), Some("read".to_string()), Some("api".to_string())],
        },
        CaptureRow {
            start: 3,
            whole: "m2".to_string(),
            groups: vec![Some("docs".to_string()), None, None],
        },
        CaptureRow { start: 6, whole: "m3".to_string(), groups: vec![Some("x".to_string())] },
        CaptureRow {
            start: 10,
            whole: "m4".to_string(),
            groups: vec![Some("pkgs".to_string()), Some("write".to_string()), None],
        },
    ];
    let results = results_from_captures(&rows, content, 5, "$level", "rule", "a.go");
    assert_eq!(results.len(), 2);
    assert_eq!(results[0].level, "api");
    assert_eq!(results[0].resource, "docs");
    assert_eq!(results[0].action, "read");
    assert_eq!(results[0].source_line, 5);
    assert_eq!(results[1].level, "$level");
    assert_eq!(results[1].resource, "pkgs");
    assert_eq!(results[1].rule_id, "rule");
    assert_eq!(results[1].source_file, "a.go");
    assert_eq!(results[1].source_line, 8);
}

#[test]
fn results_at_line_gives_every_row_the_same_line() {
    let rows = vec![
        CaptureRow {
            start: 40,
            whole: "a".to_string(),
            groups: vec![Some("a".to_string()), Some("r".to_string())],
        },
        CaptureRow {
            start: 0,
            whole: "b".to_string(),
            groups: vec![Some("b".to_string()), Some("w".to_string())],
        },
    ];
    let results = results_at_line(&rows, 9, "ui", "rule", "x.tsx");
    assert_eq!(results.len(), 2);
    assert_eq!(results[0].source_line, 9);
    assert_eq!(results[1].source_line, 9);
    assert_eq!(results[1].resource, "b");
}

#[test]
fn single_mode_reports_the_line_of_each_match() {
    let compiled = compile_single(
        r#"CheckAny\(.*?,\s*"(?P<object>[^"]+)",\s*"(?P<action>[^"]+)"\)"#,
        "api",
    );
    let content = "package h\n\nfunc f() {\n\tCheckAny(ctx, roles, \"api:packages\", \"read\")\n\tCheckAny(ctx, roles, \"api:vouchers\", \"create\")\n}\n";
    let results = extract_matches(content, 1, &compiled, "h.go");
    assert_eq!(results.len(), 2);
    assert_eq!(results[0].source_line, 4);
    assert_eq!(results[1].source_line, 5);
    assert_eq!(results[1].resource, "api:vouchers");
}

#[test]
fn repeated_mode_reads_pairs_after_the_opening_match() {
    let pattern = PatternDef {
        regex: r#"<Can\s+any=\{"#.to_string(),
        level: "ui".to_string(),
        capture_mode: CaptureMode::Repeated,
        sub_pattern: Some(
            r#"\{object:\s*"(?P<object>[^"]+)",\s*action:\s*"(?P<action>[^"]+)"\}"#.to_string(),
        ),
    };
    let compiled = CompiledPattern::compile("react-can-any", &pattern).unwrap();
    let content = r#"<Can any={[{object: "a:b", action: "c"}, {object: "d:e", action: "f"}]}>"#;
    let results = extract_matches(content, 1, &compiled, "P.tsx");
    assert_eq!(results.len(), 2);
    assert_eq!(results[0].level, "ui");
    assert_eq!((results[0].resource.as_str(), results[0].action.as_str()), ("a:b", "c"));
    assert_eq!((results[1].resource.as_str(), results[1].action.as_str()), ("d:e", "f"));
}

#[test]
fn repeated_mode_blocks_end_at_the_next_opening_match() {
    let pattern = PatternDef {
        regex: r#"<Can\s+any=\{"#.to_string(),
        level: "ui".to_string(),
        capture_mode: CaptureMode::Repeated,
        sub_pattern: Some(
            r#"\{object:\s*"(?P<object>[^"]+)",\s*action:\s*"(?P<action>[^"]+)"\}"#.to_string(),
        ),
    };
    let compiled = CompiledPattern::compile("react-can-any", &pattern).unwrap();
    let content = "<Can any={[{object: \"a:b\", action: \"c\"}]}>\n<x/>\n<Can any={[{object: \"d:e\", action: \"f\"}]}>";
    let results = extract_matches(content, 1, &compiled, "P.tsx");
    assert_eq!(results.len(), 2);
    assert_eq!(results[0].resource, "a:b");
    assert_eq!(results[0].source_line, 1);
    assert_eq!(results[1].resource, "d:e");
    assert_eq!(results[1].source_line, 3);
}

#[test]
fn repeated_mode_block_is_the_whole_match_when_it_closes_its_braces() {
    let pattern = PatternDef {
        regex: r#"all=\{\[\s*((?:\{[^}]+\},?\s*)+)\]"#.to_string(),
        level: "ui".to_string(),
        capture_mode: CaptureMode::Repeated,
        sub_pattern: Some(
            r#"object:\s*"(?P<object>[^"]+)",\s*action:\s*"(?P<action>[^"]+)"\}"#.to_string(),
        ),
    };
    let compiled = CompiledPattern::compile("test", &pattern).unwrap();
    let content = r#"all={[{object: "a", action: "b"}]} {object: "c", action: "d"}"#;
    let results = extract_matches(content, 1, &compiled, "Page.tsx");
    assert_eq!(results.len(), 1);
    assert_eq!(results[0].resource, "a");
    assert_eq!(results[0].action, "b");
}
