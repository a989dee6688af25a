use aegis::catalog::{parse_catalog, unregistered, JsonValue};
use aegis::pattern::ScanResult;
use aegis::catalog::catalog_from_text;
use aegis::reporter::{
    catalog_document, catalog_permissions, report_catalog_json, report_csv, report_diff, report_table,
};

fn sample_results() -> Vec<ScanResult> {
    vec![
        ScanResult {
            level: "ui".to_string(),
            resource: "api:packages".to_string(),
            action: "delete".to_string(),
            source_file: "src/App.tsx".to_string(),
            source_line: 42,
            rule_id: "react-can".to_string(),
        },
        ScanResult {
            level: "api".to_string(),
            resource: "api:packages".to_string(),
            action: "read".to_string(),
            source_file: "handler.go".to_string(),
            source_line: 15,
            rule_id: "go-check".to_string(),
        },
    ]
}

fn permissions_len(doc: &JsonValue) -> usize {
    match doc {
        JsonValue::Object(members) => match &members[0].1 {
            JsonValue::Array(items) => items.len(),
            _ => panic!("permissions is not an array"),
        },
        _ => panic!("document is not an object"),
    }
}

#[test]
fn test_table_output_contains_data() {
    let out = report_table(&sample_results());
    assert!(out.contains("api:packages"));
    assert!(out.contains("delete"));
    assert!(out.contains("2 permissions found"));
}

#[test]
fn test_table_empty() {
    let out = report_table(&[]);
    assert!(out.contains("No permissions found"));
}

#[test]
fn test_csv_output() {
    let out = report_csv(&sample_results());
    let lines: Vec<&str> = out.lines().collect();
    assert_eq!(lines.len(), 3); // header + 2 rows
    assert!(lines[0].starts_with("level,resource,action"));
    assert!(lines[1].contains("api:packages"));
}

#[test]
fn test_catalog_json_dedup() {
    let mut results = sample_results();
    // Add a duplicate (same level:resource:action but different file)
    results.push(ScanResult {
        level: "api".to_string(),
        resource: "api:packages".to_string(),
        action: "read".to_string(),
        source_file: "other.go".to_string(),
        source_line: 99,
        rule_id: "go-check".to_string(),
    });

    let doc = catalog_document(&results);
    // Deduped: only 2 unique permission keys
    assert_eq!(permissions_len(&doc), 2);
}

#[test]
fn table_has_exact_layout() {
    let out = report_table(&sample_results()[..1]);
    let expected = format!(
        "{:<10} {:<30} {:<12} {:<40} {:>6}  {}\n{}\n{:<10} {:<30} {:<12} {:<40} {:>6}  {}\n\n1 permissions found.\n",
        "LEVEL", "RESOURCE", "ACTION", "FILE", "LINE", "RULE",
        "-".repeat(120),
        "ui", "api:packages", "delete", "src/App.tsx", 42, "react-can"
    );
    assert_eq!(out, expected);
}

#[test]
fn table_empty_is_exact() {
    assert_eq!(report_table(&[]), "No permissions found.\n");
}

#[test]
fn table_does_not_truncate_long_fields() {
    let mut r = sample_results();
    r[0].resource = "r".repeat(35);
    r[0].source_line = 1234567;
    let out = report_table(&r[..1]);
    assert!(out.contains(&format!("{} delete", "r".repeat(35))));
    assert!(out.contains(" 1234567  react-can\n"));
}

#[test]
fn csv_is_exact() {
    assert_eq!(
        report_csv(&sample_results()),
        "level,resource,action,source_file,source_line,rule_id\n\
         ui,api:packages,delete,src/App.tsx,42,react-can\n\
         api,api:packages,read,handler.go,15,go-check\n"
    );
    assert_eq!(report_csv(&[]), "level,resource,action,source_file,source_line,rule_id\n");
}

#[test]
fn catalog_permissions_keep_first_occurrence_order() {
    let mut results = sample_results();
    results.insert(0, results[1].clone());
    let perms = catalog_permissions(&results);
    assert_eq!(perms.len(), 2);
    assert_eq!(perms[0].level_key, "api");
    assert_eq!(perms[0].action_key, "read");
    assert_eq!(perms[1].level_key, "ui");
    assert_eq!(perms[1].resource_key, "api:packages");
}

#[test]
fn catalog_permissions_dedup_by_joined_key() {
    let mut results = sample_results();
    results[1].level = "ui:api".to_string();
    results[1].resource = "packages".to_string();
    results[1].action = "delete".to_string();
    // "ui:api:packages:delete" twice, split differently
    assert_eq!(catalog_permissions(&results).len(), 1);
}

#[test]
fn catalog_document_round_trips_through_parse_catalog() {
    let mut results = sample_results();
    results.push(results[0].clone());
    let doc = catalog_document(&results);
    let catalog = parse_catalog(&doc).unwrap();
    assert_eq!(catalog.len(), 2);
    assert!(catalog.contains("ui:api:packages:delete"));
    assert!(catalog.contains("api:api:packages:read"));
    assert!(unregistered(&results, &catalog).is_empty());
}

#[test]
fn diff_report_lists_added_and_removed() {
    let added = &sample_results()[1..];
    let gone = vec!["api:api:ghost:read".to_string()];
    assert_eq!(
        report_diff(added, &gone, false),
        "2 permission change(s):\n+ api:api:packages:read   handler.go:15\n- api:api:ghost:read"
    );
}

#[test]
fn diff_report_colors_lines() {
    let gone = vec!["a:b:c".to_string()];
    assert_eq!(
        report_diff(&[], &gone, true),
        "1 permission change(s):\n\x1b[31m- a:b:c\x1b[0m"
    );
    let added = &sample_results()[..1];
    assert_eq!(
        report_diff(added, &[], true),
        "1 permission change(s):\n\x1b[32m+ ui:api:packages:delete   src/App.tsx:42\x1b[0m"
    );
}

#[test]
fn catalog_json_text_is_the_pretty_document() {
    let mut results = sample_results();
    results.push(results[1].clone());
    let text = report_catalog_json(&results);
    let expected = "{\n  \"permissions\": [\n    {\n      \"action_key\": \"delete\",\n      \"level_key\": \"ui\",\n      \"resource_key\": \"api:packages\"\n    },\n    {\n      \"action_key\": \"read\",\n      \"level_key\": \"api\",\n      \"resource_key\": \"api:packages\"\n    }\n  ]\n}";
    assert_eq!(text, expected);
    let catalog = catalog_from_text(&text).unwrap();
    assert_eq!(catalog.len(), 2);
    assert!(unregistered(&results, &catalog).is_empty());
}

#[test]
fn catalog_json_of_repeated_results_is_unchanged() {
    let results = sample_results();
    let twice: Vec<ScanResult> = [results.clone(), results.clone()].concat();
    assert_eq!(report_catalog_json(&twice), report_catalog_json(&results));
}
