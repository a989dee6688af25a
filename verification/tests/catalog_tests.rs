use aegis::catalog::{
    api_error_message, baseline_error_message, catalog_from_text, catalog_url, parse_catalog, removed,
    result_key, unregistered, Catalog, CatalogTextError, JsonValue,
};
use aegis::pattern::ScanResult;

fn result(level: &str, resource: &str, action: &str) -> ScanResult {
    ScanResult {
        level: level.into(),
        resource: resource.into(),
        action: action.into(),
        source_file: "test.go".into(),
        source_line: 1,
        rule_id: "test".into(),
    }
}

fn to_model(v: &serde_json::Value) -> JsonValue {
    match v {
        serde_json::Value::Null => JsonValue::Null,
        serde_json::Value::Bool(b) => JsonValue::Bool(*b),
        serde_json::Value::Number(n) => JsonValue::Number(n.to_string()),
        serde_json::Value::String(s) => JsonValue::Text(s.clone()),
        serde_json::Value::Array(items) => JsonValue::Array(items.iter().map(to_model).collect()),
        serde_json::Value::Object(members) => {
            JsonValue::Object(members.iter().map(|(k, v)| (k.clone(), to_model(v))).collect())
        }
    }
}

fn parse(text: &str) -> JsonValue {
    let value: serde_json::Value = serde_json::from_str(text).unwrap();
    to_model(&value)
}

#[test]
fn parse_catalog_aegis_shape() {
    let value = parse(
        r#"{ "permissions": [
            {"level_key": "api", "resource_key": "api:packages", "action_key": "read"},
            {"level_key": "ui", "resource_key": "api:packages", "action_key": "delete"}
        ]}"#,
    );

    let set = parse_catalog(&value).unwrap();
    assert!(set.contains("api:api:packages:read"));
    assert!(set.contains("ui:api:packages:delete"));
    assert_eq!(set.len(), 2);
}

#[test]
fn parse_catalog_api_shape() {
    let value = parse(
        r#"{ "data": { "permissions": [
            {"key": "api:packages:read"},
            {"key": "ui:packages:delete"}
        ]}}"#,
    );

    let set = parse_catalog(&value).unwrap();
    assert!(set.contains("api:packages:read"));
    assert!(set.contains("ui:packages:delete"));
    assert_eq!(set.len(), 2);
}

#[test]
fn parse_catalog_camel_case_keys() {
    let value = parse(
        r#"{ "permissions": [
            {"levelKey": "api", "resourceKey": "packages", "actionKey": "read"}
        ]}"#,
    );

    let set = parse_catalog(&value).unwrap();
    assert!(set.contains("api:packages:read"));
}

#[test]
fn parse_catalog_unrecognized_returns_none() {
    let value = parse(r#"{ "something_else": [] }"#);
    assert!(parse_catalog(&value).is_none());
}

#[test]
fn unregistered_filters_registered_permissions() {
    let results = vec![
        result("api", "packages", "read"),
        result("api", "vouchers", "create"),
    ];
    let mut registered = Catalog::new();
    registered.insert("api:packages:read".to_string());

    let missing = unregistered(&results, &registered);
    assert_eq!(missing.len(), 1);
    assert_eq!(missing[0].resource, "vouchers");
}

#[test]
fn unregistered_empty_when_all_registered() {
    let results = vec![result("api", "packages", "read")];
    let mut registered = Catalog::new();
    registered.insert("api:packages:read".to_string());

    assert!(unregistered(&results, &registered).is_empty());
}

#[test]
fn parse_catalog_permissions_not_array_is_none() {
    let value = parse(r#"{ "permissions": {"key": "a:b:c"} }"#);
    assert!(parse_catalog(&value).is_none());
}

#[test]
fn parse_catalog_top_level_permissions_win_over_data() {
    let value = parse(
        r#"{ "permissions": [{"key": "a:b:c"}], "data": { "permissions": [{"key": "x:y:z"}] } }"#,
    );
    let set = parse_catalog(&value).unwrap();
    assert!(set.contains("a:b:c"));
    assert!(!set.contains("x:y:z"));
    assert_eq!(set.len(), 1);
}

#[test]
fn parse_catalog_skips_incomplete_and_duplicate_entries() {
    let value = parse(
        r#"{ "permissions": [
            {"key": "api:packages:read"},
            {"level_key": "api", "resource_key": "packages"},
            {"key": 5, "level_key": "api", "resource_key": "packages", "action_key": "read"},
            {"level_key": null, "levelKey": "ui", "resource_key": "a", "action_key": "b"},
            "not an object"
        ]}"#,
    );
    let set = parse_catalog(&value).unwrap();
    assert_eq!(set.len(), 1);
    assert!(set.contains("api:packages:read"));
    assert!(!set.contains("ui:a:b"));
}

#[test]
fn parse_catalog_non_object_document_is_none() {
    assert!(parse_catalog(&parse("[1, 2, 3]")).is_none());
    assert!(parse_catalog(&parse(r#""permissions""#)).is_none());
}

#[test]
fn catalog_insert_reports_new_keys() {
    let mut c = Catalog::new();
    assert!(c.is_empty());
    assert!(c.insert("a:b:c".to_string()));
    assert!(!c.insert("a:b:c".to_string()));
    assert!(c.insert("a:b:d".to_string()));
    assert_eq!(c.len(), 2);
    assert_eq!(c.key_at(0), "a:b:c");
    assert_eq!(c.key_at(1), "a:b:d");
}

#[test]
fn result_key_joins_with_colons() {
    assert_eq!(result_key(&result("api", "api:packages", "read")), "api:api:packages:read");
}

#[test]
fn removed_lists_unused_catalog_keys_in_order() {
    let results = vec![result("api", "packages", "read")];
    let mut registered = Catalog::new();
    registered.insert("api:ghost:read".to_string());
    registered.insert("api:packages:read".to_string());
    registered.insert("ui:old:delete".to_string());

    let gone = removed(&results, &registered);
    assert_eq!(gone, vec!["api:ghost:read".to_string(), "ui:old:delete".to_string()]);
}

#[test]
fn removed_empty_when_all_used() {
    let results = vec![result("api", "packages", "read")];
    let mut registered = Catalog::new();
    registered.insert("api:packages:read".to_string());
    assert!(removed(&results, &registered).is_empty());
}

#[test]
fn catalog_url_strips_trailing_slashes() {
    assert_eq!(catalog_url("https://auth.example.com//"), "https://auth.example.com/api/v1/rbac/catalog");
    assert_eq!(catalog_url("http://h"), "http://h/api/v1/rbac/catalog");
    assert_eq!(catalog_url(""), "/api/v1/rbac/catalog");
}

#[test]
fn catalog_from_text_reads_both_shapes() {
    let c = catalog_from_text(
        r#"{ "permissions": [ {"level_key": "api", "resource_key": "packages", "action_key": "read"} ] }"#,
    )
    .unwrap();
    assert!(c.contains("api:packages:read"));
    let c = catalog_from_text(r#"{"data": {"permissions": [{"key": "ui:a:b"}]}}"#).unwrap();
    assert!(c.contains("ui:a:b"));
    assert_eq!(c.len(), 1);
}

#[test]
fn catalog_from_text_errors() {
    assert!(matches!(catalog_from_text("not json"), Err(CatalogTextError::NotJson(_))));
    assert!(matches!(
        catalog_from_text(r#"{ "something_else": [] }"#),
        Err(CatalogTextError::UnknownSchema)
    ));
}

#[test]
fn catalog_error_messages() {
    let bad = catalog_from_text("not json").unwrap_err();
    assert!(baseline_error_message("b.json", &bad).starts_with("Failed to parse baseline JSON 'b.json': "));
    assert!(api_error_message(&bad).starts_with("Failed to parse catalog response: "));
    assert_eq!(
        baseline_error_message("b.json", &CatalogTextError::UnknownSchema),
        "Unrecognized baseline schema in 'b.json': expected 'permissions' or 'data.permissions'"
    );
    assert_eq!(
        api_error_message(&CatalogTextError::UnknownSchema),
        "Unrecognized catalog schema from API: expected 'data.permissions' or 'permissions'"
    );
}
