use aegis::cli::{
    catalog_path, default_catalog_hint, diff_output, lint_exit_code, lint_output, registered_source,
    save_target, CatalogSource, DEFAULT_BASELINE,
};
use aegis::pattern::ScanResult;
use aegis::text::decimal_string;

#[test]
fn catalog_path_defaults_to_baseline_in_root() {
    assert_eq!(DEFAULT_BASELINE, ".aegis.catalog.json");
    assert_eq!(catalog_path(None, "repo"), "repo/.aegis.catalog.json");
    assert_eq!(catalog_path(Some("config/permissions.json"), "repo/"), "repo/config/permissions.json");
    assert_eq!(catalog_path(Some("/etc/catalog.json"), "repo"), "/etc/catalog.json");
    assert_eq!(catalog_path(None, ""), ".aegis.catalog.json");
}

#[test]
fn catalog_path_joins_like_std() {
    for (base, path) in [("a", "b"), ("a/", "b"), ("", "b"), ("a", "/b"), ("a", ""), (".", "x/y")] {
        let expected = std::path::Path::new(base).join(path);
        assert_eq!(catalog_path(Some(path), base), expected.to_str().unwrap());
    }
}

#[test]
fn registered_source_rejects_both() {
    assert_eq!(
        registered_source(Some("http://x"), Some("b.json"), None, "."),
        Err("provide either --api or --baseline, not both".to_string())
    );
}

#[test]
fn registered_source_picks_one() {
    assert_eq!(
        registered_source(Some("http://x"), None, None, "."),
        Ok(CatalogSource::Api("http://x".to_string()))
    );
    assert_eq!(
        registered_source(None, Some("b.json"), Some("c.json"), "."),
        Ok(CatalogSource::File("b.json".to_string()))
    );
    assert_eq!(
        registered_source(None, None, Some("c.json"), "root"),
        Ok(CatalogSource::DefaultFile("root/c.json".to_string()))
    );
}

#[test]
fn default_catalog_hint_text() {
    assert_eq!(
        default_catalog_hint("Failed", "./.aegis.catalog.json"),
        "Failed\nProvide --api <url>, --baseline <file>, or add a './.aegis.catalog.json' baseline file."
    );
}

#[test]
fn save_target_choices() {
    assert_eq!(save_target(&None, None, "r"), None);
    assert_eq!(save_target(&Some(None), None, "r"), Some("r/.aegis.catalog.json".to_string()));
    assert_eq!(save_target(&Some(Some("out.json".to_string())), None, "r"), Some("out.json".to_string()));
}

#[test]
fn lint_fails_only_on_unregistered() {
    assert_eq!(lint_exit_code(&[]), 0);
    let r = ScanResult {
        level: "api".into(),
        resource: "x".into(),
        action: "read".into(),
        source_file: "a.go".into(),
        source_line: 0,
        rule_id: "r".into(),
    };
    assert_eq!(lint_exit_code(&[r]), 1);
}

#[test]
fn decimal_string_values() {
    assert_eq!(decimal_string(0), "0");
    assert_eq!(decimal_string(7), "7");
    assert_eq!(decimal_string(10), "10");
    assert_eq!(decimal_string(1234567890), "1234567890");
    assert_eq!(decimal_string(usize::MAX), usize::MAX.to_string());
}

fn result(resource: &str) -> ScanResult {
    ScanResult {
        level: "api".into(),
        resource: resource.into(),
        action: "read".into(),
        source_file: "a.go".into(),
        source_line: 3,
        rule_id: "r".into(),
    }
}

#[test]
fn diff_output_messages() {
    assert_eq!(diff_output(&[], &[], false), "All permissions registered in catalog.");
    assert_eq!(
        diff_output(&[result("x")], &[], false),
        "1 permission change(s):\n+ api:x:read   a.go:3"
    );
}

#[test]
fn lint_output_passes_without_unregistered() {
    let out = lint_output(&[], &[], false, false);
    assert_eq!(out.exit_code, 0);
    assert!(!out.to_stderr);
    assert_eq!(out.text, "All permissions registered.");

    let gone = vec!["api:ghost:read".to_string()];
    let out = lint_output(&[], &gone, false, true);
    assert_eq!(out.exit_code, 0);
    assert!(!out.to_stderr);
    assert_eq!(out.text, "1 permission change(s):\n- api:ghost:read");
}

#[test]
fn lint_output_fails_on_stderr_with_unregistered() {
    let gone = vec!["api:ghost:read".to_string()];
    let out = lint_output(&[result("x")], &gone, false, true);
    assert_eq!(out.exit_code, 1);
    assert!(out.to_stderr);
    assert_eq!(
        out.text,
        "2 permission change(s):\n\x1b[32m+ api:x:read   a.go:3\x1b[0m\n\x1b[31m- api:ghost:read\x1b[0m"
    );
}
