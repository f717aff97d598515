use uepm::manifest::{add_plugin, create_manifest, read_manifest, remove_plugin, write_manifest, ProjectManifest};
use uepm::error::UepmError;

const SAMPLE_INI: &str = "[Plugins]\n@acme/cool-plugin = ^1.0.0\n@studio/other = ~2.1.0\n\n[Settings]\nEngineVersion = 5.7\nCommitPlugins = false\n";

#[test]
fn test_parse_manifest() {
    let m = read_manifest(SAMPLE_INI).unwrap();
    assert_eq!(m.plugins.get("@acme/cool-plugin").map(|s| s.as_str()), Some("^1.0.0"));
    assert_eq!(m.plugins.get("@studio/other").map(|s| s.as_str()), Some("~2.1.0"));
    assert_eq!(m.engine_version.as_deref(), Some("5.7"));
    assert!(!m.commit_plugins);
}

#[test]
fn test_write_manifest() {
    let mut m = ProjectManifest::default();
    m.plugins.insert("@foo/bar".to_string(), "^1.0.0".to_string());
    m.engine_version = Some("5.3".to_string());
    m.commit_plugins = true;
    let content = write_manifest(&m);
    assert!(content.contains("@foo/bar"));
    assert!(content.contains("^1.0.0"));
    assert!(content.contains("EngineVersion"));
    assert!(content.contains("CommitPlugins=true"));
}

#[test]
fn test_create_manifest() {
    let created = create_manifest(Some("5.4"), false);
    let m = read_manifest(&write_manifest(&created)).unwrap();
    assert!(m.plugins.is_empty());
    assert_eq!(m.engine_version.as_deref(), Some("5.4"));
    assert!(!m.commit_plugins);
}

#[test]
fn test_add_and_remove_plugin() {
    let text = write_manifest(&create_manifest(None, false));
    let mut m = read_manifest(&text).unwrap();
    add_plugin(&mut m, "@acme/plugin", "^1.0.0");
    let text = write_manifest(&m);
    let mut m = read_manifest(&text).unwrap();
    assert!(m.plugins.contains_key("@acme/plugin"));
    remove_plugin(&mut m, "@acme/plugin");
    let text = write_manifest(&m);
    let m = read_manifest(&text).unwrap();
    assert!(!m.plugins.contains_key("@acme/plugin"));
}

#[test]
fn manifest_written_then_read_is_unchanged() {
    let mut m = create_manifest(Some("5.7"), true);
    add_plugin(&mut m, "@acme/cool-plugin", "^1.2.0");
    add_plugin(&mut m, "@acme/base-utils", ">=2.0.0, <3.0.0");
    let back = read_manifest(&write_manifest(&m)).unwrap();
    assert_eq!(back.plugins.len(), 2);
    assert_eq!(back.plugins.get("@acme/cool-plugin").map(|s| s.as_str()), Some("^1.2.0"));
    assert_eq!(back.plugins.get("@acme/base-utils").map(|s| s.as_str()), Some(">=2.0.0, <3.0.0"));
    assert_eq!(back.engine_version.as_deref(), Some("5.7"));
    assert!(back.commit_plugins);
}

#[test]
fn commit_plugins_needs_exactly_true() {
    let m = read_manifest("[Settings]\nCommitPlugins =  true  \n").unwrap();
    assert!(m.commit_plugins);
    let m = read_manifest("[Settings]\nCommitPlugins = yes\n").unwrap();
    assert!(!m.commit_plugins);
    let m = read_manifest("[Settings]\nEngineVersion = 5.1\n").unwrap();
    assert!(!m.commit_plugins);
    assert!(m.plugins.is_empty());
}

#[test]
fn plugin_keys_without_value_are_skipped() {
    let m = read_manifest("[Plugins]\n@acme/novalue\n@acme/x = 1.0.0\n").unwrap();
    assert!(!m.plugins.contains_key("@acme/novalue"));
    assert_eq!(m.plugins.get("@acme/x").map(|s| s.as_str()), Some("1.0.0"));
    assert_eq!(m.engine_version, None);
}

#[test]
fn unparseable_manifest_is_manifest_parse_error() {
    match read_manifest("[Plugins\nx = 1\n") {
        Err(UepmError::ManifestParse(msg)) => assert!(!msg.is_empty()),
        other => panic!("unexpected {:?}", other.map(|_| ())),
    }
}

#[test]
fn add_replaces_existing_range_and_remove_of_missing_is_harmless() {
    let mut m = create_manifest(None, false);
    add_plugin(&mut m, "@acme/p", "^1.0.0");
    add_plugin(&mut m, "@acme/p", "^2.0.0");
    assert_eq!(m.plugins.len(), 1);
    assert_eq!(m.plugins.get("@acme/p").map(|s| s.as_str()), Some("^2.0.0"));
    remove_plugin(&mut m, "@acme/absent");
    assert_eq!(m.plugins.len(), 1);
}

#[test]
fn written_text_lists_each_section_and_key_once() {
    let mut m = create_manifest(Some("5.4"), false);
    add_plugin(&mut m, "@acme/a", "^1.0.0");
    let text = write_manifest(&m);
    let lines: Vec<&str> = text.lines().collect();
    assert_eq!(lines.len(), 5);
    for expected in ["[Plugins]", "@acme/a=^1.0.0", "[Settings]", "EngineVersion=5.4", "CommitPlugins=false"] {
        assert_eq!(lines.iter().filter(|l| **l == expected).count(), 1, "{expected}");
    }
}

#[test]
fn ranges_with_delimiters_read_back_unchanged() {
    let mut m = create_manifest(Some("5.4"), true);
    add_plugin(&mut m, "@acme/core", ">=1.0.0, <2.0.0");
    add_plugin(&mut m, "@acme/extra", "=1.2.3");
    add_plugin(&mut m, "plain", "*");
    let back = read_manifest(&write_manifest(&m)).unwrap();
    assert_eq!(back.plugins.get("@acme/core").map(String::as_str), Some(">=1.0.0, <2.0.0"));
    assert_eq!(back.plugins.get("@acme/extra").map(String::as_str), Some("=1.2.3"));
    assert_eq!(back.plugins.get("plain").map(String::as_str), Some("*"));
    assert_eq!(back.plugins.len(), 3);
    assert_eq!(back.engine_version.as_deref(), Some("5.4"));
    assert!(back.commit_plugins);
}

#[test]
fn manifest_read_from_text_survives_add_write_read() {
    let text = "[Plugins]\n@acme/a]b = ^1.0.0 ; pinned\n  @acme/c:=2.0.0\n[Settings]\nEngineVersion = 5.4\nCommitPlugins=true\n";
    let mut m = read_manifest(text).unwrap();
    assert_eq!(m.plugins.get("@acme/a]b").map(String::as_str), Some("^1.0.0"));
    assert_eq!(m.plugins.get("@acme/c").map(String::as_str), Some("=2.0.0"));
    add_plugin(&mut m, "@acme/new", "~3.1");
    let back = read_manifest(&write_manifest(&m)).unwrap();
    assert_eq!(back.plugins.len(), 3);
    assert_eq!(back.plugins.get("@acme/a]b").map(String::as_str), Some("^1.0.0"));
    assert_eq!(back.plugins.get("@acme/c").map(String::as_str), Some("=2.0.0"));
    assert_eq!(back.plugins.get("@acme/new").map(String::as_str), Some("~3.1"));
    assert_eq!(back.engine_version.as_deref(), Some("5.4"));
    assert!(back.commit_plugins);
    let mut back = back;
    remove_plugin(&mut back, "@acme/new");
    let again = read_manifest(&write_manifest(&back)).unwrap();
    assert_eq!(again.plugins.len(), 2);
    assert!(again.plugins.get("@acme/new").is_none());
}
