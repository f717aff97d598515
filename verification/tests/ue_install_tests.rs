use std::cmp::Ordering;
use uepm::ue_install::{
    find_installed_engines, order_engines, parse_installation_list, scan_launcher_text, version_cmp, LauncherEntry, UeInstall,
};
use uepm::versions::parse_u64;
use uepm::text::{split_char, trim};

fn entry(app_name: &str, location: &str, app_version: &str) -> LauncherEntry {
    LauncherEntry {
        app_name: Some(app_name.to_string()),
        install_location: Some(location.to_string()),
        app_version: Some(app_version.to_string()),
    }
}

fn parse_dat(entries: &[(&str, &str, &str)]) -> Vec<UeInstall> {
    let list: Vec<LauncherEntry> = entries.iter().map(|(a, l, v)| entry(a, l, v)).collect();
    let mut out = Vec::new();
    parse_installation_list(Some(&list), &mut out);
    out.sort_by(|a, b| version_cmp(&a.version, &b.version));
    out
}

#[test]
fn test_filters_non_engine_entries() {
    let installs = parse_dat(&[
        ("FabPlugin_5.7", "/Games/UE_5.7", "5.7.0-xxx"),
        ("QuixelBridge_5.7", "/Games/UE_5.7", "5.7.0-xxx"),
        ("UE_5.7", "/Games/UE_5.7", "5.7.4-51494982+++UE5+Release-5.7-Mac"),
    ]);
    assert_eq!(installs.len(), 1);
    assert_eq!(installs[0].version, "5.7.4");
}

#[test]
fn test_version_extracted_from_app_version() {
    let installs = parse_dat(&[("UE_5.3", "/Games/UE_5.3", "5.3.2-12345+++UE5+Release-5.3-Mac")]);
    assert_eq!(installs[0].version, "5.3.2");
}

#[test]
fn test_sorted_ascending() {
    let installs = parse_dat(&[
        ("UE_5.7", "/Games/UE_5.7", "5.7.0-xxx"),
        ("UE_5.3", "/Games/UE_5.3", "5.3.0-xxx"),
        ("UE_5.5", "/Games/UE_5.5", "5.5.0-xxx"),
    ]);
    let versions: Vec<&str> = installs.iter().map(|i| i.version.as_str()).collect();
    assert_eq!(versions, ["5.3.0", "5.5.0", "5.7.0"]);
}

#[test]
fn test_empty_list() {
    let installs = parse_dat(&[]);
    assert!(installs.is_empty());
}

#[test]
fn test_find_installed_engines_does_not_panic_when_file_absent() {
    // An absent launcher file is read as no text at all.
    let mut installs = Vec::new();
    scan_launcher_text(None, &mut installs);
    let found = find_installed_engines(installs);
    assert!(found.is_empty());
}

#[test]
fn test_version_cmp() {
    assert_eq!(version_cmp("5.3.0", "5.7.0"), Ordering::Less);
    assert_eq!(version_cmp("5.7.0", "5.3.0"), Ordering::Greater);
    assert_eq!(version_cmp("5.3.0", "5.3.0"), Ordering::Equal);
    assert_eq!(version_cmp("5.10.0", "5.9.0"), Ordering::Greater);
}

#[test]
fn version_cmp_counts_text_parts_as_zero_then_compares_them_lexicographically() {
    assert_eq!(version_cmp("5.!", "5.3"), Ordering::Less);
    assert_eq!(version_cmp("5.a", "5.b"), Ordering::Less);
    assert_eq!(version_cmp("5.b", "5.a"), Ordering::Greater);
    assert_eq!(version_cmp("5.ab", "5.b"), Ordering::Less);
    assert_eq!(version_cmp("5.a", "5.ab"), Ordering::Less);
    assert_eq!(version_cmp("5.3", "5.3.0"), Ordering::Equal);
    assert_eq!(version_cmp("5.+7", "5.7"), Ordering::Equal);
    assert_eq!(version_cmp("5.007", "5.7"), Ordering::Equal);
    assert_eq!(version_cmp("5.x", "5.0"), Ordering::Greater);
    assert_eq!(version_cmp("5.x", "5.1"), Ordering::Less);
    assert_eq!(version_cmp("5.x", "5.99"), Ordering::Less);
    assert_eq!(version_cmp("5.3", "5.3.x"), Ordering::Less);
    assert_eq!(version_cmp("5.18446744073709551616", "5.0"), Ordering::Greater);
    assert_eq!(version_cmp("5.18446744073709551616", "5.1"), Ordering::Less);
    assert_eq!(version_cmp("5.18446744073709551615", "5.0"), Ordering::Greater);
    assert_eq!(version_cmp("", "0"), Ordering::Equal);
    assert_eq!(version_cmp("5.1-rc", "5.1-rc"), Ordering::Equal);
}

#[test]
fn missing_installation_list_gives_nothing() {
    let mut out = Vec::new();
    parse_installation_list(None, &mut out);
    assert!(out.is_empty());
}

#[test]
fn entries_without_location_or_version_are_skipped() {
    let list = vec![
        LauncherEntry { app_name: Some("UE_5.1".into()), install_location: None, app_version: Some("5.1.0-1".into()) },
        LauncherEntry { app_name: Some("UE_5.2".into()), install_location: Some(String::new()), app_version: Some("5.2.0".into()) },
        LauncherEntry { app_name: Some("UE_5.3".into()), install_location: Some("/e/5.3".into()), app_version: None },
        LauncherEntry { app_name: Some("UE_5.4".into()), install_location: Some("/e/5.4".into()), app_version: Some("-5.4".into()) },
        LauncherEntry { app_name: None, install_location: Some("/e/5.5".into()), app_version: Some("5.5.0".into()) },
        LauncherEntry { app_name: Some("UE_5.6".into()), install_location: Some("/e/5.6".into()), app_version: Some("5.6.1".into()) },
    ];
    let mut out = vec![UeInstall { version: "4.27".into(), path: "/old".into() }];
    parse_installation_list(Some(&list), &mut out);
    assert_eq!(out.len(), 2);
    assert_eq!(out[0].version, "4.27");
    assert_eq!(out[1].version, "5.6.1");
    assert_eq!(out[1].path, "/e/5.6");
}

#[test]
fn engines_sorted_stably_and_deduplicated_by_path() {
    let scanned = vec![
        UeInstall { version: "5.7.0".into(), path: "/Games/UE_5.7".into() },
        UeInstall { version: "5.3.0".into(), path: "/Games/UE_5.3".into() },
        UeInstall { version: "5.3".into(), path: "/Games/UE_5.3/".into() },
        UeInstall { version: "5.10.0".into(), path: "/Games/UE_5.10".into() },
        UeInstall { version: "5.3.0".into(), path: "/Other/UE_5.3".into() },
    ];
    let found = find_installed_engines(scanned);
    let got: Vec<(&str, &str)> = found.iter().map(|i| (i.version.as_str(), i.path.as_str())).collect();
    assert_eq!(
        got,
        [
            ("5.3.0", "/Games/UE_5.3"),
            ("5.3.0", "/Other/UE_5.3"),
            ("5.7.0", "/Games/UE_5.7"),
            ("5.10.0", "/Games/UE_5.10"),
        ]
    );
}

#[test]
fn numbers_parse_like_std() {
    assert_eq!(parse_u64("42"), Some(42));
    assert_eq!(parse_u64("+7"), Some(7));
    assert_eq!(parse_u64("+"), None);
    assert_eq!(parse_u64("-1"), None);
    assert_eq!(parse_u64(""), None);
    assert_eq!(parse_u64("18446744073709551615"), Some(u64::MAX));
    assert_eq!(parse_u64("18446744073709551616"), None);
    assert_eq!(parse_u64(" 1"), None);
}

#[test]
fn text_helpers_match_std() {
    let parts: Vec<String> = split_char("a..b.", '.');
    assert_eq!(parts, vec!["a", "", "b", ""]);
    assert_eq!(trim("  \t^1.0.0 \n"), "^1.0.0");
    assert_eq!(trim("\u{3000}x\u{a0}"), "x");
    assert_eq!(trim("   "), "");
}

#[test]
fn installs_equal_when_version_and_path_components_match() {
    let a = UeInstall { version: "5.3.0".into(), path: "/Games/UE_5.3".into() };
    let b = UeInstall { version: "5.3.0".into(), path: "/Games//UE_5.3/".into() };
    let c = UeInstall { version: "5.3".into(), path: "/Games/UE_5.3".into() };
    assert!(a == b);
    assert!(a != c);
    assert!(a.clone() == a);
}

#[test]
fn launcher_text_lists_engine_installs() {
    let text = r#"{"InstallationList":[
        {"AppName":"UE_5.3","InstallLocation":"/e/5.3","AppVersion":"5.3.2-29314046+++UE5+Release-5.3"},
        {"AppName":"FabPlugin_1","InstallLocation":"/p","AppVersion":"1.0"},
        {"AppName":"UE_5.4","InstallLocation":7,"AppVersion":"5.4.0"}
    ]}"#;
    let mut out = vec![UeInstall { version: "4.27".into(), path: "/old".into() }];
    scan_launcher_text(Some(text), &mut out);
    assert_eq!(out.len(), 2);
    assert_eq!(out[1].version, "5.3.2");
    assert_eq!(out[1].path, "/e/5.3");
}

#[test]
fn launcher_text_absent_or_malformed_gives_nothing() {
    let mut out = Vec::new();
    scan_launcher_text(None, &mut out);
    scan_launcher_text(Some("not json"), &mut out);
    scan_launcher_text(Some(r#"{"InstallationList":{}}"#), &mut out);
    scan_launcher_text(Some(r#"[1,2]"#), &mut out);
    assert!(out.is_empty());
}

#[test]
fn engines_at_windows_paths_that_differ_only_in_separators_are_one() {
    let scanned = vec![
        UeInstall { version: "5.3.0".into(), path: "C:\\Epic\\UE_5.3\\".into() },
        UeInstall { version: "5.3".into(), path: "C:\\Epic\\UE_5.3".into() },
    ];
    let cloned = || scanned.iter().map(|u| UeInstall { version: u.version.clone(), path: u.path.clone() }).collect::<Vec<_>>();
    assert_eq!(order_engines(cloned(), '\\').len(), 1);
    assert_eq!(order_engines(cloned(), '/').len(), 2);
}
