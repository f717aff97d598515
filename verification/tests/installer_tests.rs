use base64::Engine;
use sha2::Digest;
use uepm::error::UepmError;
use uepm::installer::{
    entry_targets, extraction_plan, first_declared_version, has_uplugin_extension, local_plugin_version, read_uplugin_version,
    verify_integrity,
};
use uepm::entry_paths::entry_target;
use uepm::paths::same_path;

fn sha512_b64(data: &[u8]) -> String {
    let hash = sha2::Sha512::digest(data);
    base64::engine::general_purpose::STANDARD.encode(hash)
}

#[test]
fn test_checksum_mismatch_aborts() {
    let result = verify_integrity(
        b"bad data",
        "sha512-AAAAAAAAAAAAAAAAAAAAAAAAAAAAAAAAAAAAAAAAAAAAAAAAAAAAAAAAAAAAAAAAAAAAAAAAAAAAAAAAAAAAAAAA",
        "@test/plugin",
    );
    assert!(matches!(result, Err(UepmError::ChecksumMismatch { .. })));
}

#[test]
fn integrity_of_own_digest_passes() {
    let data = b"{\"FileVersion\": 3}";
    let integrity = format!("sha512-{}", sha512_b64(data));
    assert!(verify_integrity(data, &integrity, "@test/test-plugin").is_ok());
}

#[test]
fn mismatch_reports_both_digests() {
    let data = b"bad data";
    let other = b"other data";
    let integrity = format!("sha512-{}", sha512_b64(other));
    match verify_integrity(data, &integrity, "@test/plugin") {
        Err(UepmError::ChecksumMismatch { package, expected, actual }) => {
            assert_eq!(package, "@test/plugin");
            assert_eq!(expected, sha512_b64(other));
            assert_eq!(actual, sha512_b64(data));
        }
        other => panic!("unexpected {:?}", other),
    }
}

#[test]
fn integrity_without_prefix_is_unparseable() {
    match verify_integrity(b"x", "sha1-abc", "@t/p") {
        Err(UepmError::ChecksumMismatch { expected, actual, .. }) => {
            assert_eq!(expected, "sha1-abc");
            assert_eq!(actual, "(unparseable integrity string)");
        }
        other => panic!("unexpected {:?}", other),
    }
}

#[test]
fn integrity_with_bad_base64_fails_to_decode() {
    match verify_integrity(b"x", "sha512-!!!notbase64", "@t/p") {
        Err(UepmError::ChecksumMismatch { actual, .. }) => {
            assert_eq!(actual, "(base64 decode failed)");
        }
        other => panic!("unexpected {:?}", other),
    }
}

fn target(entry: &[u8]) -> Option<Vec<u8>> {
    entry_target(entry)
}

#[test]
fn tarball_entries_lose_the_package_directory() {
    assert_eq!(target(b"package/TestPlugin.uplugin").as_deref(), Some(&b"TestPlugin.uplugin"[..]));
    assert_eq!(target(b"package/Source/MyFile.cpp").as_deref(), Some(&b"Source/MyFile.cpp"[..]));
    assert_eq!(target(b"package/").as_deref(), None);
    assert_eq!(target(b"package").as_deref(), None);
    assert_eq!(target(b"").as_deref(), None);
    assert_eq!(target(b"other/file.txt").as_deref(), Some(&b"other/file.txt"[..]));
    assert_eq!(target(b"packagefoo/x").as_deref(), Some(&b"packagefoo/x"[..]));
    assert_eq!(target(b"package//a/./b").as_deref(), Some(&b"a/b"[..]));
    assert_eq!(target(b"./package/a").as_deref(), Some(&b"./package/a"[..]));
    assert_eq!(target(b"/package/a").as_deref(), Some(&b"/package/a"[..]));
}

#[test]
fn tarball_entries_with_non_utf8_names_keep_their_bytes() {
    assert_eq!(target(b"package/caf\xe9.txt").as_deref(), Some(&b"caf\xe9.txt"[..]));
    assert_eq!(target(b"\xff/\xfe").as_deref(), Some(&b"\xff/\xfe"[..]));
}

#[test]
fn paths_compare_by_components() {
    assert!(same_path("/Games/UE_5.7", "/Games/UE_5.7/", '/'));
    assert!(same_path("/Games//UE_5.7", "/Games/./UE_5.7", '/'));
    assert!(!same_path("/Games/UE_5.7", "Games/UE_5.7", '/'));
    assert!(!same_path("./a", "a", '/'));
    assert!(!same_path("/Games/UE_5.7", "/Games/UE_5.6", '/'));
    // On Unix a backslash is an ordinary character; on Windows it separates too.
    assert!(!same_path("C:\\A\\", "C:\\A", '/'));
    assert!(same_path("C:\\A\\", "C:\\A", '\\'));
    assert!(same_path("C:\\Epic/UE_5.3\\", "C:/Epic\\UE_5.3", '\\'));
    assert!(!same_path("C:\\A", "C:A", '\\'));
}

#[test]
fn uplugin_extension_is_recognised() {
    assert!(has_uplugin_extension("TestPlugin.uplugin"));
    assert!(has_uplugin_extension("a.b.uplugin"));
    assert!(!has_uplugin_extension(".uplugin"));
    assert!(!has_uplugin_extension("uplugin"));
    assert!(!has_uplugin_extension("TestPlugin.uplugin.bak"));
    assert!(!has_uplugin_extension("Readme.md"));
}

#[test]
fn first_readable_descriptor_decides_version() {
    let some = |t: &str| Some(t.to_string());
    let contents = vec![None, some("not json"), some(r#"{"VersionName":"1.2.3"}"#), some(r#"{"VersionName":"9.9.9"}"#)];
    assert_eq!(read_uplugin_version(&contents).as_deref(), Some("1.2.3"));
    let contents = vec![some(r#"{"FileVersion": 3}"#), some(r#"{"VersionName":"9.9.9"}"#)];
    assert_eq!(read_uplugin_version(&contents), None);
    assert_eq!(local_plugin_version(&contents), "0.0.0");
    let contents = vec![some(r#"{"VersionName": 7}"#)];
    assert_eq!(local_plugin_version(&contents), "0.0.0");
    assert_eq!(local_plugin_version(&vec![None, None]), "0.0.0");
    assert_eq!(local_plugin_version(&vec![]), "0.0.0");
    assert_eq!(local_plugin_version(&vec![some(r#"{"FileVersion": 3, "VersionName": "1.2.3"}"#)]), "1.2.3");
}

fn make_tarball(entries: &[(&str, &[u8])]) -> Vec<u8> {
    let enc = flate2::write::GzEncoder::new(Vec::new(), flate2::Compression::default());
    let mut builder = tar::Builder::new(enc);
    for (path, content) in entries {
        let mut header = tar::Header::new_gnu();
        header.set_size(content.len() as u64);
        header.set_mode(0o644);
        header.set_cksum();
        builder.append_data(&mut header, path, *content).unwrap();
    }
    builder.into_inner().unwrap().finish().unwrap()
}

#[test]
fn tarball_plan_places_entries_under_the_plugin_directory() {
    let data = make_tarball(&[
        ("package/TestPlugin.uplugin", b"{\"FileVersion\": 3}"),
        ("package/Source/MyFile.cpp", b"// code"),
        ("other/file.txt", b"x"),
    ]);
    let plan = extraction_plan(&data).unwrap();
    assert_eq!(
        plan,
        vec![
            Some(b"TestPlugin.uplugin".to_vec()),
            Some(b"Source/MyFile.cpp".to_vec()),
            Some(b"other/file.txt".to_vec()),
        ]
    );
}

#[test]
fn tarball_that_is_not_gzip_is_refused() {
    assert!(extraction_plan(b"definitely not a tarball").is_err());
}

#[test]
fn entry_targets_follow_entry_target() {
    let paths = vec![b"package".to_vec(), b"package/a/b".to_vec(), Vec::new(), b"x/y".to_vec()];
    assert_eq!(entry_targets(&paths), vec![None, Some(b"a/b".to_vec()), None, Some(b"x/y".to_vec())]);
    assert!(entry_targets(&Vec::new()).is_empty());
}

#[test]
fn first_parsed_candidate_decides_version() {
    let candidates = vec![None, Some(Some("1.2.3".to_string())), Some(Some("9.9.9".to_string()))];
    assert_eq!(first_declared_version(&candidates).as_deref(), Some("1.2.3"));
    let candidates = vec![Some(None), Some(Some("9.9.9".to_string()))];
    assert_eq!(first_declared_version(&candidates), None);
    assert_eq!(first_declared_version(&vec![None, None]), None);
}
