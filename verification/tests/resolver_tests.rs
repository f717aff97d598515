use uepm::error::UepmError;
use uepm::lockfile::LockFile;
use uepm::manifest::{create_manifest, add_plugin};
use uepm::resolver::{check_conflict, download_needed, plugin_dir_name, PackageMetadata, Reply, Request, Resolver};
use uepm::strmap::StrMap;

#[test]
fn test_no_conflict_is_ok() {
    let result = check_conflict("@acme/base-plugin", "1.0.0", "^1.0.0");
    assert!(result.is_ok());
}

#[test]
fn test_conflict_detected() {
    let result = check_conflict("@acme/base-plugin", "1.0.0", "^2.0.0");
    assert!(result.is_err());
    let err = result.unwrap_err().to_string();
    assert!(err.contains("conflict") || err.contains("Conflict") || err.contains("1.0.0"));
}

#[test]
fn test_plugin_dir_name_scoped() {
    assert_eq!(plugin_dir_name("@acme/cool-plugin"), "cool-plugin");
}

#[test]
fn test_plugin_dir_name_unscoped() {
    assert_eq!(plugin_dir_name("my-plugin"), "my-plugin");
}

#[test]
fn plugin_dir_name_takes_text_after_last_slash() {
    assert_eq!(plugin_dir_name("a/b/c"), "c");
    assert_eq!(plugin_dir_name("trailing/"), "");
    assert_eq!(plugin_dir_name(""), "");
}

#[test]
fn conflict_message_names_both_versions() {
    let err = check_conflict("@acme/base-plugin", "1.0.0", "^2.0.0").unwrap_err();
    match &err {
        UepmError::VersionConflict { package, message } => {
            assert_eq!(package, "@acme/base-plugin");
            assert_eq!(message, "installed version 1.0.0 does not satisfy required range ^2.0.0");
        }
        other => panic!("unexpected error {:?}", other),
    }
    assert_eq!(
        err.to_string(),
        "version conflict for @acme/base-plugin: installed version 1.0.0 does not satisfy required range ^2.0.0"
    );
}

#[test]
fn invalid_range_is_reported_before_version() {
    match check_conflict("@acme/p", "not-a-version", "not a range!") {
        Err(UepmError::InvalidSemver { range, .. }) => assert_eq!(range, "not a range!"),
        other => panic!("unexpected {:?}", other),
    }
}

#[test]
fn invalid_version_is_reported() {
    match check_conflict("@acme/p", "one.two", "^1.0.0") {
        Err(UepmError::InvalidSemver { range, message }) => {
            assert_eq!(range, "one.two");
            assert!(!message.is_empty());
        }
        other => panic!("unexpected {:?}", other),
    }
}

fn meta(version: &str, name: &str) -> PackageMetadata {
    PackageMetadata {
        version: version.to_string(),
        tarball: format!("https://registry.example/{name}-{version}.tgz"),
        integrity: format!("sha512-{name}"),
    }
}

#[test]
fn resolver_installs_dependencies_depth_first_and_locks_them() {
    let (mut resolver, mut request) =
        Resolver::start(LockFile::new(), StrMap::new(), "@acme/app", "^1.0.0");
    let mut installed: Vec<String> = Vec::new();
    let mut steps = 0;
    loop {
        steps += 1;
        assert!(steps < 50);
        let reply = match &request {
            Request::FetchMetadata { package, .. } => match package.as_str() {
                "@acme/app" => Reply::Metadata(Ok(meta("1.2.0", "app"))),
                "@acme/base" => Reply::Metadata(Ok(meta("2.1.0", "base"))),
                other => panic!("unexpected fetch {other}"),
            },
            Request::Install { package, .. } => {
                installed.push(package.clone());
                Reply::Installed(Ok(()))
            }
            Request::ReadPluginManifest { package } => {
                if package == "@acme/app" {
                    let mut m = create_manifest(None, false);
                    add_plugin(&mut m, "@acme/base", "^2.0.0");
                    Reply::PluginManifest(Some(m))
                } else {
                    Reply::PluginManifest(None)
                }
            }
            Request::Done(outcome) => {
                assert!(outcome.is_ok());
                break;
            }
        };
        request = resolver.step(reply);
    }
    assert_eq!(installed, vec!["@acme/app".to_string(), "@acme/base".to_string()]);
    let (lock, resolved) = resolver.into_parts();
    assert_eq!(resolved.get("@acme/app").map(|s| s.as_str()), Some("1.2.0"));
    assert_eq!(resolved.get("@acme/base").map(|s| s.as_str()), Some("2.1.0"));
    let app = lock.plugins.get("@acme/app").unwrap();
    assert_eq!(app.resolved, "1.2.0");
    assert_eq!(app.sha512, "sha512-app");
    assert_eq!(app.dependencies.get("@acme/base").map(|s| s.as_str()), Some("2.1.0"));
    assert!(lock.plugins.get("@acme/base").unwrap().dependencies.is_empty());
}

#[test]
fn resolver_uses_locked_version_without_lookup() {
    let mut lock = LockFile::new();
    lock.plugins.insert(
        "@acme/app".to_string(),
        uepm::lockfile::LockedPlugin {
            resolved: "1.0.3".to_string(),
            tarball: "https://registry.example/app-1.0.3.tgz".to_string(),
            sha512: "sha512-locked".to_string(),
            dependencies: StrMap::new(),
        },
    );
    let (mut resolver, request) = Resolver::start(lock, StrMap::new(), "@acme/app", "^1.0.0");
    match &request {
        Request::Install { package, metadata } => {
            assert_eq!(package, "@acme/app");
            assert_eq!(metadata.version, "1.0.3");
            assert_eq!(metadata.integrity, "sha512-locked");
        }
        other => panic!("unexpected {:?}", other),
    }
    let next = resolver.step(Reply::Installed(Ok(())));
    assert!(matches!(next, Request::ReadPluginManifest { .. }));
    let done = resolver.step(Reply::PluginManifest(None));
    assert!(matches!(done, Request::Done(Ok(()))));
}

#[test]
fn resolver_reports_conflict_with_already_resolved_version() {
    let mut resolved = StrMap::new();
    resolved.insert("@acme/base".to_string(), "1.0.0".to_string());
    let (_resolver, request) = Resolver::start(LockFile::new(), resolved, "@acme/base", "^2.0.0");
    match request {
        Request::Done(Err(UepmError::VersionConflict { package, .. })) => {
            assert_eq!(package, "@acme/base")
        }
        other => panic!("unexpected {:?}", other),
    }
}

#[test]
fn resolver_skips_already_resolved_compatible_package() {
    let mut resolved = StrMap::new();
    resolved.insert("@acme/base".to_string(), "2.3.0".to_string());
    let (_resolver, request) = Resolver::start(LockFile::new(), resolved, "@acme/base", "^2.0.0");
    assert!(matches!(request, Request::Done(Ok(()))));
}

#[test]
fn resolver_stops_on_download_failure() {
    let (mut resolver, request) = Resolver::start(LockFile::new(), StrMap::new(), "@acme/app", "^1.0.0");
    assert!(matches!(request, Request::FetchMetadata { .. }));
    let request = resolver.step(Reply::Metadata(Ok(meta("1.0.0", "app"))));
    assert!(matches!(request, Request::Install { .. }));
    let request = resolver.step(Reply::Installed(Err(UepmError::Http("boom".to_string()))));
    assert!(matches!(request, Request::Done(Err(UepmError::Http(_)))));
    // Once finished, the outcome is repeated.
    let again = resolver.step(Reply::Installed(Ok(())));
    assert!(matches!(again, Request::Done(Err(UepmError::Http(_)))));
    let (lock, resolved) = resolver.into_parts();
    assert!(lock.plugins.is_empty());
    assert!(resolved.is_empty());
}

#[test]
fn resolver_repeats_request_on_unrelated_reply() {
    let (mut resolver, request) = Resolver::start(LockFile::new(), StrMap::new(), "@acme/app", "^1.0.0");
    assert!(matches!(request, Request::FetchMetadata { .. }));
    let again = resolver.step(Reply::Installed(Ok(())));
    match again {
        Request::FetchMetadata { package, range } => {
            assert_eq!(package, "@acme/app");
            assert_eq!(range, "^1.0.0");
        }
        other => panic!("unexpected {:?}", other),
    }
}

#[test]
fn resolver_finishes_on_cyclic_manifests_installing_each_once() {
    let mut resolved = StrMap::new();
    resolved.insert("@acme/old".to_string(), "0.9.0".to_string());
    let (mut resolver, mut request) = Resolver::start(LockFile::new(), resolved, "@acme/a", "^1.0.0");
    let mut installed: Vec<String> = Vec::new();
    let mut steps = 0;
    loop {
        steps += 1;
        // three names can be met (a, b, old): the run needs at most 3 * 3 + 4 answers
        assert!(steps <= 13);
        let reply = match &request {
            Request::FetchMetadata { package, .. } => match package.as_str() {
                "@acme/a" => Reply::Metadata(Ok(meta("1.0.0", "a"))),
                "@acme/b" => Reply::Metadata(Ok(meta("1.1.0", "b"))),
                other => panic!("unexpected fetch {other}"),
            },
            Request::Install { package, .. } => {
                assert!(!installed.contains(package));
                assert_ne!(package, "@acme/old");
                installed.push(package.clone());
                Reply::Installed(Ok(()))
            }
            Request::ReadPluginManifest { package } => {
                let mut m = create_manifest(None, false);
                if package == "@acme/a" {
                    add_plugin(&mut m, "@acme/b", "^1.0.0");
                } else {
                    add_plugin(&mut m, "@acme/a", "^1.0.0");
                    add_plugin(&mut m, "@acme/old", "^0.9.0");
                }
                Reply::PluginManifest(Some(m))
            }
            Request::Done(outcome) => {
                assert!(outcome.is_ok());
                break;
            }
        };
        request = resolver.step(reply);
    }
    assert_eq!(installed, vec!["@acme/a".to_string(), "@acme/b".to_string()]);
    let (lock, resolved) = resolver.into_parts();
    assert_eq!(resolved.get("@acme/old").map(|s| s.as_str()), Some("0.9.0"));
    assert_eq!(resolved.get("@acme/a").map(|s| s.as_str()), Some("1.0.0"));
    assert_eq!(resolved.get("@acme/b").map(|s| s.as_str()), Some("1.1.0"));
    let b = lock.plugins.get("@acme/b").unwrap();
    assert_eq!(b.dependencies.get("@acme/a").map(|s| s.as_str()), Some("1.0.0"));
    assert_eq!(lock.plugins.get("@acme/a").unwrap().dependencies.get("@acme/b").map(|s| s.as_str()), Some("1.1.0"));
}

#[test]
fn conflict_deep_in_the_tree_names_its_chain_and_suggests_a_pin() {
    let mut resolved = StrMap::new();
    resolved.insert("@acme/util".to_string(), "1.0.0".to_string());
    let (mut resolver, request) = Resolver::start(LockFile::new(), resolved, "@acme/app", "^1.0.0");
    assert!(matches!(request, Request::FetchMetadata { .. }));
    resolver.step(Reply::Metadata(Ok(meta("1.0.0", "app"))));
    resolver.step(Reply::Installed(Ok(())));
    let mut m = create_manifest(None, false);
    add_plugin(&mut m, "@acme/base", "^2.0.0");
    resolver.step(Reply::PluginManifest(Some(m)));
    resolver.step(Reply::Metadata(Ok(meta("2.0.0", "base"))));
    resolver.step(Reply::Installed(Ok(())));
    let mut m = create_manifest(None, false);
    add_plugin(&mut m, "@acme/util", "^2.0.0");
    let done = resolver.step(Reply::PluginManifest(Some(m)));
    let e = match done {
        Request::Done(Err(e)) => e,
        other => panic!("unexpected {:?}", other),
    };
    match resolver.explain_conflict(e) {
        UepmError::VersionConflict { package, message } => {
            assert_eq!(package, "@acme/util");
            assert_eq!(
                message,
                "installed version 1.0.0 does not satisfy required range ^2.0.0; required through \
                 @acme/app -> @acme/base -> @acme/util; pin a version of @acme/util in Config/UEPM.ini \
                 to settle it"
            );
        }
        other => panic!("unexpected {:?}", other),
    }
    let other = resolver.explain_conflict(UepmError::Io("disk".to_string()));
    assert!(matches!(other, UepmError::Io(m) if m == "disk"));
}

#[test]
fn locked_package_in_place_is_not_downloaded_again() {
    let mut lock = LockFile::new();
    lock.plugins.insert(
        "@acme/app".to_string(),
        uepm::lockfile::LockedPlugin {
            resolved: "1.0.3".to_string(),
            tarball: "https://registry.example/app-1.0.3.tgz".to_string(),
            sha512: "sha512-locked".to_string(),
            dependencies: StrMap::new(),
        },
    );
    let (resolver, request) = Resolver::start(lock, StrMap::new(), "@acme/app", "^1.0.0");
    let metadata = match &request {
        Request::Install { metadata, .. } => metadata.clone(),
        other => panic!("unexpected {:?}", other),
    };
    assert!(!download_needed(resolver.lock_file(), "@acme/app", &metadata, true));
    assert!(download_needed(resolver.lock_file(), "@acme/app", &metadata, false));
    let newer = PackageMetadata { version: "1.0.4".to_string(), ..metadata.clone() };
    assert!(download_needed(resolver.lock_file(), "@acme/app", &newer, true));
    let other_sum = PackageMetadata { integrity: "sha512-other".to_string(), ..metadata.clone() };
    assert!(download_needed(resolver.lock_file(), "@acme/app", &other_sum, true));
    assert!(download_needed(resolver.lock_file(), "@acme/base", &metadata, true));
}
