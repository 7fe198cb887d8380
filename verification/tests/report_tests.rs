use vee::cli::{dep_tree, installed_version, lf_version, list_rows, optional_keys, peer_warning_message, platform_skips, update_report, TreeLine};
use vee::lockfile::{LockedPackage, Lockfile};
use vee::resolver::{PackageInfo, PeerWarning, ResolveResult};
use vee::semver_npm::SemVer;
use vee::strmap::StrMap;

fn map(entries: &[(&str, &str)]) -> StrMap<String> {
    let mut m = StrMap::new();
    for (k, v) in entries {
        m.insert(k.to_string(), v.to_string());
    }
    m
}

fn locked(name: &str, version: &str, deps: &[(&str, &str)], resolved: &[(&str, &str)]) -> LockedPackage {
    LockedPackage {
        name: name.to_string(),
        version: version.to_string(),
        tarball_url: format!("https://registry.npmjs.org/{0}/-/{0}-{1}.tgz", name, version),
        integrity: "sha512-x".to_string(),
        dependencies: map(deps),
        optional_dependencies: StrMap::new(),
        peer_dependencies: StrMap::new(),
        optional_peers: vec![],
        os: None,
        cpu: None,
        has_install_script: false,
        resolved_deps: map(resolved),
    }
}

fn sample_lockfile() -> Lockfile {
    let mut packages = StrMap::new();
    packages.insert("a@1.0.0".to_string(), locked("a", "1.0.0", &[("b", "^2"), ("c", "^1")], &[("b", "b@2.1.0")]));
    packages.insert("b@2.1.0".to_string(), locked("b", "2.1.0", &[], &[]));
    packages.insert("d@3.0.0".to_string(), locked("d", "3.0.0", &[], &[]));
    Lockfile {
        lockfile_version: 2,
        root_deps: map(&[("a", "^1"), ("d", "^3")]),
        root_resolved: map(&[("a", "a@1.0.0"), ("x", "x@9.9.9")]),
        packages,
    }
}

#[test]
fn versions_from_the_lockfile() {
    let lf = Some(sample_lockfile());
    assert_eq!(lf_version(&lf, "b@2.1.0"), Some("2.1.0".to_string()));
    assert_eq!(lf_version(&lf, "nope"), None);
    assert_eq!(lf_version(&None, "b@2.1.0"), None);
    assert_eq!(installed_version(&lf, "a"), Some("1.0.0".to_string()));
    assert_eq!(installed_version(&lf, "x"), None);
    assert_eq!(installed_version(&lf, "d"), None);
}

#[test]
fn list_shows_versions_or_unknown() {
    let lf = Some(sample_lockfile());
    let rows = list_rows(&map(&[("a", "^1"), ("q", "^5")]), &lf);
    assert_eq!(
        rows,
        vec![
            ("a".to_string(), "1.0.0".to_string(), "^1".to_string()),
            ("q".to_string(), "???".to_string(), "^5".to_string()),
        ]
    );
}

#[test]
fn dependency_tree_lines() {
    let lf = sample_lockfile();
    let lines = dep_tree(&map(&[("a", "^1"), ("d", "^3"), ("q", "^5"), ("x", "^9")]), &lf);
    assert_eq!(lines.len(), 3);
    match &lines[0] {
        TreeLine::Installed { name, version, range, children } => {
            assert_eq!(name, "a");
            assert_eq!(version, "1.0.0");
            assert_eq!(range, "^1");
            assert_eq!(children, &vec![("b".to_string(), "2.1.0".to_string()), ("c".to_string(), "???".to_string())]);
        }
        _ => panic!("a is installed"),
    }
    match &lines[1] {
        TreeLine::Installed { name, version, children, .. } => {
            assert_eq!(name, "d");
            assert_eq!(version, "3.0.0");
            assert!(children.is_empty());
        }
        _ => panic!("d is found by its key"),
    }
    match &lines[2] {
        TreeLine::NotInstalled { name } => assert_eq!(name, "q"),
        _ => panic!("q is not installed"),
    }
}

#[test]
fn update_report_lines() {
    let old = sample_lockfile();
    let mut new = sample_lockfile();
    new.packages.insert("a@1.1.0".to_string(), locked("a", "1.1.0", &[], &[]));
    new.root_resolved.insert("a".to_string(), "a@1.1.0".to_string());
    new.root_resolved.insert("d".to_string(), "d@3.0.0".to_string());
    let names = vec!["a".to_string(), "d".to_string(), "x".to_string()];
    assert_eq!(
        update_report(&names, &Some(old), &new),
        vec!["updating a from 1.0.0 to 1.1.0".to_string(), "d: (new) 3.0.0".to_string()]
    );
    let same = sample_lockfile();
    assert!(update_report(&vec!["a".to_string()], &Some(sample_lockfile()), &same).is_empty());
}

#[test]
fn peer_warnings_are_lower_case() {
    let found = PeerWarning {
        package: "MyPkg@1.0.0".to_string(),
        peer_name: "React".to_string(),
        required_range: "^18".to_string(),
        found_version: SemVer::parse("17.0.2"),
    };
    assert_eq!(peer_warning_message(&found), "mypkg@1.0.0 requires peer react '^18', but 17.0.2 is resolved");
    let missing = PeerWarning {
        package: "p@1.0.0".to_string(),
        peer_name: "react".to_string(),
        required_range: "^18".to_string(),
        found_version: None,
    };
    assert_eq!(peer_warning_message(&missing), "p@1.0.0 requires peer react '^18' which is not installed");
}

fn package(name: &str, version: &str) -> PackageInfo {
    PackageInfo {
        name: name.to_string(),
        version: SemVer::parse(version).unwrap(),
        tarball_url: String::new(),
        integrity: format!("sha512-{}", name),
        dependencies: StrMap::new(),
        optional_dependencies: StrMap::new(),
        peer_dependencies: StrMap::new(),
        optional_peers: StrMap::new(),
        os: None,
        cpu: None,
        has_install_script: false,
        resolved_deps: StrMap::new(),
    }
}

#[test]
fn optional_package_keys() {
    let mut packages = StrMap::new();
    packages.insert("a@1.0.0".to_string(), package("a", "1.0.0"));
    packages.insert("fsevents@2.3.3".to_string(), package("fsevents", "2.3.3"));
    let result = ResolveResult { packages, peer_warnings: vec![], conflict_warnings: vec![], root_resolved: StrMap::new() };
    let mut optional = StrMap::new();
    optional.insert("fsevents".to_string(), ());
    assert_eq!(optional_keys(&result, &optional), vec!["fsevents@2.3.3".to_string()]);
}

#[test]
fn optional_packages_for_other_platforms_are_skipped() {
    let mut fse = package("fsevents", "2.3.3");
    fse.os = Some(vec!["darwin".to_string()]);
    let mut required = package("esbuild-darwin", "0.1.0");
    required.os = Some(vec!["darwin".to_string()]);
    let mut packages = StrMap::new();
    packages.insert("fsevents@2.3.3".to_string(), fse);
    packages.insert("esbuild-darwin@0.1.0".to_string(), required);
    packages.insert("a@1.0.0".to_string(), package("a", "1.0.0"));
    let result = ResolveResult { packages, peer_warnings: vec![], conflict_warnings: vec![], root_resolved: StrMap::new() };
    let mut optional = StrMap::new();
    optional.insert("fsevents".to_string(), ());
    optional.insert("a".to_string(), ());
    assert_eq!(platform_skips(&result, &optional, "linux", "x86_64"), vec!["fsevents@2.3.3".to_string()]);
    assert!(platform_skips(&result, &optional, "macos", "aarch64").is_empty());
}
