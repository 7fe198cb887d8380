use vee::linker::{bin_links, bin_package_names, check_fingerprint, fingerprint, BinField, Linker};
use vee::lockfile::Lockfile;
use vee::registry::{DistTags, Distribution, PackageMetadata, PeerDependencyMeta, VersionMetadata};
use vee::resolver::{best_version, check_platform_list, find_failed_name, make_key, platform_matches, PackageInfo, ResolveError, ResolveResult, Resolver};
use vee::semver_npm::SemVer;
use vee::strmap::StrMap;

fn map(entries: &[(&str, &str)]) -> StrMap<String> {
    let mut m = StrMap::new();
    for (k, v) in entries {
        m.insert(k.to_string(), v.to_string());
    }
    m
}

fn version_meta(name: &str, version: &str, deps: &[(&str, &str)], peers: &[(&str, &str)]) -> VersionMetadata {
    VersionMetadata {
        name: name.to_string(),
        version: version.to_string(),
        dist: Distribution {
            tarball: format!("https://registry.npmjs.org/{0}/-/{0}-{1}.tgz", name, version),
            integrity: format!("sha512-{}{}", name, version),
        },
        dependencies: if deps.is_empty() { None } else { Some(map(deps)) },
        optional_dependencies: None,
        peer_dependencies: if peers.is_empty() { None } else { Some(map(peers)) },
        peer_dependencies_meta: None,
        os: None,
        cpu: None,
        has_install_script: false,
    }
}

fn metadata(name: &str, versions: Vec<VersionMetadata>) -> PackageMetadata {
    let mut vs = StrMap::new();
    let mut latest = String::new();
    for v in versions {
        latest = v.version.clone();
        vs.insert(v.version.clone(), v);
    }
    PackageMetadata { name: name.to_string(), dist_tags: DistTags { latest }, versions: vs }
}

#[test]
fn best_version_is_highest_match() {
    let m = metadata(
        "a",
        vec![
            version_meta("a", "1.0.0", &[], &[]),
            version_meta("a", "1.2.0", &[("b", "^2")], &[]),
            version_meta("a", "2.0.0", &[], &[]),
            version_meta("a", "not-a-version", &[], &[]),
        ],
    );
    let p = match best_version("a", &m, "^1.0.0") {
        Ok(p) => p,
        Err(_) => panic!("1.2.0 matches"),
    };
    assert_eq!(p.version.to_text(), "1.2.0");
    assert_eq!(p.integrity, "sha512-a1.2.0");
    assert_eq!(p.dependencies.get("b").cloned(), Some("^2".to_string()));
    assert_eq!(p.resolved_deps.len(), 0);
    match best_version("a", &m, "^3") {
        Err(ResolveError::NoMatch { name, range }) => {
            assert_eq!(name, "a");
            assert_eq!(range, "^3");
        }
        _ => panic!("no version matches ^3"),
    }
    match best_version("a", &m, "%%") {
        Err(e) => {
            assert_eq!(e.message(), "failed to parse version range: '%%'");
            assert!(matches!(e, ResolveError::BadRange { .. }));
        }
        Ok(_) => panic!("bad range"),
    }
}

#[test]
fn error_messages() {
    let e = ResolveError::NoMatch { name: "a".to_string(), range: "^3".to_string() };
    assert_eq!(e.message(), "no version of 'a' satisfies the range '^3'");
    let f = ResolveError::Fetch { message: "offline".to_string() };
    assert_eq!(f.message(), "offline");
}

#[test]
fn keys_join_name_and_version() {
    assert_eq!(make_key("@types/node", &SemVer::parse("20.1.0").unwrap()), "@types/node@20.1.0");
}

fn resolve_sample() -> ResolveResult {
    let mut optional = StrMap::new();
    optional.insert("gone".to_string(), ());
    let mut r = Resolver::new(&map(&[("a", "^1"), ("gone", "^1")]), &optional, StrMap::new());
    let first = r.drain_pending(usize::MAX).ok().unwrap();
    assert_eq!(first, vec!["a".to_string(), "gone".to_string()]);
    r.on_metadata(
        "a".to_string(),
        metadata("a", vec![version_meta("a", "1.0.0", &[], &[]), version_meta("a", "1.2.0", &[("b", "^2")], &[("react", "^18")])]),
    );
    assert!(r.on_fetch_failure("404".to_string()).is_ok());
    let second = r.drain_pending(usize::MAX).ok().unwrap();
    assert_eq!(second, vec!["b".to_string(), "react".to_string()]);
    r.on_metadata("b".to_string(), metadata("b", vec![version_meta("b", "2.0.1", &[("a", "^1.2")], &[])]));
    r.on_metadata("react".to_string(), metadata("react", vec![version_meta("react", "17.0.2", &[], &[]), version_meta("react", "18.2.0", &[], &[])]));
    let third = r.drain_pending(usize::MAX).ok().unwrap();
    assert!(third.is_empty());
    assert_eq!(r.conflict_warnings, vec!["skipping optional 'gone': 404".to_string()]);
    match r.finish() {
        Ok(result) => result,
        Err(_) => panic!("resolution succeeds"),
    }
}

#[test]
fn resolver_runs_to_a_result() {
    let result = resolve_sample();
    assert_eq!(result.packages.len(), 3);
    assert_eq!(result.root_resolved.get("a").cloned(), Some("a@1.2.0".to_string()));
    assert!(result.root_resolved.get("gone").is_none());
    let a = result.packages.get("a@1.2.0").unwrap();
    assert_eq!(a.resolved_deps.get("b").cloned(), Some("b@2.0.1".to_string()));
    let b = result.packages.get("b@2.0.1").unwrap();
    assert_eq!(b.resolved_deps.get("a").cloned(), Some("a@1.2.0".to_string()));
    assert_eq!(a.resolved_deps.get("react").cloned(), Some("react@18.2.0".to_string()));
    assert!(result.packages.contains_key("react@18.2.0"));
    assert!(result.peer_warnings.is_empty());
}

#[test]
fn failed_fetch_of_required_package_stops() {
    let mut r = Resolver::new(&map(&[("a", "^1")]), &StrMap::new(), StrMap::new());
    let _ = r.drain_pending(usize::MAX);
    match r.on_fetch_failure("boom".to_string()) {
        Err(ResolveError::Fetch { message }) => assert_eq!(message, "boom"),
        _ => panic!("a is required"),
    }
}

#[test]
fn first_waiting_name() {
    let mut waiting: StrMap<Vec<(String, Option<String>)>> = StrMap::new();
    assert_eq!(find_failed_name(&waiting), None);
    waiting.insert("x".to_string(), vec![("^1".to_string(), None)]);
    waiting.insert("y".to_string(), vec![]);
    assert_eq!(find_failed_name(&waiting), Some("x".to_string()));
}

#[test]
fn lockfile_round_trip() {
    let result = resolve_sample();
    let root = map(&[("a", "^1"), ("gone", "^1")]);
    let lf = Lockfile::from_resolve_result(&result, &root);
    assert_eq!(lf.lockfile_version, 2);
    assert!(lf.is_current(&root));
    assert!(!lf.is_current(&map(&[("a", "^1")])));
    assert!(lf.is_current(&map(&[("gone", "^1"), ("a", "^1")])));
    let back = lf.to_resolve_result().ok().unwrap();
    assert_eq!(back.packages.len(), result.packages.len());
    for i in 0..result.packages.len() {
        assert_eq!(back.packages.key_at(i), result.packages.key_at(i));
        let (p, q) = (result.packages.value_at(i), back.packages.value_at(i));
        assert_eq!(p.version.to_text(), q.version.to_text());
        assert_eq!(p.integrity, q.integrity);
        assert_eq!(p.resolved_deps.len(), q.resolved_deps.len());
    }
    assert_eq!(fingerprint(&back), fingerprint(&result));
}

#[test]
fn platform_lists() {
    let l = |v: &[&str]| v.iter().map(|s| s.to_string()).collect::<Vec<_>>();
    assert!(check_platform_list(&l(&["darwin", "linux"]), "linux"));
    assert!(!check_platform_list(&l(&["darwin"]), "linux"));
    assert!(check_platform_list(&l(&["!win32"]), "linux"));
    assert!(!check_platform_list(&l(&["!linux", "darwin"]), "linux"));
    assert!(!check_platform_list(&l(&[]), "linux"));
}

fn package(name: &str, version: &str) -> PackageInfo {
    PackageInfo {
        name: name.to_string(),
        version: SemVer::parse(version).unwrap(),
        tarball_url: String::new(),
        integrity: format!("sha512-{}", name),
        dependencies: StrMap::new(),
        optional_dependencies: StrMap::new(),
        peer_dependencies: StrMap::new(),
        optional_peers: StrMap::new(),
        os: None,
        cpu: None,
        has_install_script: false,
        resolved_deps: StrMap::new(),
    }
}

#[test]
fn platforms_use_npm_names() {
    let mut p = package("fsevents", "2.3.3");
    p.os = Some(vec!["darwin".to_string()]);
    p.cpu = Some(vec!["x64".to_string(), "arm64".to_string()]);
    assert!(platform_matches(&p, "macos", "aarch64"));
    assert!(platform_matches(&p, "macos", "x86_64"));
    assert!(!platform_matches(&p, "linux", "x86_64"));
    assert!(!platform_matches(&p, "macos", "x86"));
    assert!(platform_matches(&package("any", "1.0.0"), "windows", "x86"));
}

fn result_of(entries: Vec<(&str, PackageInfo)>, root: &[(&str, &str)]) -> ResolveResult {
    let mut packages = StrMap::new();
    for (k, p) in entries {
        packages.insert(k.to_string(), p);
    }
    ResolveResult { packages, peer_warnings: vec![], conflict_warnings: vec![], root_resolved: map(root) }
}

#[test]
fn fingerprint_value_and_order() {
    let mut a = package("a", "1.0.0");
    a.integrity = "sha512-aaa".to_string();
    let mut b = package("b", "2.0.0");
    b.integrity = "sha512-bbb".to_string();
    let r1 = result_of(vec![("a@1.0.0", a), ("b@2.0.0", b)], &[]);
    let fp = fingerprint(&r1);
    assert_eq!(fp, "cd8f6b934de747106e2cafcd914f13eb9e4768fa79340f6e2120326ac38bb5a2");
    let mut a2 = package("a", "1.0.0");
    a2.integrity = "sha512-aaa".to_string();
    let mut b2 = package("b", "2.0.0");
    b2.integrity = "sha512-bbb".to_string();
    let r2 = result_of(vec![("b@2.0.0", b2), ("a@1.0.0", a2)], &[]);
    assert_eq!(fingerprint(&r2), fp);
    assert!(check_fingerprint(Some(fp.as_str()), &fp));
    assert!(check_fingerprint(Some(&format!("  {}\n", fp)), &fp));
    assert!(!check_fingerprint(Some("other"), &fp));
    assert!(!check_fingerprint(None, &fp));
}

#[test]
fn link_plan_layout() {
    let mut a = package("a", "1.0.0");
    a.dependencies = map(&[("b", "^2"), ("a", "^1")]);
    a.optional_dependencies = map(&[("b", "^2")]);
    a.peer_dependencies = map(&[("missing", "^1")]);
    a.resolved_deps = map(&[("b", "b@2.0.0"), ("a", "a@1.0.0")]);
    let b = package("b", "2.0.0");
    let result = result_of(vec![("a@1.0.0", a), ("b@2.0.0", b)], &[("a", "a@1.0.0"), ("z", "z@1.0.0")]);
    let linker = Linker::new("/p".to_string());
    let plan = linker.link(&result, &map(&[("a", "^1"), ("z", "^1"), ("q", "^1")]));
    assert_eq!(plan.modules, "/p/node_modules");
    assert_eq!(
        plan.copies,
        vec![
            ("sha512-a".to_string(), "/p/node_modules/.vee/a@1.0.0/node_modules/a".to_string()),
            ("sha512-b".to_string(), "/p/node_modules/.vee/b@2.0.0/node_modules/b".to_string()),
        ]
    );
    assert_eq!(
        plan.links,
        vec![
            ("/p/node_modules/.vee/a@1.0.0/node_modules/b".to_string(), "../../b@2.0.0/node_modules/b".to_string()),
            ("/p/node_modules/a".to_string(), ".vee/a@1.0.0/node_modules/a".to_string()),
        ]
    );
}

#[test]
fn flat_install_keeps_highest_version() {
    let result = result_of(
        vec![("a@1.0.0", package("a", "1.0.0")), ("a@1.5.0", package("a", "1.5.0")), ("a@1.2.0", package("a", "1.2.0")), ("b@1.0.0", package("b", "1.0.0"))],
        &[],
    );
    let mut hi = package("a", "1.5.0");
    hi.integrity = "sha512-hi".to_string();
    let mut packages = StrMap::new();
    for i in 0..result.packages.len() {
        let key = result.packages.key_at(i).clone();
        if key == "a@1.5.0" {
            packages.insert(key, package_with("a", "1.5.0", "sha512-hi"));
        } else {
            let p = result.packages.value_at(i);
            packages.insert(key, package_with(&p.name, &p.version.to_text(), &p.integrity));
        }
    }
    let result = ResolveResult { packages, peer_warnings: vec![], conflict_warnings: vec![], root_resolved: StrMap::new() };
    let plan = Linker::new("/t".to_string()).link_flat(&result);
    assert_eq!(
        plan.copies,
        vec![
            ("sha512-hi".to_string(), "/t/node_modules/a".to_string()),
            ("sha512-b".to_string(), "/t/node_modules/b".to_string()),
        ]
    );
    assert!(plan.links.is_empty());
}

fn package_with(name: &str, version: &str, integrity: &str) -> PackageInfo {
    let mut p = package(name, version);
    p.integrity = integrity.to_string();
    p
}

#[test]
fn program_links() {
    assert_eq!(
        bin_links("/p/node_modules", "tool", &BinField::Single("bin/cli.js".to_string())),
        vec![("/p/node_modules/.bin/tool".to_string(), "../tool/bin/cli.js".to_string())]
    );
    let named = BinField::Named(vec![
        ("t1".to_string(), Some("a.js".to_string())),
        ("t2".to_string(), None),
        ("t3".to_string(), Some("b.js".to_string())),
    ]);
    assert_eq!(
        bin_links("/p/node_modules", "tool", &named),
        vec![
            ("/p/node_modules/.bin/t1".to_string(), "../tool/a.js".to_string()),
            ("/p/node_modules/.bin/t3".to_string(), "../tool/b.js".to_string()),
        ]
    );
    assert!(bin_links("/p/node_modules", "tool", &BinField::Absent).is_empty());
    let result = result_of(vec![("a@1.0.0", package("a", "1.0.0"))], &[("a", "a@1.0.0"), ("z", "z@1.0.0")]);
    assert_eq!(bin_package_names(&result, &map(&[("a", "^1"), ("z", "^1"), ("q", "^1")])), vec!["a".to_string()]);
}

#[test]
fn optional_peer_meta() {
    let mut meta = StrMap::new();
    meta.insert("react".to_string(), PeerDependencyMeta { optional: true });
    let mut v = version_meta("c", "1.0.0", &[], &[("react", "^18")]);
    v.peer_dependencies_meta = Some(meta);
    let m = metadata("c", vec![v]);
    let p = best_version("c", &m, "*").ok().unwrap();
    assert!(p.optional_peers.contains_key("react"));
}

#[test]
fn drain_stops_at_first_error() {
    let mut initial = StrMap::new();
    initial.insert("a".to_string(), metadata("a", vec![version_meta("a", "1.0.0", &[], &[])]));
    let mut r = Resolver::new(&map(&[("a", "^2"), ("z", "^1")]), &StrMap::new(), initial);
    match r.drain_pending(usize::MAX) {
        Err(ResolveError::NoMatch { name, range }) => {
            assert_eq!(name, "a");
            assert_eq!(range, "^2");
        }
        _ => panic!("no version of a satisfies ^2"),
    }
    // the step that failed took `a` off; `z` is still queued
    assert_eq!(r.pending.len(), 1);
    assert!(r.waiting.is_empty());
}

#[test]
fn drain_skips_optional_without_match() {
    let mut initial = StrMap::new();
    initial.insert("a".to_string(), metadata("a", vec![version_meta("a", "1.0.0", &[], &[])]));
    let mut optional = StrMap::new();
    optional.insert("a".to_string(), ());
    let mut r = Resolver::new(&map(&[("a", "^2")]), &optional, initial);
    let names = r.drain_pending(usize::MAX).ok().unwrap();
    assert!(names.is_empty());
    assert_eq!(r.conflict_warnings.len(), 1);
    assert!(r.conflict_warnings[0].starts_with("skipping optional 'a': "));
    assert!(r.root_resolved.get("a").is_none());
}

#[test]
fn drain_honours_limit_and_never_refetches() {
    let mut initial = StrMap::new();
    initial.insert("a".to_string(), metadata("a", vec![version_meta("a", "1.0.0", &[("b", "^1")], &[])]));
    let mut r = Resolver::new(&map(&[("a", "^1"), ("c", "^1")]), &StrMap::new(), initial);
    let first = r.drain_pending(1).ok().unwrap();
    assert!(first.is_empty());
    assert_eq!(r.root_resolved.get("a").cloned(), Some("a@1.0.0".to_string()));
    let rest = r.drain_pending(usize::MAX).ok().unwrap();
    assert_eq!(rest, vec!["c".to_string(), "b".to_string()]);
    // `a` is at hand already, so it is never given back to fetch
    assert!(!rest.contains(&"a".to_string()));
}

#[test]
fn pinned_version_is_kept_exactly() {
    let mut initial = StrMap::new();
    initial.insert(
        "react".to_string(),
        metadata("react", vec![version_meta("react", "18.2.0", &[], &[]), version_meta("react", "18.3.1", &[], &[])]),
    );
    let mut r = Resolver::new(&map(&[("react", "18.2.0")]), &StrMap::new(), initial);
    assert!(r.drain_pending(usize::MAX).ok().unwrap().is_empty());
    assert_eq!(r.root_resolved.get("react").cloned(), Some("react@18.2.0".to_string()));
}

#[test]
fn dependencies_resolve_within_their_ranges() {
    let result = resolve_sample();
    for i in 0..result.packages.len() {
        let p = result.packages.value_at(i);
        for j in 0..p.resolved_deps.len() {
            let dep = p.resolved_deps.key_at(j);
            let target = result.packages.get(p.resolved_deps.value_at(j)).unwrap();
            assert_eq!(&target.name, dep);
            let range = p.dependencies.get(dep).or(p.peer_dependencies.get(dep)).unwrap();
            let req = vee::semver_npm::NpmVersionReq::parse(range).ok().unwrap();
            assert!(req.matches(&target.version));
        }
    }
}

#[test]
fn packages_come_from_their_documents_and_all_resolve() {
    let result = resolve_sample();
    for i in 0..result.packages.len() {
        let p = result.packages.value_at(i);
        let v = p.version.to_text();
        assert_eq!(p.integrity, format!("sha512-{}{}", p.name, v));
        assert_eq!(p.tarball_url, format!("https://registry.npmjs.org/{0}/-/{0}-{1}.tgz", p.name, v));
        for j in 0..p.dependencies.len() {
            assert!(p.resolved_deps.contains_key(p.dependencies.key_at(j)));
        }
        for j in 0..p.peer_dependencies.len() {
            assert!(p.resolved_deps.contains_key(p.peer_dependencies.key_at(j)));
        }
    }
}

#[test]
fn bad_range_report_names_the_cause() {
    let e = ResolveError::BadRange { range: "x y".to_string(), cause: "unexpected character".to_string() };
    assert_eq!(e.message(), "failed to parse version range: 'x y'");
    assert_eq!(e.report(), "failed to parse version range: 'x y': unexpected character");
    let n = ResolveError::NoMatch { name: "a".to_string(), range: "^2".to_string() };
    assert_eq!(n.report(), n.message());
}
