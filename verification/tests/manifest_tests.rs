use vee::package_json::{manifest_path, PackageJson, ScriptsManifest};
use vee::resolver::{PackageInfo, ResolveResult};
use vee::scripts::{lifecycle_commands, lifecycle_package, script_packages, script_path, scripts_from_entries};
use vee::semver_npm::SemVer;
use vee::strmap::StrMap;

fn keys(m: &StrMap<String>) -> Vec<String> {
    (0..m.len()).map(|i| m.key_at(i).clone()).collect()
}

fn empty_manifest(path: &str) -> PackageJson {
    PackageJson {
        name: None,
        version: None,
        scripts: StrMap::new(),
        dependencies: StrMap::new(),
        dev_dependencies: StrMap::new(),
        optional_dependencies: StrMap::new(),
        path: path.to_string(),
    }
}

#[test]
fn added_dependencies_stay_sorted() {
    let mut p = empty_manifest("/p/package.json");
    p.add_dep("react", "^18", false);
    p.add_dep("axios", "^1", false);
    p.add_dep("zod", "^3", false);
    p.add_dep("react", "^19", false);
    p.add_dep("typescript", "^5", true);
    assert_eq!(keys(&p.dependencies), vec!["axios", "react", "zod"]);
    assert_eq!(p.dependencies.get("react").cloned(), Some("^19".to_string()));
    assert_eq!(keys(&p.dev_dependencies), vec!["typescript"]);
    assert!(p.has_dep("typescript"));
    assert!(p.has_dep("zod"));
    assert!(!p.has_dep("vue"));
}

#[test]
fn removed_dependencies_are_gone() {
    let mut p = empty_manifest("/p/package.json");
    p.add_dep("a", "^1", false);
    p.add_dep("a", "^1", true);
    p.optional_dependencies.insert_ordered("b".to_string(), "^2".to_string());
    assert!(p.remove_dep("a"));
    assert!(!p.has_dep("a"));
    assert!(p.has_dep("b"));
    assert!(p.remove_dep("b"));
    assert!(!p.remove_dep("b"));
    assert_eq!(p.dependencies.len() + p.dev_dependencies.len() + p.optional_dependencies.len(), 0);
}

#[test]
fn manifest_locations() {
    assert_eq!(manifest_path("/p"), "/p/package.json");
    assert_eq!(manifest_path("/p/"), "/p/package.json");
    assert_eq!(manifest_path("/p/package.json"), "/p/package.json");
    assert_eq!(manifest_path("package.json"), "package.json");
    assert_eq!(manifest_path("."), "./package.json");
    assert_eq!(empty_manifest("/p/package.json").directory(), "/p");
    assert_eq!(empty_manifest("./package.json").directory(), ".");
    assert_eq!(empty_manifest("package.json").directory(), "");
    assert_eq!(empty_manifest("/").directory(), "/");
}

#[test]
fn scripts_manifest_directory() {
    let m = ScriptsManifest::new(Some("app".to_string()), None, StrMap::new(), "./package.json");
    assert_eq!(m.directory(), ".");
    assert_eq!(m.name, Some("app".to_string()));
    let root = ScriptsManifest::new(None, None, StrMap::new(), "");
    assert_eq!(root.directory(), ".");
    let nested = ScriptsManifest::new(None, None, StrMap::new(), "/w/app/package.json");
    assert_eq!(nested.directory(), "/w/app");
}

#[test]
fn only_string_scripts_are_kept() {
    let s = scripts_from_entries(vec![
        ("build".to_string(), Some("tsc".to_string())),
        ("weird".to_string(), None),
        ("test".to_string(), Some("jest".to_string())),
    ]);
    assert_eq!(keys(&s), vec!["build", "test"]);
}

fn scripts(entries: &[(&str, &str)]) -> StrMap<String> {
    let mut m = StrMap::new();
    for (k, v) in entries {
        m.insert(k.to_string(), v.to_string());
    }
    m
}

#[test]
fn lifecycle_scripts_in_event_order() {
    let p = lifecycle_package(
        "native".to_string(),
        "1.0.0".to_string(),
        scripts(&[("postinstall", "echo done"), ("test", "jest"), ("preinstall", "echo start")]),
        false,
        "/x".to_string(),
    )
    .unwrap();
    assert_eq!(
        lifecycle_commands(&p),
        vec![("preinstall".to_string(), "echo start".to_string()), ("postinstall".to_string(), "echo done".to_string())]
    );
}

#[test]
fn binding_gyp_adds_an_install_script() {
    let p = lifecycle_package("g".to_string(), "1.0.0".to_string(), scripts(&[]), true, "/x".to_string()).unwrap();
    assert_eq!(lifecycle_commands(&p), vec![("install".to_string(), "node-gyp rebuild".to_string())]);
    let own = lifecycle_package("g".to_string(), "1.0.0".to_string(), scripts(&[("install", "make")]), true, "/x".to_string()).unwrap();
    assert_eq!(lifecycle_commands(&own), vec![("install".to_string(), "make".to_string())]);
    assert!(lifecycle_package("n".to_string(), "1.0.0".to_string(), scripts(&[("test", "jest")]), false, "/x".to_string()).is_none());
}

#[test]
fn packages_with_install_scripts() {
    let mut p = PackageInfo {
        name: "native".to_string(),
        version: SemVer::parse("1.0.0").unwrap(),
        tarball_url: String::new(),
        integrity: String::new(),
        dependencies: StrMap::new(),
        optional_dependencies: StrMap::new(),
        peer_dependencies: StrMap::new(),
        optional_peers: StrMap::new(),
        os: None,
        cpu: None,
        has_install_script: true,
        resolved_deps: StrMap::new(),
    };
    let mut packages = StrMap::new();
    packages.insert("native@1.0.0".to_string(), p);
    p = PackageInfo {
        name: "plain".to_string(),
        version: SemVer::parse("2.0.0").unwrap(),
        tarball_url: String::new(),
        integrity: String::new(),
        dependencies: StrMap::new(),
        optional_dependencies: StrMap::new(),
        peer_dependencies: StrMap::new(),
        optional_peers: StrMap::new(),
        os: None,
        cpu: None,
        has_install_script: false,
        resolved_deps: StrMap::new(),
    };
    packages.insert("plain@2.0.0".to_string(), p);
    let result = ResolveResult { packages, peer_warnings: vec![], conflict_warnings: vec![], root_resolved: StrMap::new() };
    assert_eq!(script_packages("/p", &result), vec![(0, "/p/node_modules/.vee/native@1.0.0/node_modules/native".to_string())]);
    assert_eq!(script_path("/p/node_modules/.bin", "/usr/bin:/bin"), "/p/node_modules/.bin:/usr/bin:/bin");
}

#[test]
fn scripts_manifest_sorts_scripts() {
    let mut scripts = StrMap::new();
    scripts.insert("test".to_string(), "jest".to_string());
    scripts.insert("build".to_string(), "tsc".to_string());
    let m = ScriptsManifest::new(None, None, scripts, "/p/package.json");
    assert_eq!(m.scripts.key_at(0), "build");
    assert_eq!(m.scripts.key_at(1), "test");
}

#[test]
fn sections_listing_a_dependency() {
    let mut p = empty_manifest("/p/package.json");
    p.add_dep("x", "^1", false);
    p.add_dep("x", "^1", true);
    assert_eq!(p.dep_sections("x"), vec!["dependencies".to_string(), "devDependencies".to_string()]);
    assert!(p.remove_dep("x"));
    assert!(p.dep_sections("x").is_empty());
}
