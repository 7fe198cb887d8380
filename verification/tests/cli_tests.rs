use vee::cli::{
    bin_short_name, caret_range, column_widths, create_bin, exec_bin, hook_names, lockfile_choice,
    missing_script_message, optional_names, outdated_count, outdated_row, parse_package_spec,
    plural_package, prompt_answer, requested_deps, script_command, shell_quote, split_add_spec,
    to_create_package_name, update_targets,
};
use vee::lockfile::Lockfile;
use vee::package_json::PackageJson;
use vee::strmap::StrMap;

fn map(entries: &[(&str, &str)]) -> StrMap<String> {
    let mut m = StrMap::new();
    for (k, v) in entries {
        m.insert(k.to_string(), v.to_string());
    }
    m
}

fn entries(m: &StrMap<String>) -> Vec<(String, String)> {
    (0..m.len()).map(|i| (m.key_at(i).clone(), m.value_at(i).clone())).collect()
}

fn manifest(deps: &[(&str, &str)], dev: &[(&str, &str)], opt: &[(&str, &str)]) -> PackageJson {
    let mut p = PackageJson {
        name: Some("app".to_string()),
        version: Some("1.0.0".to_string()),
        scripts: StrMap::new(),
        dependencies: StrMap::new(),
        dev_dependencies: StrMap::new(),
        optional_dependencies: StrMap::new(),
        path: "/p/package.json".to_string(),
    };
    for (k, v) in deps {
        p.add_dep(k, v, false);
    }
    for (k, v) in dev {
        p.add_dep(k, v, true);
    }
    for (k, v) in opt {
        p.optional_dependencies.insert_ordered(k.to_string(), v.to_string());
    }
    p
}

#[test]
fn package_spec_plain_name_and_version() {
    assert_eq!(parse_package_spec("react@18.2.0"), ("react".to_string(), "18.2.0".to_string()));
}

#[test]
fn package_spec_scoped_with_version() {
    assert_eq!(parse_package_spec("@types/node@20"), ("@types/node".to_string(), "20".to_string()));
}

#[test]
fn package_spec_without_version_is_latest() {
    assert_eq!(parse_package_spec("lodash"), ("lodash".to_string(), "latest".to_string()));
    assert_eq!(parse_package_spec("@scope/pkg"), ("@scope/pkg".to_string(), "latest".to_string()));
    assert_eq!(parse_package_spec("@"), ("@".to_string(), "latest".to_string()));
}

#[test]
fn package_spec_round_trip() {
    for (name, version) in [("@angular/core", "17.0.0"), ("vite", "^5.1"), ("x", "")] {
        let text = format!("{}@{}", name, version);
        assert_eq!(parse_package_spec(&text), (name.to_string(), version.to_string()));
    }
}

#[test]
fn create_package_names() {
    assert_eq!(to_create_package_name("vite"), "create-vite");
    assert_eq!(to_create_package_name("@scope/app"), "@scope/create-app");
    assert_eq!(to_create_package_name("@scope"), "create-@scope");
}

#[test]
fn create_spec_with_version() {
    let (name, version) = parse_package_spec("vite@5");
    assert_eq!(to_create_package_name(&name), "create-vite");
    assert_eq!(version, "5");
}

#[test]
fn plural_of_package() {
    assert_eq!(plural_package(1), "package");
    assert_eq!(plural_package(0), "packages");
    assert_eq!(plural_package(2), "packages");
}

#[test]
fn add_spec_splits_at_last_at() {
    assert_eq!(split_add_spec("react@^18"), ("react".to_string(), "^18".to_string()));
    assert_eq!(split_add_spec("@types/node@20"), ("@types/node".to_string(), "20".to_string()));
    assert_eq!(split_add_spec("@types/node"), ("@types/node".to_string(), "latest".to_string()));
    assert_eq!(split_add_spec("lodash"), ("lodash".to_string(), "latest".to_string()));
    assert_eq!(split_add_spec("a@"), ("a".to_string(), "".to_string()));
}

#[test]
fn add_spec_round_trip() {
    let text = format!("{}@{}", "@babel/core", "7.24.0");
    assert_eq!(split_add_spec(&text), ("@babel/core".to_string(), "7.24.0".to_string()));
}

#[test]
fn caret_of_latest() {
    assert_eq!(caret_range("1.2.3"), "^1.2.3");
}

#[test]
fn short_names() {
    assert_eq!(bin_short_name("@scope/tool"), "tool");
    assert_eq!(bin_short_name("tool"), "tool");
}

#[test]
fn quoting_for_sh() {
    assert_eq!(shell_quote("it's"), "'it'\\''s'");
    assert_eq!(shell_quote("plain"), "'plain'");
}

#[test]
fn script_command_lines() {
    assert_eq!(script_command("jest", &vec![]), "jest");
    assert_eq!(
        script_command("jest", &vec!["--watch".to_string(), "a b".to_string()]),
        "jest '--watch' 'a b'"
    );
}

#[test]
fn pre_and_post_scripts() {
    assert_eq!(hook_names("build"), ("prebuild".to_string(), "postbuild".to_string()));
}

#[test]
fn missing_script_messages() {
    assert_eq!(missing_script_message("x", &StrMap::new()), "no scripts defined in package.json");
    let scripts = map(&[("build", "tsc"), ("test", "jest")]);
    assert_eq!(missing_script_message("x", &scripts), "script 'x' not found. available: build, test");
}

#[test]
fn prompt_answers() {
    assert_eq!(prompt_answer("  foo \n", "d"), "foo");
    assert_eq!(prompt_answer("   \n", "d"), "d");
}

#[test]
fn exec_bin_choices() {
    let none: Vec<String> = vec![];
    let one = vec!["only".to_string()];
    let two = vec!["a".to_string(), "b".to_string()];
    assert_eq!(exec_bin("x", "x", true, &two), Ok("x".to_string()));
    assert_eq!(exec_bin("x", "x", false, &one), Ok("only".to_string()));
    assert_eq!(exec_bin("x", "x", false, &none), Err("package 'x' does not expose any binaries".to_string()));
    assert_eq!(exec_bin("x", "x", false, &two), Err("failed to find bin 'x'. available: a, b".to_string()));
}

#[test]
fn create_bin_choices() {
    let two = vec!["a".to_string(), "b".to_string()];
    assert_eq!(
        create_bin("create-x", "/t/node_modules/.bin", false, &two),
        Err("failed to find bin 'create-x' in /t/node_modules/.bin. available: a, b".to_string())
    );
    assert_eq!(create_bin("create-x", "/t", false, &vec!["c".to_string()]), Ok("c".to_string()));
}

#[test]
fn requested_dependencies_merge_in_order() {
    let p = manifest(&[("b", "^1"), ("a", "^2")], &[("c", "^3"), ("a", "^9")], &[("d", "^4")]);
    let all = requested_deps(&p, false);
    assert_eq!(
        entries(&all),
        vec![
            ("a".to_string(), "^9".to_string()),
            ("b".to_string(), "^1".to_string()),
            ("c".to_string(), "^3".to_string()),
            ("d".to_string(), "^4".to_string()),
        ]
    );
    let prod = requested_deps(&p, true);
    assert_eq!(
        entries(&prod),
        vec![
            ("a".to_string(), "^2".to_string()),
            ("b".to_string(), "^1".to_string()),
            ("d".to_string(), "^4".to_string()),
        ]
    );
    let opt = optional_names(&p);
    assert_eq!(opt.len(), 1);
    assert!(opt.contains_key("d"));
}

#[test]
fn update_targets_named_or_all() {
    let req = map(&[("a", "^1"), ("b", "^2")]);
    assert_eq!(update_targets(&req, &vec![]), Ok(vec!["a".to_string(), "b".to_string()]));
    assert_eq!(update_targets(&req, &vec!["b".to_string()]), Ok(vec!["b".to_string()]));
    assert_eq!(
        update_targets(&req, &vec!["b".to_string(), "zzz".to_string()]),
        Err("package zzz not found in dependencies".to_string())
    );
}

fn lockfile(root: &[(&str, &str)]) -> Lockfile {
    Lockfile {
        lockfile_version: 2,
        root_deps: map(root),
        root_resolved: StrMap::new(),
        packages: StrMap::new(),
    }
}

#[test]
fn lockfile_choices() {
    let deps = map(&[("a", "^1")]);
    assert_eq!(lockfile_choice(&None, &deps, true), Err("--frozen-lockfile: no vee.lock found".to_string()));
    assert_eq!(lockfile_choice(&None, &deps, false), Ok(false));
    assert_eq!(lockfile_choice(&Some(lockfile(&[("a", "^1")])), &deps, true), Ok(true));
    assert_eq!(
        lockfile_choice(&Some(lockfile(&[("a", "^2")])), &deps, true),
        Err("--frozen-lockfile: vee.lock is out of date".to_string())
    );
    assert_eq!(lockfile_choice(&Some(lockfile(&[])), &deps, false), Ok(false));
}

#[test]
fn outdated_rows() {
    assert_eq!(
        outdated_row("a", None, "^1", "1.2.0", false),
        Some(("a".to_string(), "???".to_string(), "^1".to_string(), "1.2.0".to_string()))
    );
    assert_eq!(outdated_row("a", Some("1.2.0".to_string()), "^1", "1.2.0", false), None);
    assert_eq!(
        outdated_row("a", Some("1.2.0".to_string()), "^1", "1.2.0", true),
        Some(("a".to_string(), "1.2.0".to_string(), "^1".to_string(), "1.2.0".to_string()))
    );
}

#[test]
fn outdated_table_widths_and_count() {
    let rows = vec![
        ("a".to_string(), "1.0.0".to_string(), "^1".to_string(), "2.0.0".to_string()),
        ("a-long-package".to_string(), "1.0.0".to_string(), ">=1.0.0 <3".to_string(), "1.0.0".to_string()),
    ];
    assert_eq!(column_widths(&rows), (14, 7, 10, 6));
    assert_eq!(column_widths(&vec![]), (7, 7, 6, 6));
    assert_eq!(outdated_count(&rows), 1);
}

#[test]
fn outdated_rows_in_name_order() {
    let deps = map(&[("a", "^1"), ("b", "^2"), ("c", "^3")]);
    let latest = vec![Some("1.0.0".to_string()), None, Some("3.1.0".to_string())];
    let rows = vee::cli::outdated_rows(&deps, &None, &latest, false);
    assert_eq!(
        rows,
        vec![
            ("a".to_string(), "???".to_string(), "^1".to_string(), "1.0.0".to_string()),
            ("c".to_string(), "???".to_string(), "^3".to_string(), "3.1.0".to_string()),
        ]
    );
    let none: Vec<Option<String>> = vec![None, None, None];
    assert!(vee::cli::outdated_rows(&deps, &None, &none, true).is_empty());
}

#[test]
fn manifest_maps_are_sorted() {
    let mut deps = StrMap::new();
    deps.insert("zeta".to_string(), "^1".to_string());
    deps.insert("alpha".to_string(), "^2".to_string());
    let p = PackageJson::new(None, None, &StrMap::new(), &deps, &StrMap::new(), &StrMap::new(), "/p/package.json".to_string());
    assert_eq!(p.dependencies.key_at(0), "alpha");
    assert_eq!(p.dependencies.key_at(1), "zeta");
    assert_eq!(p.dep_sections("alpha"), vec!["dependencies".to_string()]);
    assert!(p.dep_sections("nope").is_empty());
}
