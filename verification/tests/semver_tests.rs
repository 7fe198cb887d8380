use vee::semver_npm::{add_commas, normalise_range, NpmVersionReq, SemVer};

fn v(text: &str) -> SemVer {
    SemVer::parse(text).unwrap()
}

#[test]
fn x_ranges_become_stars() {
    assert_eq!(normalise_range("1.x"), "1.*");
    assert_eq!(normalise_range("1.2.x"), "1.2.*");
}

#[test]
fn hyphen_ranges_become_bounds() {
    assert_eq!(normalise_range("1.0.0 - 2.0.0"), ">=1.0.0, <=2.0.0");
}

#[test]
fn spaces_after_versions_become_commas() {
    assert_eq!(normalise_range(">=1.0 <2"), ">=1.0,<2");
    assert_eq!(add_commas("1.2.3 4"), "1.2.3,4");
    assert_eq!(add_commas("^1 "), "^1,");
    assert_eq!(add_commas("a b"), "a b");
}

#[test]
fn versions_parse_and_order() {
    assert_eq!(v("1.2.3").to_text(), "1.2.3");
    assert!(SemVer::parse("1.2").is_none());
    assert!(SemVer::parse("v1.2.3").is_none());
    assert!(v("1.2.3").precedes(&v("1.10.0")));
    assert!(!v("2.0.0").precedes(&v("1.9.9")));
    assert!(v("1.0.0-beta.1").precedes(&v("1.0.0")));
    assert_eq!(v("1.2.3").duplicate().to_text(), "1.2.3");
}

#[test]
fn ranges_with_alternatives() {
    let req = NpmVersionReq::parse("^1.2.0 || 2.x").ok().unwrap();
    assert!(req.matches(&v("1.5.0")));
    assert!(req.matches(&v("2.3.0")));
    assert!(!req.matches(&v("3.0.0")));
    assert!(!req.matches(&v("1.1.0")));
}

#[test]
fn any_version_ranges() {
    for text in ["", "  ", "*", "latest"] {
        let req = NpmVersionReq::parse(text).ok().unwrap();
        assert!(req.matches(&v("0.0.1")));
        assert!(req.matches(&v("99.0.0")));
    }
}

#[test]
fn hyphen_range_matches_inclusive() {
    let req = NpmVersionReq::parse("1.0.0 - 2.0.0").ok().unwrap();
    assert!(req.matches(&v("1.0.0")));
    assert!(req.matches(&v("2.0.0")));
    assert!(!req.matches(&v("2.0.1")));
}

#[test]
fn bad_range_is_refused() {
    match NpmVersionReq::parse("^1 || not a range!!") {
        Err(e) => assert_eq!(e.range, "not a range!!"),
        Ok(_) => panic!("the range is not valid"),
    }
}

#[test]
fn bare_version_pins_itself() {
    assert_eq!(normalise_range("18.2.0"), "=18.2.0");
    let req = NpmVersionReq::parse("18.2.0").ok().unwrap();
    assert!(req.matches(&v("18.2.0")));
    assert!(!req.matches(&v("18.3.1")));
    let partial = NpmVersionReq::parse("1.2").ok().unwrap();
    assert!(partial.matches(&v("1.2.9")));
    assert!(!partial.matches(&v("1.3.0")));
    let pre = NpmVersionReq::parse("1.0.0-beta.1").ok().unwrap();
    assert!(pre.matches(&v("1.0.0-beta.1")));
    assert!(!pre.matches(&v("1.0.0")));
}

#[test]
fn bad_range_keeps_semver_cause() {
    match NpmVersionReq::parse("^1 || not a range!!") {
        Err(e) => {
            let expected = semver::VersionReq::parse("not a range!!").unwrap_err().to_string();
            assert_eq!(e.cause, expected);
            assert!(!e.cause.is_empty());
        }
        Ok(_) => panic!("the range is not valid"),
    }
}
