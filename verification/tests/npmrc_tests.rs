use vee::npmrc::{expand_env_vars, NpmrcConfig, RegistryAuth};
use vee::registry::{cache_key_for, DistTags, PackageMetadata};
use vee::strmap::StrMap;

fn env(pairs: &[(&str, &str)]) -> Vec<(String, String)> {
    pairs.iter().map(|(k, v)| (k.to_string(), v.to_string())).collect()
}

fn parse(text: &str, e: &[(&str, &str)]) -> NpmrcConfig {
    match NpmrcConfig::parse(text, &env(e)) {
        Ok(c) => c,
        Err(_) => panic!("parsing never fails"),
    }
}

const RC: &str = "registry=https://r.example.com/\n# a comment\n; another\nnot a setting\nstrict-ssl=false\n@acme:registry=https://acme.example.com/\n//acme.example.com/:_authToken=${TOKEN}\n";

#[test]
fn npmrc_settings() {
    let c = parse(RC, &[("TOKEN", "abc")]);
    assert_eq!(c.default_registry, "https://r.example.com");
    assert!(!c.strict_ssl);
    assert_eq!(c.scoped_registries.get("@acme").cloned(), Some("https://acme.example.com".to_string()));
    let auth = c.auth_registries.get("acme.example.com").unwrap();
    assert_eq!(auth.token, Some("abc".to_string()));
}

#[test]
fn npmrc_defaults() {
    let c = parse("", &[]);
    assert_eq!(c.default_registry, "https://registry.npmjs.org");
    assert!(c.strict_ssl);
    assert_eq!(c.scoped_registries.len(), 0);
    assert_eq!(c.auth_registries.len(), 0);
}

#[test]
fn environment_variables_expand() {
    let e = env(&[("X", "1"), ("Y_c", "2")]);
    assert_eq!(expand_env_vars("a${X}b$Y_c.", &e), "a1b2.");
    assert_eq!(expand_env_vars("${MISSING}|$MISSING", &e), "|");
    assert_eq!(expand_env_vars("cost $5 and ${open", &e), "cost $5 and ${open");
    assert_eq!(expand_env_vars("end$", &e), "end$");
}

fn auth(token: Option<&str>, legacy: Option<&str>, user: Option<&str>, pass: Option<&str>) -> RegistryAuth {
    RegistryAuth {
        token: token.map(String::from),
        legacy_auth: legacy.map(String::from),
        username: user.map(String::from),
        password: pass.map(String::from),
        always_auth: false,
    }
}

#[test]
fn authorization_values() {
    assert_eq!(auth(Some("t"), Some("x"), None, None).header_value(), Some("Bearer t".to_string()));
    assert_eq!(auth(None, Some("x"), None, None).header_value(), Some("Basic x".to_string()));
    assert_eq!(auth(None, None, Some("bob"), Some("c2VjcmV0")).header_value(), Some("Basic Ym9iOnNlY3JldA==".to_string()));
    assert_eq!(auth(None, None, Some("bob"), Some("%%%")).header_value(), None);
    assert_eq!(auth(None, None, Some("bob"), None).header_value(), None);
    assert_eq!(RegistryAuth::empty().header_value(), None);
}

#[test]
fn authorization_for_urls() {
    let c = parse(RC, &[("TOKEN", "abc")]);
    assert_eq!(
        c.auth_header_for_url("https://acme.example.com/pkg/-/pkg-1.0.0.tgz"),
        Some(("Authorization".to_string(), "Bearer abc".to_string()))
    );
    assert_eq!(c.auth_header_for_url("https://registry.npmjs.org/pkg"), None);
    assert_eq!(c.auth_header_for_url("http://acme.example.com"), Some(("Authorization".to_string(), "Bearer abc".to_string())));
}

#[test]
fn project_settings_override_user_settings() {
    let user = "registry=https://user.example.com\n//user.example.com/:_auth=dXNlcg==\n";
    let project = "registry=https://project.example.com/\nstrict-ssl=true\n";
    let c = NpmrcConfig::load(Some(user.to_string()), Some(project.to_string()), &env(&[]));
    assert_eq!(c.default_registry, "https://project.example.com");
    assert!(c.strict_ssl);
    assert!(c.auth_registries.contains_key("user.example.com"));
    let mut base = parse("strict-ssl=false\n", &[]);
    base.merge(parse("registry=https://registry.npmjs.org\n", &[]));
    assert!(!base.strict_ssl);
    assert_eq!(base.default_registry, "https://registry.npmjs.org");
    let none = NpmrcConfig::load(None, None, &env(&[]));
    assert_eq!(none.default_registry, "https://registry.npmjs.org");
}

#[test]
fn registries_for_packages() {
    let c = parse(RC, &[("TOKEN", "abc")]);
    assert_eq!(c.registry_url_for("@acme/tool"), "https://acme.example.com");
    assert_eq!(c.registry_url_for("@other/tool"), "https://r.example.com");
    assert_eq!(c.registry_url_for("lodash"), "https://r.example.com");
    assert_eq!(c.metadata_url("@acme/tool"), "https://acme.example.com/@acme/tool");
}

#[test]
fn metadata_cache_names() {
    assert_eq!(cache_key_for("@types/node"), "@types+node");
    assert_eq!(cache_key_for("lodash"), "lodash");
}

#[test]
fn latest_tag() {
    let m = PackageMetadata {
        name: "a".to_string(),
        dist_tags: DistTags { latest: "4.17.21".to_string() },
        versions: StrMap::new(),
    };
    assert_eq!(m.latest_version(), "4.17.21");
}

#[test]
fn later_registry_line_overrides() {
    let first = parse(RC, &[("TOKEN", "abc")]);
    let text = format!("{}registry=https://other.example.com/", RC);
    let second = parse(&text, &[("TOKEN", "abc")]);
    assert_eq!(first.default_registry, "https://r.example.com");
    assert_eq!(second.default_registry, "https://other.example.com");
    assert_eq!(second.strict_ssl, first.strict_ssl);
    assert_eq!(
        second.scoped_registries.get("@acme").cloned(),
        first.scoped_registries.get("@acme").cloned()
    );
    assert_eq!(
        second.auth_registries.get("acme.example.com").unwrap().token,
        first.auth_registries.get("acme.example.com").unwrap().token
    );
}

#[test]
fn later_untrimmed_registry_line_overrides() {
    let text = "registry=https://a.example.com\nstrict-ssl=false\nregistry=   https://b.example.com//  ";
    let c = parse(text, &[]);
    assert_eq!(c.default_registry, "https://b.example.com");
    assert!(!c.strict_ssl);
}
