use vee::cache::{extract_target, CacheStore, PathPart};
use vee::integrity::{HashAlg, Integrity, IntegrityError};

const SHA256_HELLO: &str = "sha256-LPJNul+wow4m6DsqxbninhsWHlwfp0JecwQzYpOLmCQ=";
const SHA1_HELLO: &str = "sha1-qvTGHdzF6KLavt4PO0gs2a6pQ00=";
const SHA512_HELLO: &str =
    "sha512-m3HSJL1i83hdltRq0+o9czGb+8KJDKra4t/3JRlnPKcjI8PZm6XBHXx6zG4UuMXaDEZjR1wuXDre9G9zvN7AQw==";

fn parse(sri: &str) -> Integrity {
    match Integrity::parse(sri) {
        Ok(i) => i,
        Err(_) => panic!("valid integrity"),
    }
}

#[test]
fn integrity_parses_algorithm_and_digest() {
    let i = parse(SHA256_HELLO);
    assert_eq!(i.alg, HashAlg::Sha256);
    assert_eq!(i.digest.len(), 32);
    assert_eq!(i.digest[0], 0x2c);
    assert_eq!(i.digest[31], 0x24);
}

#[test]
fn cache_key_is_hex_digest() {
    assert_eq!(
        parse(SHA256_HELLO).cache_key(),
        "sha256-2cf24dba5fb0a30e26e83b2ac5b9e29e1b161e5c1fa7425e73043362938b9824"
    );
    assert_eq!(parse(SHA1_HELLO).cache_key(), "sha1-aaf4c61ddcc5e8a2dabede0f3b482cd9aea9434d");
}

#[test]
fn integrity_errors() {
    match Integrity::parse("nodash") {
        Err(IntegrityError::InvalidFormat { sri }) => assert_eq!(sri, "nodash"),
        _ => panic!("no dash"),
    }
    match Integrity::parse("md5-abc") {
        Err(IntegrityError::UnsupportedAlgorithm { alg }) => assert_eq!(alg, "md5"),
        _ => panic!("md5 is not supported"),
    }
    match Integrity::parse("sha256-!!!") {
        Err(IntegrityError::InvalidBase64) => {}
        _ => panic!("not base64"),
    }
}

#[test]
fn verifier_accepts_matching_data_in_pieces() {
    for sri in [SHA1_HELLO, SHA256_HELLO, SHA512_HELLO] {
        let mut v = parse(sri).integrity_verifier();
        v.update(b"hel");
        v.update(b"lo");
        assert!(v.verify());
    }
}

#[test]
fn verifier_rejects_other_data() {
    for sri in [SHA1_HELLO, SHA256_HELLO, SHA512_HELLO] {
        let mut v = parse(sri).integrity_verifier();
        v.update(b"hello!");
        assert!(!v.verify());
    }
}

#[test]
fn cache_paths() {
    let cache = CacheStore::new("/home/u");
    assert_eq!(cache.store_dir(), "/home/u/.vee/store");
    assert_eq!(cache.tmp_dir(), "/home/u/.vee/tmp");
    assert_eq!(
        cache.get(SHA1_HELLO).ok(),
        Some("/home/u/.vee/store/sha1-aaf4c61ddcc5e8a2dabede0f3b482cd9aea9434d".to_string())
    );
    assert!(cache.get("sha1").is_err());
    let (final_dest, temp_dest) = cache.path_for(&parse(SHA1_HELLO), "42-7");
    assert_eq!(final_dest, "/home/u/.vee/store/sha1-aaf4c61ddcc5e8a2dabede0f3b482cd9aea9434d");
    assert_eq!(temp_dest, "/home/u/.vee/tmp/sha1-aaf4c61ddcc5e8a2dabede0f3b482cd9aea9434d.42-7");
}

fn parts(names: &[&str]) -> Vec<PathPart> {
    names.iter().map(|n| PathPart::Normal(n.to_string())).collect()
}

#[test]
fn archive_entries_drop_the_top_directory() {
    assert_eq!(extract_target("/tmp/x", &parts(&["package", "lib", "a.js"]), false), Some("/tmp/x/lib/a.js".to_string()));
    assert_eq!(extract_target("/tmp/x", &parts(&["package"]), false), None);
    assert_eq!(extract_target("/tmp/x", &parts(&["package", "a.js"]), true), None);
    let mut with_dot = parts(&["package"]);
    with_dot.push(PathPart::CurDir);
    with_dot.push(PathPart::Normal("a.js".to_string()));
    assert_eq!(extract_target("/tmp/x", &with_dot, false), Some("/tmp/x/./a.js".to_string()));
}

#[test]
fn archive_entries_that_escape_are_skipped() {
    let mut up = parts(&["package"]);
    up.push(PathPart::ParentDir);
    up.push(PathPart::Normal("evil".to_string()));
    assert_eq!(extract_target("/tmp/x", &up, false), None);
    let rooted = vec![PathPart::Normal("package".to_string()), PathPart::RootDir];
    assert_eq!(extract_target("/tmp/x", &rooted, false), None);
    let first_parent = vec![PathPart::ParentDir, PathPart::Normal("ok".to_string())];
    assert_eq!(extract_target("/tmp/x", &first_parent, false), Some("/tmp/x/ok".to_string()));
}
