use cargo_vet::version::{Version, VersionReq};

fn req(text: &str) -> VersionReq {
    VersionReq { text: text.to_string() }
}

#[test]
fn parses_plain_version() {
    let v = Version::parse("1.2.3").unwrap();
    assert_eq!((v.major, v.minor, v.patch), (1, 2, 3));
    assert_eq!(v.pre, "");
    assert_eq!(v.build, "");
}

#[test]
fn parses_prerelease_and_build() {
    let v = Version::parse("1.0.0-alpha.1+build.5").unwrap();
    assert_eq!((v.major, v.minor, v.patch), (1, 0, 0));
    assert_eq!(v.pre, "alpha.1");
    assert_eq!(v.build, "build.5");
}

#[test]
fn refuses_what_is_no_version() {
    assert!(Version::parse("").is_none());
    assert!(Version::parse("1.0").is_none());
    assert!(Version::parse("1.0.01").is_none());
    assert!(Version::parse("1.0.0-").is_none());
    assert!(Version::parse("23456789999999999999.0.0").is_none());
}

#[test]
fn new_version_has_no_tags() {
    let v = Version::new(4, 5, 6);
    assert!(v.same(&Version::parse("4.5.6").unwrap()));
    assert!(!v.same(&Version::parse("4.5.6+meta").unwrap()));
    assert!(!v.same(&Version::parse("4.5.6-rc").unwrap()));
}

#[test]
fn clone_keeps_every_part() {
    let v = Version::parse("7.8.9-beta+x").unwrap();
    assert!(v.clone().same(&v));
}

#[test]
fn requirement_matches_by_semver_rules() {
    let v = Version::new(2, 0, 0);
    assert!(req(">=2.0.0").matches(&v));
    assert!(req("^2").matches(&v));
    assert!(req("*").matches(&v));
    assert!(!req("<2.0.0").matches(&v));
    assert!(!req(">=2.0.1").matches(&v));
    assert!(req(">=1.0.0, <3.0.0").matches(&v));
}

#[test]
fn requirement_and_prerelease() {
    let pre = Version::parse("2.0.0-alpha").unwrap();
    assert!(!req(">=1.0.0").matches(&pre));
    assert!(req(">=2.0.0-0").matches(&pre));
}

#[test]
fn bad_requirement_matches_nothing() {
    let v = Version::new(1, 0, 0);
    assert!(!req("@1.0.0").matches(&v));
    assert!(!req(">=1.0 <2.0").matches(&v));
}

#[test]
fn version_with_bad_tag_matches_nothing() {
    let v = Version {
        major: 1,
        minor: 0,
        patch: 0,
        pre: "not valid!".to_string(),
        build: String::new(),
    };
    assert!(!req("*").matches(&v));
}
