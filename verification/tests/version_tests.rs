use discord_shortcut::version::{parse_semver, SemVer};
use discord_shortcut::order::version_lt;

fn chars(s: &str) -> Vec<char> {
    s.chars().collect()
}

fn parse_ok(s: &str) -> SemVer {
    match parse_semver(s) {
        Some(v) => v,
        None => panic!("expected {:?} to parse", s),
    }
}

fn lt(a: &str, b: &str) -> bool {
    let va = parse_ok(a);
    let vb = parse_ok(b);
    version_lt(&va, &vb)
}

#[test]
fn parses_plain_version() {
    let v = parse_ok("1.2.3");
    assert_eq!(v.major, 1);
    assert_eq!(v.minor, 2);
    assert_eq!(v.patch, 3);
    assert!(v.pre.is_empty());
    assert!(v.build.is_empty());
}

#[test]
fn parses_zero_version() {
    let v = parse_ok("0.0.0");
    assert_eq!(v.major, 0);
    assert_eq!(v.minor, 0);
    assert_eq!(v.patch, 0);
}

#[test]
fn parses_pre_release_and_build() {
    let v = parse_ok("1.2.3-alpha.1+win.64");
    assert_eq!(v.major, 1);
    assert_eq!(v.minor, 2);
    assert_eq!(v.patch, 3);
    assert_eq!(v.pre, vec![chars("alpha"), chars("1")]);
    assert_eq!(v.build, chars("win.64"));
}

#[test]
fn parses_build_only() {
    let v = parse_ok("0.305.9+build7");
    assert_eq!(v.major, 0);
    assert_eq!(v.minor, 305);
    assert_eq!(v.patch, 9);
    assert!(v.pre.is_empty());
    assert_eq!(v.build, chars("build7"));
}

#[test]
fn parses_hyphenated_alnum_identifier() {
    let v = parse_ok("1.0.0-x-y.0a");
    assert_eq!(v.pre, vec![chars("x-y"), chars("0a")]);
}

#[test]
fn rejects_incomplete_core() {
    assert!(parse_semver("1").is_none());
    assert!(parse_semver("1.2").is_none());
    assert!(parse_semver("1.2.").is_none());
    assert!(parse_semver("").is_none());
}

#[test]
fn rejects_leading_zeros() {
    assert!(parse_semver("01.0.0").is_none());
    assert!(parse_semver("1.00.0").is_none());
    assert!(parse_semver("1.0.0-01").is_none());
}

#[test]
fn rejects_empty_sections() {
    assert!(parse_semver("1.0.0-").is_none());
    assert!(parse_semver("1.0.0+").is_none());
    assert!(parse_semver("1.0.0-beta..1").is_none());
}

#[test]
fn rejects_words_and_extra_components() {
    assert!(parse_semver("latest").is_none());
    assert!(parse_semver("notaversion").is_none());
    assert!(parse_semver("1.2.3.4").is_none());
    assert!(parse_semver("1.2.3 ").is_none());
}

#[test]
fn rejects_component_overflow() {
    assert!(parse_semver("18446744073709551616.0.0").is_none());
    assert!(parse_semver("18446744073709551615.0.0").is_some());
}

#[test]
fn precedence_numeric_components() {
    assert!(lt("1.9.9", "2.0.0"));
    assert!(!lt("2.0.0", "1.9.9"));
    assert!(lt("1.0.0", "1.0.1"));
    assert!(!lt("1.0.1", "1.0.0"));
    assert!(lt("1.2.3", "1.10.0"));
}

#[test]
fn precedence_pre_release_below_release() {
    assert!(lt("1.0.0-beta", "1.0.0"));
    assert!(!lt("1.0.0", "1.0.0-beta"));
    assert!(lt("1.0.0-rc.1", "1.0.0"));
}

#[test]
fn precedence_pre_release_lists() {
    assert!(lt("1.0.0-alpha", "1.0.0-alpha.1"));
    assert!(lt("1.0.0-alpha.1", "1.0.0-beta"));
    assert!(lt("1.0.0-2", "1.0.0-10"));
    assert!(lt("1.0.0-1", "1.0.0-alpha"));
    assert!(lt("1.0.0-alpha", "1.0.0-beta"));
    assert!(!lt("1.0.0-beta", "1.0.0-alpha"));
}

#[test]
fn precedence_ignores_build_metadata() {
    assert!(!lt("1.0.0+a", "1.0.0+b"));
    assert!(!lt("1.0.0+b", "1.0.0+a"));
}
