use mimic_ai::version::{is_newer, parse_version_from_cargo_toml, VersionChecker, VersionInfo};

#[test]
fn parse_version_valid() {
    let content = "[package]\nname = \"mimic-ai\"\nversion = \"1.2.3\"\nedition = \"2021\"\n";
    assert_eq!(parse_version_from_cargo_toml(content).unwrap(), "1.2.3");
}

#[test]
fn parse_version_missing() {
    let content = "[package]\nname = \"mimic-ai\"\nedition = \"2021\"\n";
    let err = parse_version_from_cargo_toml(content).unwrap_err();
    assert!(err.contains("not found"));
}

#[test]
fn parse_version_malformed() {
    let content = "[package]\nversion = \"bad\"\n";
    let err = parse_version_from_cargo_toml(content).unwrap_err();
    assert!(err.contains("malformed"));
}

#[test]
fn is_newer_patch() {
    assert!(is_newer("1.0.1", "1.0.0"));
}

#[test]
fn is_newer_minor() {
    assert!(is_newer("1.1.0", "1.0.9"));
}

#[test]
fn is_newer_major() {
    assert!(is_newer("2.0.0", "1.9.9"));
}

#[test]
fn is_newer_same() {
    assert!(!is_newer("1.0.0", "1.0.0"));
}

#[test]
fn is_newer_older() {
    assert!(!is_newer("0.9.0", "1.0.0"));
}

#[test]
fn is_newer_invalid() {
    assert!(!is_newer("bad", "1.0.0"));
    assert!(!is_newer("1.0.0", "bad"));
    assert!(!is_newer("bad", "bad"));
}

#[test]
fn cached_returns_none_when_empty() {
    let checker = VersionChecker::new();
    assert!(checker.cached(0).is_none());
}

#[test]
fn cached_respects_ttl() {
    let mut checker = VersionChecker::with_ttl(10);
    let info = VersionInfo {
        current: "1.0.0".to_string(),
        latest: Some("1.1.0".to_string()),
        update_available: true,
    };
    checker.record(info, 100);
    let hit = checker.cached(105).expect("within the time-to-live");
    assert_eq!(hit.current, "1.0.0");
    assert_eq!(hit.latest.as_deref(), Some("1.1.0"));
    assert!(hit.update_available);
    assert!(checker.cached(110).is_none(), "expired at the time-to-live");
    assert!(checker.cached(50).is_none(), "before the record time");
}
