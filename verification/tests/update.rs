use kfire_client::update::{is_fresh, is_newer, parse_semver, update_info, RELEASES_URL};

#[test]
fn parses_plain_and_prefixed() {
    assert_eq!(parse_semver("0.3.2"), Some((0, 3, 2)));
    assert_eq!(parse_semver("v0.3.2"), Some((0, 3, 2)));
    assert_eq!(parse_semver(" v1.0.0 "), Some((1, 0, 0)));
}

#[test]
fn parses_short_and_prerelease() {
    assert_eq!(parse_semver("v1.2"), Some((1, 2, 0)));
    assert_eq!(parse_semver("v1"), Some((1, 0, 0)));
    assert_eq!(parse_semver("v0.4.0-beta.1"), Some((0, 4, 0)));
    assert_eq!(parse_semver("0.4.0+build7"), Some((0, 4, 0)));
}

#[test]
fn rejects_garbage() {
    assert_eq!(parse_semver("nightly"), None);
    assert_eq!(parse_semver(""), None);
}

#[test]
fn newer_detects_each_component() {
    assert!(is_newer("v0.3.3", "0.3.2"));
    assert!(is_newer("v0.4.0", "0.3.2"));
    assert!(is_newer("v1.0.0", "0.3.2"));
}

#[test]
fn not_newer_when_equal_or_older() {
    assert!(!is_newer("v0.3.2", "0.3.2"));
    assert!(!is_newer("v0.3.1", "0.3.2"));
    assert!(!is_newer("v0.2.9", "0.3.2"));
}

#[test]
fn garbage_is_not_newer() {
    assert!(!is_newer("nightly", "0.3.2"));
    assert!(!is_newer("v0.4.0", "garbage"));
}

#[test]
fn a_capital_v_and_a_fourth_piece_are_accepted() {
    assert_eq!(parse_semver("V2.3.4.5"), Some((2, 3, 4)));
    assert_eq!(parse_semver("1..2"), None);
    assert_eq!(parse_semver("+1.2.3"), None);
}

#[test]
fn an_answer_stays_fresh_for_its_time_to_live() {
    assert!(is_fresh(true, 21599));
    assert!(!is_fresh(true, 21600));
    assert!(is_fresh(false, 1799));
    assert!(!is_fresh(false, 1800));
}

#[test]
fn the_update_flag_follows_the_fetched_tag() {
    let i = update_info("0.3.2".to_string(), Some("v0.4.0".to_string()));
    assert!(i.update_available);
    assert_eq!(i.latest.as_deref(), Some("v0.4.0"));
    assert_eq!(i.current, "0.3.2");
    assert_eq!(i.releases_url, RELEASES_URL);
    let offline = update_info("0.3.2".to_string(), None);
    assert!(!offline.update_available);
    assert_eq!(offline.latest, None);
}
