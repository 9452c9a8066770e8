use gidrive::retry::{after_push, next_backoff, PushStep};
use gidrive::version::versions_are_compatible;

#[test]
fn same_version_is_compatible() {
    assert!(versions_are_compatible("0.1.1", "0.1.1"));
}

#[test]
fn pre_release_minor_bump_is_incompatible() {
    assert!(!versions_are_compatible("0.1.1", "0.2.0"));
}

#[test]
fn major_bump_is_incompatible() {
    assert!(!versions_are_compatible("0.1.1", "1.1.1"));
}

#[test]
fn minor_ignored_from_major_one() {
    assert!(versions_are_compatible("1.2.3", "1.9.9"));
}

#[test]
fn patch_is_never_read() {
    assert!(versions_are_compatible("0.1.x", "0.1.7"));
}

#[test]
fn malformed_versions_are_incompatible() {
    assert!(!versions_are_compatible("0.1", "0.1.1"));
    assert!(!versions_are_compatible("0.1.1.1", "0.1.1"));
    assert!(!versions_are_compatible("a.1.1", "a.1.1"));
    assert!(!versions_are_compatible(".1.1", "0.1.1"));
    assert!(!versions_are_compatible("-0.1.1", "0.1.1"));
    assert!(!versions_are_compatible("4294967296.0.0", "4294967296.0.0"));
}

#[test]
fn plus_sign_and_leading_zeros_parse() {
    assert!(versions_are_compatible("+1.0.0", "1.5.0"));
    assert!(versions_are_compatible("00.01.0", "0.1.0"));
    assert!(!versions_are_compatible("+.1.0", "0.1.0"));
}

#[test]
fn backoff_doubles_up_to_cap() {
    assert_eq!(next_backoff(1), 2);
    assert_eq!(next_backoff(16), 32);
    assert_eq!(next_backoff(30), 60);
    assert_eq!(next_backoff(32), 60);
    assert_eq!(next_backoff(60), 60);
    assert_eq!(next_backoff(u64::MAX), 60);
}

#[test]
fn push_decisions() {
    assert_eq!(after_push(true, 8), PushStep::Done);
    assert_eq!(after_push(false, 8), PushStep::RetryAfter { wait_secs: 8, next_secs: 16 });
    assert_eq!(after_push(false, 60), PushStep::RetryAfter { wait_secs: 60, next_secs: 60 });
}
