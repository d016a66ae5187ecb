//! Whether a session was already given its instructions.
use biskit_mcp::session_start::{delivered_for_session, marker_path, TOLERANCE_MS};

const NOW_MS: u64 = 1_700_000_000_000;

/// When a marker says the instructions were delivered, where it can be read.
fn delivered_at(marker: &str) -> Option<u64> {
    let value: serde_json::Value = serde_json::from_str(marker).ok()?;
    value.get("delivered_at_ms")?.as_u64()
}

#[test]
fn no_marker_means_no_delivery() {
    assert!(!delivered_for_session(None, NOW_MS));
}

#[test]
fn a_recorded_delivery_counts_for_a_server_that_started_alongside_it() {
    assert!(delivered_for_session(Some(NOW_MS), NOW_MS));
}

#[test]
fn a_delivery_recorded_after_the_server_started_still_counts() {
    assert!(delivered_for_session(Some(NOW_MS + 5_000), NOW_MS));
}

#[test]
fn a_marker_from_an_earlier_session_is_ignored() {
    assert!(!delivered_for_session(
        Some(NOW_MS.saturating_sub(TOLERANCE_MS + 1)),
        NOW_MS
    ));
}

#[test]
fn an_unreadable_marker_is_ignored() {
    assert!(!delivered_for_session(delivered_at("{ not json"), NOW_MS));
}

#[test]
fn a_delivery_as_old_as_the_tolerance_still_counts() {
    assert_eq!(TOLERANCE_MS, 600_000);
    assert!(delivered_for_session(Some(NOW_MS - TOLERANCE_MS), NOW_MS));
    assert!(delivered_for_session(Some(0), TOLERANCE_MS));
    assert!(delivered_for_session(Some(0), 5));
    assert!(delivered_for_session(Some(u64::MAX), u64::MAX));
}

#[test]
fn the_marker_stands_in_the_cache_directory() {
    assert_eq!(
        marker_path("/project/.biskit/cache"),
        "/project/.biskit/cache/session-start.json"
    );
}
