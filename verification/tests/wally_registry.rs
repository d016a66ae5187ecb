//! Talking to the Wally registry.
use biskit_mcp::wally::package::PackageName;
use biskit_mcp::wally::registry::{
    check_hops, host_of, latest_version, lookup_failure, metadata_url, percent_encode, search_hits,
    search_url, status_message, Cache, Pace, RawSearchHit, Throttle, MAX_RESPONSE_BYTES,
};
use biskit_mcp::wally::versions::newest;
use std::time::Duration;

/// A moment, in nanoseconds.
const NOW: u128 = 1_000_000_000_000;

fn texts(list: &[&str]) -> Vec<String> {
    list.iter().map(|text| text.to_string()).collect()
}

fn waits(throttle: &mut Throttle, pace: Pace, now: u128) -> Duration {
    Duration::from_nanos(throttle.wait_for(&pace, now) as u64)
}

#[test]
fn prereleases_never_win_the_latest_slot() {
    let versions = ["1.4.2", "2.0.0-alpha.1", "1.10.0", "1.9.0"];
    assert_eq!(newest(&texts(&versions)), Some("1.10.0".to_string()));
}

#[test]
fn versions_are_ordered_by_semver_not_by_text() {
    assert_eq!(
        newest(&texts(&["0.9.0", "0.10.0"])),
        Some("0.10.0".to_string()),
        "0.10.0 sorts below 0.9.0 as text and above it as a version"
    );
}

#[test]
fn a_package_with_only_prereleases_has_no_latest() {
    assert_eq!(newest(&texts(&["1.0.0-rc.1"])), None);
}

#[test]
fn queries_that_need_escaping_are_escaped() {
    assert_eq!(percent_encode("roblox/roact"), "roblox%2Froact");
    assert_eq!(percent_encode("a b&c=d"), "a%20b%26c%3Dd");
    assert_eq!(percent_encode("plain-name_1.0~"), "plain-name_1.0~");
}

#[test]
fn the_host_is_taken_from_the_configured_url() {
    assert_eq!(host_of("https://api.wally.run/").unwrap(), "api.wally.run");
    assert_eq!(
        host_of("https://api.wally.run:443/v1/x?q=1").unwrap(),
        "api.wally.run"
    );
    assert!(host_of("http://api.wally.run/").is_err());
}

#[test]
fn a_userinfo_prefix_cannot_disguise_the_host() {
    assert_eq!(
        host_of("https://api.wally.run@evil.tld/v1").unwrap(),
        "evil.tld",
        "the host is what follows the last @, so the allowlist is built from evil.tld"
    );
}

fn settings(interval_ms: u64, per_minute: usize) -> Pace {
    Pace {
        min_request_interval_ms: interval_ms,
        max_requests_per_minute: per_minute,
    }
}

#[test]
fn the_first_request_is_never_delayed() {
    let mut throttle = Throttle::new();
    assert!(waits(&mut throttle, settings(500, 60), NOW).is_zero());
}

#[test]
fn a_second_request_waits_out_the_minimum_interval() {
    let mut throttle = Throttle::new();
    throttle.record(NOW);
    let wait = waits(&mut throttle, settings(500, 60), NOW + 1_000);
    assert!(
        wait > Duration::from_millis(400) && wait <= Duration::from_millis(500),
        "unexpected wait: {wait:?}"
    );
}

#[test]
fn the_per_minute_ceiling_holds_once_the_window_is_full() {
    let mut throttle = Throttle::new();
    for _ in 0..3 {
        throttle.record(NOW);
    }

    let wait = waits(&mut throttle, settings(0, 3), NOW + 1_000);
    assert!(
        wait > Duration::from_secs(59),
        "a full window must wait for it to roll, got {wait:?}"
    );
}

#[test]
fn a_zero_ceiling_lifts_the_per_minute_limit() {
    let mut throttle = Throttle::new();
    for _ in 0..500 {
        throttle.record(NOW);
    }
    assert!(waits(&mut throttle, settings(0, 0), NOW).is_zero());
}

#[test]
fn a_request_that_was_spaced_out_does_not_wait() {
    let mut throttle = Throttle::new();
    throttle.record(NOW);
    let pace = settings(500, 2);
    assert_eq!(throttle.wait_for(&pace, NOW + 200_000_000), 300_000_000);
    assert_eq!(throttle.wait_for(&pace, NOW + 500_000_000), 0);
    throttle.record(NOW + 500_000_000);
    assert_eq!(
        throttle.wait_for(&pace, NOW + 10_000_000_000),
        50_000_000_000
    );
    assert_eq!(throttle.wait_for(&pace, NOW + 60_000_000_000), 0);
}

#[test]
fn an_answer_is_kept_for_as_long_as_it_is_fresh() {
    let mut cache = Cache::new();
    cache.store("url".to_string(), b"body".to_vec(), 10, NOW);
    assert_eq!(cache.cached("url", 10, NOW + 1), Some(&b"body".to_vec()));
    assert_eq!(cache.cached("other", 10, NOW + 1), None);
    assert_eq!(cache.cached("url", 0, NOW + 1), None);
    assert_eq!(cache.cached("url", 10, NOW + 11_000_000_000), None);
}

#[test]
fn a_version_with_build_metadata_is_ordered_after_the_bare_one() {
    assert_eq!(
        newest(&texts(&["1.0.0+b", "1.0.0", "1.0.0+a", "nonsense"])),
        Some("1.0.0+b".to_string())
    );
}

#[test]
fn requests_go_to_the_registry_that_is_configured() {
    let name = PackageName::parse("roblox/roact").unwrap();
    assert_eq!(
        search_url("https://api.wally.run/", "a b"),
        "https://api.wally.run/v1/package-search?query=a%20b"
    );
    assert_eq!(
        metadata_url("https://api.wally.run", &name),
        "https://api.wally.run/v1/package-metadata/roblox/roact"
    );
    assert_eq!(
        status_message(503, "https://api.wally.run/v1"),
        "the registry answered HTTP 503 for https://api.wally.run/v1"
    );
    assert_eq!(MAX_RESPONSE_BYTES, 8 * 1024 * 1024);
}

#[test]
fn a_package_that_is_not_there_reads_otherwise_than_a_fault() {
    let name = PackageName::parse("roblox/roact").unwrap();
    assert_eq!(
        lookup_failure(&name, Some(404), "x").message,
        "roblox/roact is not published in the registry"
    );
    assert_eq!(
        lookup_failure(&name, Some(500), "down").message,
        "could not look up roblox/roact in the registry: down"
    );
    assert_eq!(
        lookup_failure(&name, None, "no route").message,
        "could not look up roblox/roact in the registry: no route"
    );
}

#[test]
fn the_latest_version_is_never_a_prerelease() {
    let name = PackageName::parse("roblox/roact").unwrap();
    assert_eq!(
        latest_version(&name, &texts(&["1.0.0", "1.1.0-rc.1"])).unwrap(),
        "1.0.0"
    );
    assert_eq!(
        latest_version(&name, &texts(&["1.1.0-rc.1", "1.1.0-rc.2"]))
            .unwrap_err()
            .message,
        "roblox/roact has only prerelease versions (1.1.0-rc.1, 1.1.0-rc.2), which are never chosen automatically"
    );
    assert_eq!(
        latest_version(&name, &Vec::new()).unwrap_err().message,
        "roblox/roact has no published versions"
    );
}

#[test]
fn a_hit_tells_the_newest_version_and_how_many_there_are() {
    let hits = search_hits(&vec![RawSearchHit {
        scope: "roblox".to_string(),
        name: "roact".to_string(),
        description: Some("UI".to_string()),
        versions: texts(&["1.4.2", "1.10.0", "2.0.0-rc.1"]),
    }]);
    assert_eq!(hits[0].package, "roblox/roact");
    assert_eq!(hits[0].latest_version.as_deref(), Some("1.10.0"));
    assert_eq!(hits[0].version_count, 3);
    assert_eq!(hits[0].description.as_deref(), Some("UI"));
}

#[test]
fn every_address_of_a_download_must_name_an_allowed_host() {
    let hosts = texts(&["api.wally.run", "github.com"]);
    assert!(check_hops(&texts(&[]), &hosts).is_ok());
    assert!(check_hops(
        &texts(&["https://api.wally.run/v1/a", "https://x@github.com:443/b"]),
        &hosts
    )
    .is_ok());
    let other = check_hops(
        &texts(&["https://api.wally.run/v1", "https://evil.example/api.wally.run", "http://github.com"]),
        &hosts,
    )
    .unwrap_err();
    assert_eq!(other.message, "refusing to download from evil.example");
    let plain = check_hops(&texts(&["http://api.wally.run/v1"]), &hosts).unwrap_err();
    assert_eq!(plain.message, "refusing a non-HTTPS registry URL: http://api.wally.run/v1");
}
