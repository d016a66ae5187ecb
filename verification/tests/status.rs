//! The status report.
use biskit_mcp::json::{equal_json, parse_json, Json};
use biskit_mcp::status::{
    collect_overrides, parsed_version, settings_overrides, shared_require_status,
    sourcemap_status, NewestSource, SharedRequireFacts, DEFAULT_LSP_REPOSITORY,
    DEFAULT_LSP_VERSION,
};
use biskit_mcp::text_map::TextMap;

const DEFAULTS: &str = r#"{
    "lsp": {"version": "v0.2.0", "repository": "Sawhorse-Interactive/luau-lsp-carpenter"},
    "project": {"shared_require": true, "ignored_paths": []},
    "tools": {"max_answer_chars": 200000, "excluded": []}
}"#;

const CHANGED: &str = r#"{
    "lsp": {"version": "v0.2.0", "repository": "Sawhorse-Interactive/luau-lsp-carpenter"},
    "project": {"shared_require": true, "ignored_paths": []},
    "tools": {"max_answer_chars": 42, "excluded": ["find_symbol"]}
}"#;

fn default_facts() -> SharedRequireFacts<'static> {
    SharedRequireFacts {
        graph_edges: true,
        version: DEFAULT_LSP_VERSION,
        repository: DEFAULT_LSP_REPOSITORY,
    }
}

fn is(value: Option<&Json>, text: &str) -> bool {
    value.is_some_and(|held| equal_json(held, &parse_json(text).unwrap()))
}

#[test]
fn only_settings_that_differ_from_the_defaults_are_reported() {
    let mut overrides = TextMap::new();
    collect_overrides(
        &parse_json(CHANGED).unwrap(),
        &parse_json(DEFAULTS).unwrap(),
        "",
        &mut overrides,
    );

    assert!(is(overrides.get("tools.max_answer_chars"), "42"));
    assert!(is(overrides.get("tools.excluded"), r#"["find_symbol"]"#));
    assert_eq!(overrides.len(), 2, "unexpected overrides: {overrides:?}");
}

#[test]
fn a_pinned_release_too_old_for_shared_require_is_called_out() {
    let status = shared_require_status(&SharedRequireFacts {
        version: "v0.1.17",
        ..default_facts()
    });
    assert!(status.graph_edges);
    assert_eq!(status.language_server, "unsupported");
    assert!(status.note.is_some());
}

#[test]
fn the_default_pin_resolves_shared_require_and_needs_no_note() {
    let status = shared_require_status(&default_facts());
    assert!(status.graph_edges);
    assert_eq!(status.language_server, "supported");
    assert!(status.note.is_none(), "unexpected note: {:?}", status.note);
}

#[test]
fn turning_the_graph_half_off_is_reported_as_the_disagreement_it_is() {
    let status = shared_require_status(&SharedRequireFacts {
        graph_edges: false,
        ..default_facts()
    });
    assert!(!status.graph_edges);
    assert_eq!(status.language_server, "supported");
    assert!(
        status
            .note
            .as_deref()
            .is_some_and(|note| note.contains("still resolves them")),
        "unexpected note: {:?}",
        status.note
    );
}

#[test]
fn a_version_or_repository_biskit_cannot_judge_is_not_guessed_at() {
    let unparseable = SharedRequireFacts {
        version: "nightly",
        ..default_facts()
    };
    assert_eq!(
        shared_require_status(&unparseable).language_server,
        "unknown"
    );

    let forked = SharedRequireFacts {
        repository: "someone/their-own-fork",
        ..default_facts()
    };
    assert_eq!(shared_require_status(&forked).language_server, "unknown");
}

#[test]
fn a_default_configuration_reports_no_overrides() {
    let mut overrides = TextMap::new();
    let defaults = parse_json(DEFAULTS).unwrap();
    collect_overrides(&defaults, &defaults, "", &mut overrides);
    assert_eq!(overrides.len(), 0, "unexpected overrides: {overrides:?}");
}

#[test]
fn a_setting_without_a_default_is_an_override() {
    let overrides = settings_overrides(
        &parse_json(r#"{"a": {"b": 1, "c": 2}, "d": "x"}"#).unwrap(),
        &parse_json(r#"{"a": {"b": 1}, "d": {"e": 1}}"#).unwrap(),
    );
    assert_eq!(overrides.len(), 2);
    assert_eq!(overrides.name_at(0), "a.c");
    assert!(is(overrides.get("d"), "\"x\""));
}

#[test]
fn a_version_is_read_with_or_without_its_prefix() {
    assert_eq!(parsed_version("v0.2.0"), Some((0, 2, 0)));
    assert_eq!(parsed_version("1.20.3"), Some((1, 20, 3)));
    assert_eq!(parsed_version("1.2"), None);
    assert_eq!(parsed_version("1.2.x"), None);
    assert_eq!(parsed_version("nightly"), None);
}

const SECOND: i128 = 1_000_000_000;

#[test]
fn a_sourcemap_older_than_a_source_is_stale() {
    let newest = NewestSource {
        relative_path: Some("src/A.luau".to_string()),
        written_nanos: 20 * SECOND,
    };
    let status = sourcemap_status(
        "sourcemap.json",
        Some(10 * SECOND),
        false,
        Some(newest),
        25 * SECOND,
    );
    assert!(status.present);
    assert_eq!(status.modified_epoch_seconds, Some(10));
    assert_eq!(status.age_seconds, Some(15));
    assert_eq!(status.stale, Some(true));
    assert_eq!(status.newest_source.as_deref(), Some("src/A.luau"));
    assert!(status.note.is_some());
}

#[test]
fn a_sourcemap_that_is_not_there_is_not_called_stale() {
    let status = sourcemap_status("sourcemap.json", None, true, None, 25 * SECOND);
    assert!(!status.present);
    assert_eq!(status.stale, None);
    assert_eq!(status.age_seconds, None);
    assert!(status.watched);
}

#[test]
fn a_sourcemap_younger_than_every_source_is_not_stale() {
    let newest = NewestSource {
        relative_path: Some("src/A.luau".to_string()),
        written_nanos: 5 * SECOND,
    };
    let status = sourcemap_status(
        "sourcemap.json",
        Some(10 * SECOND),
        true,
        Some(newest),
        11 * SECOND,
    );
    assert_eq!(status.stale, Some(false));
    assert_eq!(status.newest_source, None);
}
