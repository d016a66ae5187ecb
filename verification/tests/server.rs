//! How tools answer, and which of them are offered.
use biskit_mcp::json::{parse_json, Json};
use biskit_mcp::server::results::{ok, text};
use biskit_mcp::server::routes::{route, Routing};
use biskit_mcp::status::{
    collect, settings_overrides, shared_require_status, LanguageServerStatus, MemoryStatus,
    SettingsStatus, SharedRequireFacts, Status, DEFAULT_LSP_REPOSITORY, DEFAULT_LSP_VERSION,
};

const LANGUAGE_SERVER_TOOLS: [&str; 15] = [
    "get_symbols_overview",
    "find_symbol",
    "find_declaration",
    "find_referencing_symbols",
    "get_file_diagnostics",
    "get_symbol_diagnostics",
    "restart_language_server",
    "explain_symbol",
    "get_type_definition",
    "get_inlay_hints",
    "get_signature_help",
    "resolve_instance_path",
    "get_require_graph",
    "get_module_context",
    "query_roblox_api",
];

const OTHER_TOOLS: [&str; 4] = [
    "initial_instructions",
    "list_memories",
    "search_for_pattern",
    "get_status",
];

fn tools() -> Vec<String> {
    LANGUAGE_SERVER_TOOLS
        .iter()
        .chain(OTHER_TOOLS.iter())
        .map(|name| name.to_string())
        .collect()
}

fn open(memory_only: bool) -> Routing {
    route(&tools(), memory_only, &Vec::new())
}

fn has_route(routing: &Routing, name: &str) -> bool {
    routing.routed.iter().any(|tool| tool == name)
}

fn serialised(items: Vec<String>) -> String {
    serde_json::to_string(&items).unwrap()
}

fn an_oversized_serialised_result_is_refused_rather_than_cut() {
    let error = ok("find_symbol", serialised(vec!["a".repeat(64)]), 16).unwrap_err();
    assert!(error.starts_with("find_symbol failed: the result is 68 characters"));
    assert!(error.contains("limit of 16"));
    assert!(error.contains("hint: ask for less"));
}

fn an_oversized_text_result_is_cut_and_says_so() {
    let answer = text("mémoire trop longue".to_string(), 8);
    // Eight bytes are seven characters here: "é" takes two.
    assert!(answer.starts_with("mémoire"));
    assert!(answer.contains("[truncated: 8 of 20 characters shown"));
}

fn a_zero_limit_disables_the_ceiling() {
    let answer = text("x".repeat(10_000), 0);
    assert_eq!(answer.len(), 10_000);
    assert!(ok("list_dir", serialised(vec!["y".repeat(10_000)]), 0).is_ok());
}

fn language_server_tools_are_routed_by_default() {
    let routing = open(false);
    for name in LANGUAGE_SERVER_TOOLS {
        assert!(has_route(&routing, name), "missing {name}");
    }
}

fn memory_only_drops_language_server_tools() {
    let routing = open(true);
    for name in LANGUAGE_SERVER_TOOLS {
        assert!(!has_route(&routing, name), "still routed: {name}");
    }
    for name in [
        "initial_instructions",
        "list_memories",
        "search_for_pattern",
    ] {
        assert!(has_route(&routing, name), "missing {name}");
    }
}

/// `get_status` exists to explain an empty answer, and "the language server is disabled" is
/// exactly such an answer, so it has to survive memory-only mode.
fn get_status_is_routed_in_both_modes() {
    for memory_only in [false, true] {
        let routing = open(memory_only);
        assert!(
            has_route(&routing, "get_status"),
            "missing in memory_only={memory_only}"
        );
    }
}

fn status(memory_only: bool) -> Status {
    let settings = parse_json(r#"{"project": {"memory_only": true}}"#).unwrap();
    let defaults = parse_json(r#"{"project": {"memory_only": false}}"#).unwrap();
    collect(
        "0.0.0",
        "/tmp/fixture".to_string(),
        "test",
        memory_only,
        SettingsStatus {
            settings_file: ".biskit/settings.yml".to_string(),
            settings_file_present: false,
            local_settings_file: ".biskit/settings.local.yml".to_string(),
            local_settings_file_present: false,
            overrides: settings_overrides(&settings, &defaults),
        },
        LanguageServerStatus {
            state: if memory_only { "disabled" } else { "running" },
            version: DEFAULT_LSP_VERSION.to_string(),
            repository: DEFAULT_LSP_REPOSITORY.to_string(),
            platform: "roblox",
            roblox_security_level: "PluginSecurity",
            binary: None,
            request_timeout_ms: 1,
        },
        None,
        shared_require_status(&SharedRequireFacts {
            graph_edges: true,
            version: DEFAULT_LSP_VERSION,
            repository: DEFAULT_LSP_REPOSITORY,
        }),
        MemoryStatus {
            count: 0,
            directory: ".biskit/memories".to_string(),
        },
    )
}

fn a_status_report_names_the_root_and_the_mode() {
    let status = status(true);
    assert_eq!(status.mode, "memory-only");
    assert_eq!(status.root_source, "test");
    assert_eq!(status.language_server.state, "disabled");
    assert_eq!(status.memories.count, 0);
    assert!(
        status.sourcemap.is_none(),
        "memory-only mode loads no sourcemap, so it has none to report on"
    );
    assert!(status.project_root.ends_with("fixture"));
}

#[test]
fn a_full_report_tells_of_shared_requires() {
    let full = status(false);
    assert_eq!(full.mode, "full");
    assert!(full.shared_require.is_some());
    assert!(status(true).shared_require.is_none());
    assert!(matches!(
        full.settings.overrides.get("project.memory_only"),
        Some(Json::Bool(true))
    ));
}

#[test]
fn an_excluded_tool_is_not_offered_and_an_unknown_one_is_named() {
    let excluded = vec![
        "list_memories".to_string(),
        "no_such_tool".to_string(),
        "find_symbol".to_string(),
    ];
    let routing = route(&tools(), true, &excluded);
    assert!(!has_route(&routing, "list_memories"));
    assert_eq!(routing.unknown, vec!["no_such_tool".to_string()]);
    assert_eq!(
        routing.routed,
        vec![
            "initial_instructions".to_string(),
            "search_for_pattern".to_string(),
            "get_status".to_string()
        ]
    );
}

#[test]
fn a_cut_never_splits_a_character() {
    assert_eq!(
        text("éé".to_string(), 3),
        "é\n\n[truncated: 3 of 4 characters shown, limited by tools.max_answer_chars]"
    );
    assert_eq!(text("éé".to_string(), 4), "éé");
}

#[test]
fn server_an_oversized_serialised_result_is_refused_rather_than_cut() {
    an_oversized_serialised_result_is_refused_rather_than_cut();
}

#[test]
fn mod_an_oversized_serialised_result_is_refused_rather_than_cut() {
    an_oversized_serialised_result_is_refused_rather_than_cut();
}

#[test]
fn server_an_oversized_text_result_is_cut_and_says_so() {
    an_oversized_text_result_is_cut_and_says_so();
}

#[test]
fn mod_an_oversized_text_result_is_cut_and_says_so() {
    an_oversized_text_result_is_cut_and_says_so();
}

#[test]
fn server_a_zero_limit_disables_the_ceiling() {
    a_zero_limit_disables_the_ceiling();
}

#[test]
fn mod_a_zero_limit_disables_the_ceiling() {
    a_zero_limit_disables_the_ceiling();
}

#[test]
fn server_language_server_tools_are_routed_by_default() {
    language_server_tools_are_routed_by_default();
}

#[test]
fn mod_language_server_tools_are_routed_by_default() {
    language_server_tools_are_routed_by_default();
}

#[test]
fn server_memory_only_drops_language_server_tools() {
    memory_only_drops_language_server_tools();
}

#[test]
fn mod_memory_only_drops_language_server_tools() {
    memory_only_drops_language_server_tools();
}

#[test]
fn server_get_status_is_routed_in_both_modes() {
    get_status_is_routed_in_both_modes();
}

#[test]
fn mod_get_status_is_routed_in_both_modes() {
    get_status_is_routed_in_both_modes();
}

#[test]
fn server_a_status_report_names_the_root_and_the_mode() {
    a_status_report_names_the_root_and_the_mode();
}

#[test]
fn mod_a_status_report_names_the_root_and_the_mode() {
    a_status_report_names_the_root_and_the_mode();
}
