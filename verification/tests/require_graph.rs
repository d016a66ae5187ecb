//! Reading requires, building the graph and walking it.
use biskit_mcp::json::{parse_json, Json};
use biskit_mcp::lines::LineIndex;
use biskit_mcp::roblox::require_graph::blanking::blank_comments;
use biskit_mcp::roblox::require_graph::building::{
    build, build_or_reuse, is_current, stamp_of, FileMetadata, GraphStamp, SourceFile,
};
use biskit_mcp::roblox::require_graph::chain::{parse_chain, Step};
use biskit_mcp::roblox::require_graph::files::{candidate_files, luau_files};
use biskit_mcp::roblox::require_graph::graph::{GraphRequest, RequireGraph};
use biskit_mcp::roblox::require_graph::scan::{
    find_calls, find_requires, find_shared_requires, local_bindings, string_literal,
};
use biskit_mcp::roblox::require_graph::string_require::{
    read_aliases, resolve_string_require, AliasTable, DiskFacts,
};
use biskit_mcp::roblox::require_graph::Direction;
use biskit_mcp::roblox::sourcemap::{RawNode, Sourcemap};

const SOURCEMAP: &str = r#"{
        "name": "Fixture",
        "className": "DataModel",
        "children": [{
            "name": "ReplicatedStorage",
            "className": "ReplicatedStorage",
            "children": [{
                "name": "Shared",
                "className": "Folder",
                "filePaths": ["src/Shared"],
                "children": [
                    {"name": "A", "className": "ModuleScript", "filePaths": ["src/Shared/A.luau"]},
                    {"name": "B", "className": "ModuleScript", "filePaths": ["src/Shared/B.luau"]},
                    {"name": "C", "className": "ModuleScript", "filePaths": ["src/Shared/C.luau"]},
                    {"name": "Assets", "className": "Folder", "filePaths": ["src/Shared/Assets"]}
                ]
            }]
        }]
    }"#;

const SHARED_SOURCEMAP: &str = r#"{
        "name": "Fixture",
        "className": "DataModel",
        "children": [
            {
                "name": "ReplicatedStorage",
                "className": "ReplicatedStorage",
                "children": [{
                    "name": "Shared",
                    "className": "Folder",
                    "filePaths": ["src/Shared"],
                    "children": [
                        {"name": "Consumer", "className": "ModuleScript",
                         "filePaths": ["src/Shared/Consumer.luau"]},
                        {"name": "Config", "className": "ModuleScript",
                         "filePaths": ["src/Shared/Config.luau"]}
                    ]
                }]
            },
            {
                "name": "ServerScriptService",
                "className": "ServerScriptService",
                "children": [{
                    "name": "Server",
                    "className": "Folder",
                    "filePaths": ["src/Server"],
                    "children": [
                        {"name": "Config", "className": "ModuleScript",
                         "filePaths": ["src/Server/Config.luau"]}
                    ]
                }]
            }
        ]
    }"#;

const PACKAGE_SOURCEMAP: &str = r#"{
        "name": "Fixture",
        "className": "DataModel",
        "children": [{
            "name": "ReplicatedStorage",
            "className": "ReplicatedStorage",
            "children": [
                {"name": "Shared", "className": "Folder", "filePaths": ["src/Shared"],
                 "children": [{"name": "Consumer", "className": "ModuleScript",
                               "filePaths": ["src/Shared/Consumer.luau"]}]},
                {"name": "Packages", "className": "Folder", "filePaths": ["Packages"],
                 "children": [{"name": "Signal", "className": "ModuleScript",
                               "filePaths": ["Packages/Signal.luau"]}]}
            ]
        }]
    }"#;

const ROOT: &str = "/project";

fn texts(value: Option<&Json>) -> Vec<String> {
    match value {
        Some(Json::List(items)) => items
            .iter()
            .map(|item| item.as_text().expect("a text").to_string())
            .collect(),
        _ => Vec::new(),
    }
}

fn raw_node(value: &Json) -> RawNode {
    let text = |key: &str| value.get(key).and_then(Json::as_text).expect("a text").to_string();
    RawNode {
        name: text("name"),
        class_name: text("className"),
        file_paths: texts(value.get("filePaths")),
        children: match value.get("children") {
            Some(Json::List(children)) => children.iter().map(raw_node).collect(),
            _ => Vec::new(),
        },
    }
}

fn sourcemap_of(raw: &str) -> Sourcemap {
    let root = raw_node(&parse_json(raw).expect("a document"));
    Sourcemap::index(root, "sourcemap.json".to_string(), None)
}

/// A project: its sourcemap, the aliases of its root, and its files in the order of their paths.
struct Project {
    sourcemap: Sourcemap,
    luaurc: Option<&'static str>,
    files: Vec<(&'static str, String)>,
}

impl Project {
    fn path(relative: &str) -> String {
        format!("{ROOT}/{relative}")
    }

    fn sources(&self) -> Vec<SourceFile> {
        self.files
            .iter()
            .map(|(relative, source)| SourceFile {
                relative_path: relative.to_string(),
                path: Self::path(relative),
                source: source.clone(),
            })
            .collect()
    }

    fn disk(&self) -> DiskFacts {
        let mut disk = DiskFacts {
            windows: false,
            root: ROOT.to_string(),
            tables: self
                .luaurc
                .iter()
                .map(|raw| AliasTable {
                    directory: ROOT.to_string(),
                    aliases: read_aliases(raw),
                })
                .collect(),
            files: Vec::new(),
        };
        for file in self.sources() {
            for asked in candidate_files(&file.source, &file.path, &disk) {
                if self
                    .files
                    .iter()
                    .any(|(relative, _)| Self::path(relative) == asked.replace("/./", "/"))
                {
                    disk.files.push(asked);
                }
            }
        }
        disk
    }

    fn stamp(&self) -> GraphStamp {
        let metadata = self
            .files
            .iter()
            .map(|(_, source)| {
                Some(FileMetadata {
                    len: source.len() as u64,
                    modified_nanos: None,
                })
            })
            .collect();
        stamp_of(&metadata, self.sourcemap.stamp())
    }

    fn graph(&self, shared_require: bool) -> RequireGraph {
        build(
            &self.sources(),
            shared_require,
            &self.sourcemap,
            &self.disk(),
            self.stamp(),
        )
    }
}

fn project() -> Project {
    Project {
        sourcemap: sourcemap_of(SOURCEMAP),
        luaurc: Some("{\n// vendored by wally\n\"aliases\": {\"Packages\": \"Packages\"}\n}\n"),
        files: vec![
            ("Packages/Promise.luau", "return {}\n".to_string()),
            (
                "src/Shared/A.luau",
                "local ReplicatedStorage = game:GetService(\"ReplicatedStorage\")\n\
                 local Shared = ReplicatedStorage:WaitForChild(\"Shared\")\n\
                 local B = require(script.Parent.B)\n\
                 local C = require(Shared.C)\n\
                 local Promise = require(\"@Packages/Promise\")\n\
                 local dynamic = require(Shared[name])\n\
                 local folder = require(Shared.Assets)\n\
                 return {}\n"
                    .to_string(),
            ),
            (
                "src/Shared/B.luau",
                "local C = require(game.ReplicatedStorage.Shared.C)\nreturn {}\n".to_string(),
            ),
            (
                "src/Shared/C.luau",
                "local A = require(script.Parent.A)\nreturn {}\n".to_string(),
            ),
        ],
    }
}

fn fixture() -> RequireGraph {
    project().graph(true)
}

fn shared_fixture(shared_require: bool) -> RequireGraph {
    Project {
        sourcemap: sourcemap_of(SHARED_SOURCEMAP),
        luaurc: None,
        files: vec![
            ("src/Server/Config.luau", "return {}\n".to_string()),
            ("src/Shared/Config.luau", "return {}\n".to_string()),
            (
                "src/Shared/Consumer.luau",
                "local Config = shared(\"Config\")\n\
                 local Server = shared(\"Server/Config\")\n\
                 local bare = shared \"Config\"\n\
                 local dynamic = shared(name)\n\
                 local joined = shared(\"Con\" .. \"fig\")\n\
                 local missing = shared(\"Nonexistent\")\n\
                 shared.someFlag = true\n\
                 local held = shared.cache\n\
                 return {}\n"
                    .to_string(),
            ),
        ],
    }
    .graph(shared_require)
}

fn dependency_paths(graph: &RequireGraph, relative: &str) -> Vec<String> {
    let index = graph.find(relative).expect("module is in the graph");
    let (reached, _) = graph.walk(index, Direction::Dependencies, 1, 100);
    let mut paths: Vec<String> = reached
        .into_iter()
        .map(|module| module.relative_path)
        .collect();
    paths.sort();
    paths
}

fn unresolved_reasons(graph: &RequireGraph, relative: &str) -> Vec<String> {
    let index = graph.find(relative).expect("module is in the graph");
    graph
        .module(index)
        .unresolved
        .iter()
        .map(|entry| entry.reason.clone())
        .collect()
}

fn every_shape_of_require_a_roblox_module_writes_resolves_to_the_same_graph() {
    let graph = fixture();
    assert_eq!(
        dependency_paths(&graph, "src/Shared/A.luau"),
        vec![
            "Packages/Promise.luau".to_string(),
            "src/Shared/B.luau".to_string(),
            "src/Shared/C.luau".to_string(),
        ]
    );
}

#[test]
fn requires_every_shape_of_require_a_roblox_module_writes_resolves_to_the_same_graph() {
    every_shape_of_require_a_roblox_module_writes_resolves_to_the_same_graph();
}

#[test]
fn build_every_shape_of_require_a_roblox_module_writes_resolves_to_the_same_graph() {
    every_shape_of_require_a_roblox_module_writes_resolves_to_the_same_graph();
}

fn dependents_are_the_edges_read_backwards() {
    let graph = fixture();
    let index = graph.find("src/Shared/C.luau").unwrap();
    let (reached, _) = graph.walk(index, Direction::Dependents, 1, 100);

    let mut paths: Vec<String> = reached
        .into_iter()
        .map(|module| module.relative_path)
        .collect();
    paths.sort();
    assert_eq!(
        paths,
        vec![
            "src/Shared/A.luau".to_string(),
            "src/Shared/B.luau".to_string()
        ]
    );
}

#[test]
fn requires_dependents_are_the_edges_read_backwards() {
    dependents_are_the_edges_read_backwards();
}

#[test]
fn graph_dependents_are_the_edges_read_backwards() {
    dependents_are_the_edges_read_backwards();
}

fn a_require_that_cannot_be_resolved_is_reported_rather_than_dropped() {
    let graph = fixture();
    let module = graph.module(graph.find("src/Shared/A.luau").unwrap());

    let reasons: Vec<(&str, &str)> = module
        .unresolved
        .iter()
        .map(|entry| (entry.expression.as_str(), entry.reason.as_str()))
        .collect();
    assert_eq!(reasons.len(), 2, "unexpected: {reasons:?}");

    let dynamic = reasons
        .iter()
        .find(|(expression, _)| expression.contains("[name]"))
        .expect("the dynamic index is reported");
    assert!(dynamic.1.contains("not a literal name"));

    let folder = reasons
        .iter()
        .find(|(expression, _)| expression.contains("Assets"))
        .expect("the folder require is reported");
    assert!(folder.1.contains("Folder"), "unexpected: {}", folder.1);
}

#[test]
fn requires_a_require_that_cannot_be_resolved_is_reported_rather_than_dropped() {
    a_require_that_cannot_be_resolved_is_reported_rather_than_dropped();
}

#[test]
fn build_a_require_that_cannot_be_resolved_is_reported_rather_than_dropped() {
    a_require_that_cannot_be_resolved_is_reported_rather_than_dropped();
}

fn a_cycle_is_reported_as_the_loop_it_closes() {
    let graph = fixture();
    let (cycles, truncated) = graph.cycles(10);
    assert!(!truncated);
    assert!(!cycles.is_empty(), "the fixture requires in a circle");

    let closed = cycles
        .iter()
        .find(|cycle| cycle.contains(&"src/Shared/C.luau".to_string()))
        .expect("C is in a cycle");
    assert_eq!(
        closed.first(),
        closed.last(),
        "a cycle names the module it comes back to: {closed:?}"
    );
}

#[test]
fn requires_a_cycle_is_reported_as_the_loop_it_closes() {
    a_cycle_is_reported_as_the_loop_it_closes();
}

#[test]
fn graph_a_cycle_is_reported_as_the_loop_it_closes() {
    a_cycle_is_reported_as_the_loop_it_closes();
}

fn a_commented_out_require_is_not_a_dependency() {
    let source = "-- require(script.Parent.Old)\nrequire(script.Parent.New)\n";
    let blanked = blank_comments(source);
    let lines = LineIndex::new(&blanked);
    let found = find_requires(&blanked, &lines);

    assert_eq!(found.len(), 1);
    assert_eq!(found[0].expression, "script.Parent.New");
    assert_eq!(found[0].line, 2);
}

#[test]
fn requires_a_commented_out_require_is_not_a_dependency() {
    a_commented_out_require_is_not_a_dependency();
}

#[test]
fn mod_a_commented_out_require_is_not_a_dependency() {
    a_commented_out_require_is_not_a_dependency();
}

fn a_long_comment_is_blanked_without_moving_the_lines_after_it() {
    let source = "--[==[\nrequire(script.Hidden)\n]==]\nrequire(script.Real)\n";
    let blanked = blank_comments(source);
    let lines = LineIndex::new(&blanked);
    let found = find_requires(&blanked, &lines);

    assert_eq!(found.len(), 1);
    assert_eq!(found[0].line, 4);
}

#[test]
fn requires_a_long_comment_is_blanked_without_moving_the_lines_after_it() {
    a_long_comment_is_blanked_without_moving_the_lines_after_it();
}

#[test]
fn mod_a_long_comment_is_blanked_without_moving_the_lines_after_it() {
    a_long_comment_is_blanked_without_moving_the_lines_after_it();
}

fn a_double_dash_inside_a_string_does_not_start_a_comment() {
    let source = "local separator = \"--\" local m = require(script.Real)\n";
    let blanked = blank_comments(source);
    let lines = LineIndex::new(&blanked);
    assert_eq!(find_requires(&blanked, &lines).len(), 1);
}

#[test]
fn requires_a_double_dash_inside_a_string_does_not_start_a_comment() {
    a_double_dash_inside_a_string_does_not_start_a_comment();
}

#[test]
fn mod_a_double_dash_inside_a_string_does_not_start_a_comment() {
    a_double_dash_inside_a_string_does_not_start_a_comment();
}

fn a_require_spanning_lines_is_read_whole() {
    let source = "local m = require(\n\tgame:GetService(\"ReplicatedStorage\").Shared\n)\n";
    let blanked = blank_comments(source);
    let lines = LineIndex::new(&blanked);
    let found = find_requires(&blanked, &lines);

    assert_eq!(found.len(), 1);
    assert!(found[0].expression.contains("GetService"));
    assert_eq!(found[0].line, 1);
}

#[test]
fn requires_a_require_spanning_lines_is_read_whole() {
    a_require_spanning_lines_is_read_whole();
}

#[test]
fn scan_a_require_spanning_lines_is_read_whole() {
    a_require_spanning_lines_is_read_whole();
}

fn a_word_ending_in_require_is_not_a_require() {
    let source = "local prerequire = 1\nlocal m = require(script.Real)\n";
    let blanked = blank_comments(source);
    let lines = LineIndex::new(&blanked);
    assert_eq!(find_requires(&blanked, &lines).len(), 1);
}

#[test]
fn requires_a_word_ending_in_require_is_not_a_require() {
    a_word_ending_in_require_is_not_a_require();
}

#[test]
fn scan_a_word_ending_in_require_is_not_a_require() {
    a_word_ending_in_require_is_not_a_require();
}

fn chains_parse_into_the_traversal_they_describe() {
    let chain = parse_chain("script.Parent.Parent.Shared.Combat").unwrap();
    assert_eq!(chain.head, "script");
    assert_eq!(
        chain.steps,
        vec![
            Step::Parent,
            Step::Parent,
            Step::Child("Shared".to_string()),
            Step::Child("Combat".to_string()),
        ]
    );

    let waited = parse_chain("ReplicatedStorage:WaitForChild(\"Shared\").Combat").unwrap();
    assert_eq!(waited.head, "ReplicatedStorage");
    assert_eq!(
        waited.steps,
        vec![
            Step::Child("Shared".to_string()),
            Step::Child("Combat".to_string()),
        ]
    );
}

#[test]
fn requires_chains_parse_into_the_traversal_they_describe() {
    chains_parse_into_the_traversal_they_describe();
}

#[test]
fn chain_chains_parse_into_the_traversal_they_describe() {
    chains_parse_into_the_traversal_they_describe();
}

fn a_chain_that_cannot_be_read_statically_is_refused_rather_than_guessed_at() {
    for expression in [
        "modules[name]",
        "Madwork.GetShared(\"Madwork\", \"MadworkMaid\")",
        "script:FindFirstAncestor(name).Thing",
        "script:WaitForChild(childName)",
    ] {
        assert!(
            parse_chain(expression).is_err(),
            "{expression} should not have parsed"
        );
    }
}

#[test]
fn requires_a_chain_that_cannot_be_read_statically_is_refused_rather_than_guessed_at() {
    a_chain_that_cannot_be_read_statically_is_refused_rather_than_guessed_at();
}

#[test]
fn chain_a_chain_that_cannot_be_read_statically_is_refused_rather_than_guessed_at() {
    a_chain_that_cannot_be_read_statically_is_refused_rather_than_guessed_at();
}

fn local_bindings_keep_the_last_value_a_name_was_given() {
    let bindings = local_bindings("local a = script.One\nlocal a = script.Two\n");
    assert_eq!(bindings.get("a"), Some("script.Two"));
}

#[test]
fn requires_local_bindings_keep_the_last_value_a_name_was_given() {
    local_bindings_keep_the_last_value_a_name_was_given();
}

#[test]
fn scan_local_bindings_keep_the_last_value_a_name_was_given() {
    local_bindings_keep_the_last_value_a_name_was_given();
}

fn multiple_assignment_is_not_read_as_a_binding() {
    let bindings = local_bindings("local a, b = 1, 2\n");
    assert!(bindings.is_empty());
}

#[test]
fn requires_multiple_assignment_is_not_read_as_a_binding() {
    multiple_assignment_is_not_read_as_a_binding();
}

#[test]
fn scan_multiple_assignment_is_not_read_as_a_binding() {
    multiple_assignment_is_not_read_as_a_binding();
}

fn a_shared_call_is_an_edge_like_any_other_require() {
    let graph = shared_fixture(true);
    assert_eq!(
        dependency_paths(&graph, "src/Shared/Consumer.luau"),
        vec![
            "src/Server/Config.luau".to_string(),
            "src/Shared/Config.luau".to_string(),
        ]
    );

    let config = graph
        .find("src/Shared/Config.luau")
        .expect("the target is in the graph");
    let (dependents, _) = graph.walk(config, Direction::Dependents, 1, 100);
    assert_eq!(
        dependents
            .iter()
            .map(|module| module.relative_path.as_str())
            .collect::<Vec<_>>(),
        vec!["src/Shared/Consumer.luau"],
        "the edge is readable backwards too"
    );
}

#[test]
fn requires_a_shared_call_is_an_edge_like_any_other_require() {
    a_shared_call_is_an_edge_like_any_other_require();
}

#[test]
fn build_a_shared_call_is_an_edge_like_any_other_require() {
    a_shared_call_is_an_edge_like_any_other_require();
}

fn an_unqualified_shared_name_resolves_to_the_nearest_candidate() {
    let graph = shared_fixture(true);
    let consumer = graph.find("src/Shared/Consumer.luau").unwrap();
    let edge = graph
        .module(consumer)
        .dependencies
        .iter()
        .find(|edge| edge.expression == "\"Config\"" && edge.line == 1)
        .expect("the first shared call is an edge");
    assert_eq!(
        graph.module(edge.target).relative_path,
        "src/Shared/Config.luau"
    );
}

#[test]
fn requires_an_unqualified_shared_name_resolves_to_the_nearest_candidate() {
    an_unqualified_shared_name_resolves_to_the_nearest_candidate();
}

#[test]
fn build_an_unqualified_shared_name_resolves_to_the_nearest_candidate() {
    an_unqualified_shared_name_resolves_to_the_nearest_candidate();
}

fn a_shared_call_biskit_cannot_read_is_reported_rather_than_dropped() {
    let graph = shared_fixture(true);
    let reasons = unresolved_reasons(&graph, "src/Shared/Consumer.luau");

    assert_eq!(
        reasons
            .iter()
            .filter(|reason| reason.contains("not a string literal"))
            .count(),
        2,
        "the variable and the concatenation are both reported: {reasons:?}"
    );
    assert!(
        reasons
            .iter()
            .any(|reason| reason.contains("\"Nonexistent\"") && reason.contains("no module")),
        "unexpected reasons: {reasons:?}"
    );
}

#[test]
fn requires_a_shared_call_biskit_cannot_read_is_reported_rather_than_dropped() {
    a_shared_call_biskit_cannot_read_is_reported_rather_than_dropped();
}

#[test]
fn build_a_shared_call_biskit_cannot_read_is_reported_rather_than_dropped() {
    a_shared_call_biskit_cannot_read_is_reported_rather_than_dropped();
}

fn indexing_the_shared_table_is_not_a_require() {
    let source = "shared.someFlag = true\nlocal held = shared.cache\nlocal n = shared[key]\n";
    let blanked = blank_comments(source);
    let lines = LineIndex::new(&blanked);
    assert!(find_shared_requires(&blanked, &lines).is_empty());
}

#[test]
fn requires_indexing_the_shared_table_is_not_a_require() {
    indexing_the_shared_table_is_not_a_require();
}

#[test]
fn scan_indexing_the_shared_table_is_not_a_require() {
    indexing_the_shared_table_is_not_a_require();
}

fn a_call_without_parentheses_is_still_a_shared_require() {
    let graph = shared_fixture(true);
    let consumer = graph.find("src/Shared/Consumer.luau").unwrap();
    assert!(
        graph
            .module(consumer)
            .dependencies
            .iter()
            .any(|edge| edge.line == 3),
        "the paren-less call on line 3 is an edge: {:?}",
        graph.module(consumer).dependencies
    );
}

#[test]
fn requires_a_call_without_parentheses_is_still_a_shared_require() {
    a_call_without_parentheses_is_still_a_shared_require();
}

#[test]
fn build_a_call_without_parentheses_is_still_a_shared_require() {
    a_call_without_parentheses_is_still_a_shared_require();
}

fn turning_shared_require_off_leaves_the_calls_alone() {
    let graph = shared_fixture(false);
    assert!(
        dependency_paths(&graph, "src/Shared/Consumer.luau").is_empty(),
        "no shared call should become an edge"
    );
    assert!(
        unresolved_reasons(&graph, "src/Shared/Consumer.luau").is_empty(),
        "and none should be reported as a failure either"
    );
}

#[test]
fn requires_turning_shared_require_off_leaves_the_calls_alone() {
    turning_shared_require_off_leaves_the_calls_alone();
}

#[test]
fn build_turning_shared_require_off_leaves_the_calls_alone() {
    turning_shared_require_off_leaves_the_calls_alone();
}

fn a_qualified_call_is_not_the_shared_global() {
    let source = "local a = Framework.shared(\"Config\")\nlocal b = self:shared(\"Config\")\n";
    let blanked = blank_comments(source);
    let lines = LineIndex::new(&blanked);
    assert!(find_shared_requires(&blanked, &lines).is_empty());
}

#[test]
fn requires_a_qualified_call_is_not_the_shared_global() {
    a_qualified_call_is_not_the_shared_global();
}

#[test]
fn scan_a_qualified_call_is_not_the_shared_global() {
    a_qualified_call_is_not_the_shared_global();
}

fn a_commented_out_shared_call_is_not_a_dependency() {
    let source = "-- shared(\"Old\")\nshared(\"New\")\n";
    let blanked = blank_comments(source);
    let lines = LineIndex::new(&blanked);
    let found = find_shared_requires(&blanked, &lines);
    assert_eq!(found.len(), 1);
    assert_eq!(found[0].line, 2);
}

#[test]
fn requires_a_commented_out_shared_call_is_not_a_dependency() {
    a_commented_out_shared_call_is_not_a_dependency();
}

#[test]
fn mod_a_commented_out_shared_call_is_not_a_dependency() {
    a_commented_out_shared_call_is_not_a_dependency();
}

fn calls_are_reported_in_the_order_they_are_written() {
    let source = "require(script.A)\nshared(\"B\")\nrequire(script.C)\n";
    let blanked = blank_comments(source);
    let lines = LineIndex::new(&blanked);
    let lines_found: Vec<u32> = find_calls(&blanked, &lines, true)
        .iter()
        .map(|call| call.line)
        .collect();
    assert_eq!(lines_found, vec![1, 2, 3]);
}

#[test]
fn requires_calls_are_reported_in_the_order_they_are_written() {
    calls_are_reported_in_the_order_they_are_written();
}

#[test]
fn scan_calls_are_reported_in_the_order_they_are_written() {
    calls_are_reported_in_the_order_they_are_written();
}

fn only_a_lone_string_literal_carries_a_module_name() {
    assert_eq!(string_literal("\"Foo\""), Some("Foo".to_string()));
    assert_eq!(string_literal("'Foo'"), Some("Foo".to_string()));
    assert_eq!(
        string_literal("\"jobs\\\\Foo\""),
        Some("jobs\\Foo".to_string())
    );
    assert_eq!(string_literal("\"Foo\"  "), Some("Foo".to_string()));

    for expression in ["name", "\"a\" .. b", "\"a\", \"b\"", "\"unterminated", ""] {
        assert_eq!(string_literal(expression), None, "{expression} parsed");
    }
}

#[test]
fn requires_only_a_lone_string_literal_carries_a_module_name() {
    only_a_lone_string_literal_carries_a_module_name();
}

#[test]
fn scan_only_a_lone_string_literal_carries_a_module_name() {
    only_a_lone_string_literal_carries_a_module_name();
}

fn an_unchanged_project_reuses_the_graph_it_already_built() {
    let mut project = project();
    let stamp = project.stamp();
    let graph = project.graph(true);

    // Were the graph built anew, the module marked here would lose its mark.
    let mut cached = graph;
    cached.modules[0].instance_path = Some("marked".to_string());
    let again = build_or_reuse(
        Some(cached),
        &project.sources(),
        true,
        &project.sourcemap,
        &project.disk(),
        stamp,
    );
    assert_eq!(
        again.module(0).instance_path.as_deref(),
        Some("marked"),
        "the graph was rebuilt"
    );

    project.files[2].1 = "-- changed\nreturn {}\n".to_string();
    let rebuilt = build_or_reuse(
        Some(again),
        &project.sources(),
        true,
        &project.sourcemap,
        &project.disk(),
        project.stamp(),
    );
    assert_ne!(
        rebuilt.module(0).instance_path.as_deref(),
        Some("marked"),
        "an edited file did not invalidate the graph"
    );
    assert!(dependency_paths(&rebuilt, "src/Shared/B.luau").is_empty());
}

#[test]
fn requires_an_unchanged_project_reuses_the_graph_it_already_built() {
    an_unchanged_project_reuses_the_graph_it_already_built();
}

#[test]
fn build_an_unchanged_project_reuses_the_graph_it_already_built() {
    an_unchanged_project_reuses_the_graph_it_already_built();
}

fn a_shared_the_file_bound_itself_is_not_the_global() {
    let graph = Project {
        sourcemap: sourcemap_of(SHARED_SOURCEMAP),
        luaurc: None,
        files: vec![
            ("src/Shared/Config.luau", "return {}\n".to_string()),
            (
                "src/Shared/Consumer.luau",
                "local shared = require(script.Parent.Config)\nlocal x = shared(\"Config\")\nreturn {}\n"
                    .to_string(),
            ),
        ],
    }
    .graph(true);

    assert_eq!(
        dependency_paths(&graph, "src/Shared/Consumer.luau"),
        vec!["src/Shared/Config.luau".to_string()],
        "only the real require is an edge, and it is not counted twice"
    );
}

#[test]
fn requires_a_shared_the_file_bound_itself_is_not_the_global() {
    a_shared_the_file_bound_itself_is_not_the_global();
}

#[test]
fn build_a_shared_the_file_bound_itself_is_not_the_global() {
    a_shared_the_file_bound_itself_is_not_the_global();
}

#[test]
fn a_module_the_ignore_set_hides_but_the_sourcemap_names_is_still_in_the_graph() {
    let sourcemap = sourcemap_of(PACKAGE_SOURCEMAP);
    let walked = vec![Project::path("src/Shared/Consumer.luau")];
    let named = sourcemap
        .luau_files()
        .iter()
        .map(|relative| Project::path(relative))
        .collect();

    let files = luau_files(&walked, &named);
    assert!(
        files.iter().any(|path| path.ends_with("Signal.luau")),
        "a gitignored file rojo syncs into the game is still part of the game: {files:?}"
    );
    assert_eq!(
        files,
        vec![
            Project::path("Packages/Signal.luau"),
            Project::path("src/Shared/Consumer.luau")
        ]
    );

    let graph = Project {
        sourcemap,
        luaurc: None,
        files: vec![
            ("Packages/Signal.luau", "return {}\n".to_string()),
            (
                "src/Shared/Consumer.luau",
                "local Signal = shared(\"Signal\")\nreturn {}\n".to_string(),
            ),
        ],
    }
    .graph(true);

    assert_eq!(
        dependency_paths(&graph, "src/Shared/Consumer.luau"),
        vec!["Packages/Signal.luau".to_string()]
    );
    assert!(
        unresolved_reasons(&graph, "src/Shared/Consumer.luau").is_empty(),
        "a resolvable name must not be reported as naming no module"
    );
}

#[test]
fn a_walk_reports_the_shallowest_hop_and_keeps_to_its_limit() {
    let graph = fixture();
    let start = graph.find("src/Shared/A.luau").unwrap();
    let (reached, cut) = graph.walk(start, Direction::Dependencies, 5, 100);
    assert!(!cut);
    let c = reached
        .iter()
        .find(|module| module.relative_path == "src/Shared/C.luau")
        .unwrap();
    assert_eq!(c.depth, 1, "A requires C itself, besides through B");
    assert!(reached
        .iter()
        .all(|module| module.relative_path != "src/Shared/A.luau"));

    let (some, cut) = graph.walk(start, Direction::Dependencies, 5, 2);
    assert!(cut);
    assert_eq!(some.len(), 2);
}

#[test]
fn a_graph_without_a_loop_reports_no_cycle() {
    let graph = shared_fixture(true);
    let (cycles, truncated) = graph.cycles(10);
    assert!(cycles.is_empty());
    assert!(!truncated);
}

#[test]
fn files_come_in_the_order_of_their_paths_each_once() {
    let walked: Vec<String> = ["/p/a.b/x.luau", "/p/notes.md", "/p/a/x.lua", "/p/.luau"]
        .iter()
        .map(|path| path.to_string())
        .collect();
    let named = vec!["/p/a/x.lua".to_string(), "/p/Packages/S.luau".to_string()];
    assert_eq!(
        luau_files(&walked, &named),
        vec![
            "/p/Packages/S.luau".to_string(),
            "/p/a/x.lua".to_string(),
            "/p/a.b/x.luau".to_string(),
        ]
    );
}

#[test]
fn blanking_keeps_every_offset_and_line_break() {
    let source = "a -- b é\nc --[[ d\ne ]] f\n";
    let blanked = blank_comments(source);
    assert_eq!(blanked.len(), source.len());
    assert_eq!(blanked, "a        \nc       \n     f\n");
}

#[test]
fn a_string_require_asks_for_the_files_it_may_mean() {
    let disk = project().disk();
    assert_eq!(
        candidate_files("require(\"./B\")\nrequire(script.C)\n", "/project/src/A.luau", &disk),
        vec![
            "/project/src/./B.luau".to_string(),
            "/project/src/./B.lua".to_string(),
            "/project/src/./B/init.luau".to_string(),
            "/project/src/./B/init.lua".to_string(),
        ]
    );
    assert_eq!(
        candidate_files("require(\"@Nowhere/B\")", "/project/src/A.luau", &disk),
        Vec::<String>::new()
    );
}

#[test]
fn an_answer_tells_of_one_module_or_of_all() {
    let project = project();
    let graph = project.graph(true);
    let mut request = GraphRequest {
        relative_path: Some("src/Shared/C.luau"),
        directions: Direction::parse(Some("both")).unwrap(),
        depth: 1,
        include_cycles: true,
        include_unresolved: true,
        limit: 100,
    };
    let answer = graph.answer(&request, &project.sourcemap, 0).unwrap();
    assert_eq!(answer.relative_path.as_deref(), Some("src/Shared/C.luau"));
    assert_eq!(
        answer.instance_path.as_deref(),
        Some("game.ReplicatedStorage.Shared.C")
    );
    assert_eq!(answer.modules_scanned, 4);
    assert_eq!(answer.dependencies.unwrap().len(), 1);
    assert_eq!(answer.dependents.unwrap().len(), 2);
    assert!(!answer.cycles.unwrap().is_empty());

    request.relative_path = None;
    let whole = graph.answer(&request, &project.sourcemap, 0).unwrap();
    assert_eq!(whole.unresolved.len(), 2);
    assert!(whole.dependencies.is_none());

    request.relative_path = Some("src/Nowhere.luau");
    assert!(graph.answer(&request, &project.sourcemap, 0).is_err());
    assert!(Direction::parse(Some("sideways")).is_err());
    assert_eq!(
        Direction::parse(None).unwrap(),
        vec![Direction::Dependencies, Direction::Dependents]
    );
}

#[test]
fn a_relative_string_require_leads_to_the_file_it_names() {
    let graph = Project {
        sourcemap: sourcemap_of(r#"{"name": "Fixture", "className": "DataModel"}"#),
        luaurc: None,
        files: vec![
            ("src/A.luau", "require(\"./B\")\nrequire(\"./C\")\n".to_string()),
            ("src/B.luau", "return {}\n".to_string()),
        ],
    }
    .graph(true);
    assert_eq!(
        dependency_paths(&graph, "src/A.luau"),
        vec!["src/B.luau".to_string()]
    );
    assert_eq!(
        unresolved_reasons(&graph, "src/A.luau"),
        vec!["./C does not name a file on disk".to_string()]
    );
}

#[test]
fn blanking_twice_is_blanking_once() {
    for source in [
        "-- a comment\nlocal x = [[ -- not one ]] --[==[ one\nmore ]==] local y = '--'\n",
        "-[=- [[ -- ]] --",
        "local s = \"a\\\" -- b\" -- tail",
    ] {
        let once = blank_comments(source);
        assert_eq!(blank_comments(&once), once);
        assert_eq!(once.len(), source.len());
    }
    assert_eq!(blank_comments("a -- b\nc"), "a     \nc");
}

#[test]
fn a_smaller_limit_only_cuts_the_end_of_a_walk() {
    let graph = fixture();
    let start = graph.find("src/Shared/A.luau").unwrap();
    let told = |limit: usize| -> Vec<String> {
        let (reached, _) = graph.walk(start, Direction::Dependencies, 5, limit);
        reached.into_iter().map(|module| module.relative_path).collect()
    };
    let all = told(100);
    for limit in 0..all.len() {
        assert_eq!(told(limit), all[..limit]);
    }
}

#[test]
fn a_require_is_told_alike_from_both_of_its_ends() {
    let graph = fixture();
    let target = graph.find("src/Shared/C.luau").unwrap();
    let (owners, _) = graph.walk(target, Direction::Dependents, 1, 100);
    assert!(!owners.is_empty());
    for owner in owners {
        let from = graph.find(&owner.relative_path).unwrap();
        let (reached, _) = graph.walk(from, Direction::Dependencies, 1, 100);
        let there = reached
            .iter()
            .find(|module| module.relative_path == "src/Shared/C.luau")
            .unwrap();
        assert_eq!((there.line, &there.via), (owner.line, &owner.via));
    }
}

#[test]
fn a_cycle_passes_each_of_its_modules_once() {
    let (cycles, _) = fixture().cycles(10);
    for cycle in cycles {
        let mut modules = cycle[1..].to_vec();
        modules.sort();
        modules.dedup();
        assert_eq!(modules.len(), cycle.len() - 1);
    }
}

#[test]
fn a_graph_is_current_until_a_file_moves() {
    let mut project = project();
    let graph = project.graph(true);
    assert!(is_current(&graph, &project.stamp()));
    project.files[2].1 = "-- changed\nreturn {}\n".to_string();
    assert!(!is_current(&graph, &project.stamp()));
}

#[test]
fn a_string_require_stays_on_its_share() {
    let disk = DiskFacts {
        windows: true,
        root: "//s/h/game".to_string(),
        tables: vec![AliasTable {
            directory: "//s/h/game".to_string(),
            aliases: read_aliases(r#"{"aliases": {"lib": "/game/lib"}}"#),
        }],
        files: vec!["//s/h/game/lib/a.luau".to_string()],
    };
    assert_eq!(
        resolve_string_require("@lib/a", "//s/h/game/src/b.luau", &disk).as_deref(),
        Ok("lib/a.luau")
    );
}
