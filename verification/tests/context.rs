//! What is gathered about a module.
use biskit_mcp::roblox::context::{count_by_severity, module_context, require_file, role_of};
use biskit_mcp::roblox::require_graph::building::{build, stamp_of, SourceFile};
use biskit_mcp::roblox::require_graph::graph::RequireGraph;
use biskit_mcp::roblox::require_graph::string_require::DiskFacts;
use biskit_mcp::roblox::sourcemap::{RawNode, Sourcemap};

#[test]
fn only_unambiguous_services_decide_where_code_runs() {
    assert_eq!(role_of(Some("ServerScriptService")), "server");
    assert_eq!(role_of(Some("StarterPlayer")), "client");
    assert_eq!(role_of(Some("ReplicatedStorage")), "shared");
    assert_eq!(role_of(Some("Chat")), "unknown");
    assert_eq!(role_of(None), "unknown");
}

fn module(name: &str, file: &str) -> RawNode {
    RawNode {
        name: name.to_string(),
        class_name: "ModuleScript".to_string(),
        file_paths: vec![file.to_string()],
        children: Vec::new(),
    }
}

fn fixture() -> (Sourcemap, RequireGraph) {
    let root = RawNode {
        name: "Game".to_string(),
        class_name: "DataModel".to_string(),
        file_paths: Vec::new(),
        children: vec![RawNode {
            name: "ServerScriptService".to_string(),
            class_name: "ServerScriptService".to_string(),
            file_paths: Vec::new(),
            children: vec![module("A", "src/A.luau"), module("B", "src/B.luau")],
        }],
    };
    let sourcemap = Sourcemap::index(root, "sourcemap.json".to_string(), None);
    let files = [
        ("src/A.luau", "require(script.Parent.B)\nrequire(script.Parent.Z)\n"),
        ("src/B.luau", "return {}\n"),
        ("src/Loose.luau", "return {}\n"),
    ]
    .iter()
    .map(|(path, source)| SourceFile {
        relative_path: path.to_string(),
        path: format!("/project/{path}"),
        source: source.to_string(),
    })
    .collect();
    let disk = DiskFacts {
        windows: false,
        root: "/project".to_string(),
        tables: Vec::new(),
        files: Vec::new(),
    };
    let stamp = stamp_of(&Vec::new(), None);
    let graph = build(&files, true, &sourcemap, &disk, stamp);
    (sourcemap, graph)
}

#[test]
fn a_module_is_told_with_its_neighbours() {
    let (sourcemap, graph) = fixture();
    let context = module_context(
        "src/A.luau".to_string(),
        &sourcemap,
        &graph,
        10,
        Ok("api"),
        Ok(vec!["error".to_string(), "warning".to_string(), "error".to_string()]),
        0,
    );
    assert_eq!(
        context.instance_path.as_deref(),
        Some("game.ServerScriptService.A")
    );
    assert_eq!(context.role, "server");
    assert_eq!(context.requires_directly.len(), 1);
    assert_eq!(context.required_by.len(), 0);
    assert_eq!(context.unresolved_requires.len(), 1);
    assert_eq!(context.api, Some("api"));
    assert_eq!(context.diagnostics.get("error"), Some(&2));
    assert_eq!(context.diagnostics.get("warning"), Some(&1));
    assert!(context.notes.is_empty(), "{:?}", context.notes);
}

#[test]
fn what_could_not_be_learned_is_noted() {
    let (sourcemap, graph) = fixture();
    let context = module_context::<&str>(
        "src/Elsewhere.luau".to_string(),
        &sourcemap,
        &graph,
        10,
        Err("no server".to_string()),
        Err("no server".to_string()),
        0,
    );
    assert_eq!(context.role, "unknown");
    assert!(context.api.is_none());
    assert!(context
        .notes
        .iter()
        .any(|note| note.contains("not in the sourcemap")));
    assert!(context
        .notes
        .iter()
        .any(|note| note.contains("outside the set Biskit scans")));

    let loose = module_context(
        "src/Loose.luau".to_string(),
        &sourcemap,
        &graph,
        10,
        Ok("api"),
        Ok(Vec::new()),
        0,
    );
    assert!(loose
        .notes
        .iter()
        .all(|note| !note.contains("outside the set")));
}

#[test]
fn a_file_that_is_not_there_is_refused() {
    assert!(require_file("src/A.luau", true).is_ok());
    assert_eq!(
        require_file("src/A.luau", false).unwrap_err().message,
        "no such file: src/A.luau"
    );
    let counted = count_by_severity(&vec!["b".to_string(), "a".to_string(), "b".to_string()]);
    assert_eq!(counted.len(), 2);
    assert_eq!(counted.name_at(0), "a");
    assert_eq!(counted.get("b"), Some(&2));
}
