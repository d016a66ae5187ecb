//! Finding a module by the name a `shared` call gives it.
use biskit_mcp::json::{parse_json, Json};
use biskit_mcp::roblox::shared_require::{common_segment_count, Resolution, SharedIndex};
use biskit_mcp::roblox::sourcemap::{RawNode, Sourcemap};

fn texts(value: Option<&Json>) -> Vec<String> {
    match value {
        Some(Json::List(items)) => items
            .iter()
            .map(|item| item.as_text().expect("a text").to_string())
            .collect(),
        _ => Vec::new(),
    }
}

fn raw_node(value: &Json) -> RawNode {
    let text = |key: &str| value.get(key).and_then(Json::as_text).expect("a text").to_string();
    RawNode {
        name: text("name"),
        class_name: text("className"),
        file_paths: texts(value.get("filePaths")),
        children: match value.get("children") {
            Some(Json::List(children)) => children.iter().map(raw_node).collect(),
            _ => Vec::new(),
        },
    }
}

fn sourcemap_of(raw: &str) -> Sourcemap {
    let root = raw_node(&parse_json(raw).expect("a document"));
    Sourcemap::index(root, "sourcemap.json".to_string(), None)
}

/// A sourcemap wide enough to make instance-tree proximity mean something.
fn sourcemap() -> Sourcemap {
    sourcemap_of(
        r#"{
            "name": "MyGame",
            "className": "DataModel",
            "children": [
                {
                    "name": "ReplicatedStorage",
                    "className": "ReplicatedStorage",
                    "children": [{
                        "name": "Shared",
                        "className": "Folder",
                        "filePaths": ["src/Shared"],
                        "children": [
                            {"name": "Config", "className": "ModuleScript",
                             "filePaths": ["src/Shared/Config.luau"]},
                            {"name": "Consumer", "className": "ModuleScript",
                             "filePaths": ["src/Shared/Consumer.luau"]},
                            {"name": "Jobs", "className": "Folder",
                             "filePaths": ["src/Shared/Jobs"],
                             "children": [{"name": "Runner", "className": "ModuleScript",
                                           "filePaths": ["src/Shared/Jobs/Runner.luau"]}]}
                        ]
                    }]
                },
                {
                    "name": "ServerScriptService",
                    "className": "ServerScriptService",
                    "children": [{
                        "name": "Server",
                        "className": "Folder",
                        "filePaths": ["src/Server"],
                        "children": [
                            {"name": "Config", "className": "ModuleScript",
                             "filePaths": ["src/Server/Config.luau"]},
                            {"name": "Caller", "className": "ModuleScript",
                             "filePaths": ["src/Server/Caller.luau"]}
                        ]
                    }]
                }
            ]
        }"#,
    )
}

fn index(paths: &[&str]) -> SharedIndex {
    let owned: Vec<String> = paths.iter().map(|path| path.to_string()).collect();
    SharedIndex::build(&owned, &sourcemap())
}

#[test]
fn a_bare_stem_resolves_to_the_only_file_carrying_it() {
    let index = index(&["src/Shared/Consumer.luau", "src/Shared/Jobs/Runner.luau"]);
    assert_eq!(
        index.resolve("Runner", "src/Shared/Consumer.luau"),
        Resolution::Found("src/Shared/Jobs/Runner.luau".to_string())
    );
}

#[test]
fn the_lookup_is_case_insensitive_in_both_directions() {
    let index = index(&["src/Shared/Consumer.luau", "src/Shared/Jobs/Runner.luau"]);
    for spelling in ["runner", "RUNNER", "rUnNeR"] {
        assert_eq!(
            index.resolve(spelling, "src/Shared/Consumer.luau"),
            Resolution::Found("src/Shared/Jobs/Runner.luau".to_string()),
            "{spelling} did not resolve"
        );
    }
}

#[test]
fn a_written_out_extension_names_the_same_module() {
    let index = index(&["src/Shared/Consumer.luau", "src/Shared/Jobs/Runner.luau"]);
    for spelling in ["Runner.luau", "Runner.lua", "Jobs/Runner.luau"] {
        assert_eq!(
            index.resolve(spelling, "src/Shared/Consumer.luau"),
            Resolution::Found("src/Shared/Jobs/Runner.luau".to_string()),
            "{spelling} did not resolve"
        );
    }
}

#[test]
fn a_partial_path_narrows_to_the_matching_directory() {
    let index = index(&[
        "src/Shared/Config.luau",
        "src/Server/Config.luau",
        "src/Shared/Consumer.luau",
    ]);
    assert_eq!(
        index.resolve("Server/Config", "src/Shared/Consumer.luau"),
        Resolution::Found("src/Server/Config.luau".to_string())
    );
    assert_eq!(
        index.resolve("shared/config", "src/Server/Caller.luau"),
        Resolution::Found("src/Shared/Config.luau".to_string())
    );
}

#[test]
fn a_partial_path_only_matches_on_a_segment_boundary() {
    let index = index(&["src/Shared/Config.luau", "src/Shared/Consumer.luau"]);
    // "ared/Config" is a substring of the path but not a suffix of whole segments.
    assert_eq!(
        index.resolve("ared/Config", "src/Shared/Consumer.luau"),
        Resolution::NotFound
    );
}

#[test]
fn a_backslash_in_the_needle_is_a_path_separator() {
    let index = index(&["src/Shared/Jobs/Runner.luau", "src/Shared/Consumer.luau"]);
    assert_eq!(
        index.resolve("Jobs\\Runner", "src/Shared/Consumer.luau"),
        Resolution::Found("src/Shared/Jobs/Runner.luau".to_string())
    );
}

#[test]
fn an_init_file_is_indexed_under_its_directory() {
    let index = index(&["src/Shared/Jobs/init.luau", "src/Shared/Consumer.luau"]);
    assert_eq!(
        index.resolve("Jobs", "src/Shared/Consumer.luau"),
        Resolution::Found("src/Shared/Jobs/init.luau".to_string())
    );
    assert_eq!(
        index.resolve("init", "src/Shared/Consumer.luau"),
        Resolution::NotFound,
        "the folded file is not addressable as \"init\""
    );
}

#[test]
fn the_nearest_candidate_in_the_instance_tree_wins() {
    let index = index(&[
        "src/Shared/Config.luau",
        "src/Server/Config.luau",
        "src/Shared/Consumer.luau",
        "src/Server/Caller.luau",
    ]);
    assert_eq!(
        index.resolve("Config", "src/Shared/Consumer.luau"),
        Resolution::Found("src/Shared/Config.luau".to_string())
    );
    assert_eq!(
        index.resolve("Config", "src/Server/Caller.luau"),
        Resolution::Found("src/Server/Config.luau".to_string())
    );
}

/// With no sourcemap the same tie-break runs on directory proximity instead.
#[test]
fn proximity_falls_back_to_directory_depth_without_a_sourcemap() {
    let owned: Vec<String> = ["a/deep/Config.luau", "b/Config.luau", "a/deep/Caller.luau"]
        .iter()
        .map(|path| path.to_string())
        .collect();
    let empty = sourcemap_of(
        r#"{"name": "MyGame", "className": "DataModel"}"#,
    );
    let index = SharedIndex::build(&owned, &empty);

    assert_eq!(
        index.resolve("Config", "a/deep/Caller.luau"),
        Resolution::Found("a/deep/Config.luau".to_string())
    );
}

#[test]
fn a_genuine_tie_is_reported_rather_than_guessed_at() {
    let index = index(&["src/Shared/Config.luau", "src/Server/Config.luau"]);
    assert_eq!(
        index.resolve("Config", "elsewhere/Unmapped.luau"),
        Resolution::Ambiguous(vec![
            "src/Server/Config.luau".to_string(),
            "src/Shared/Config.luau".to_string(),
        ])
    );
}

#[test]
fn a_module_never_resolves_to_itself() {
    let index = index(&["src/Shared/Config.luau"]);
    assert_eq!(
        index.resolve("Config", "src/Shared/Config.luau"),
        Resolution::NotFound
    );
}

#[test]
fn a_name_no_file_carries_is_not_found() {
    let index = index(&["src/Shared/Config.luau"]);
    assert_eq!(
        index.resolve("Nonexistent", "src/Shared/Config.luau"),
        Resolution::NotFound
    );
    assert_eq!(
        index.resolve("", "src/Shared/Config.luau"),
        Resolution::NotFound
    );
    assert_eq!(
        index.resolve(".luau", "src/Shared/Config.luau"),
        Resolution::NotFound
    );
}

#[test]
fn only_luau_files_are_indexed() {
    let index = index(&["src/Shared/Config.json", "src/Shared/Notes.md"]);
    assert!(index.is_empty());
    assert_eq!(index.len(), 0);
}

#[test]
fn segments_are_counted_only_while_they_match() {
    assert_eq!(common_segment_count("game/A/B", "game/A/B"), 3);
    assert_eq!(common_segment_count("game/A/B", "game/A/C"), 2);
    assert_eq!(common_segment_count("game/A", "game/A/B/C"), 2);
    assert_eq!(common_segment_count("other/A", "game/A"), 0);
    assert_eq!(common_segment_count("game\\A\\B", "game/A/C"), 2);
}
