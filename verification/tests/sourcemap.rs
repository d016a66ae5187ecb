//! Translating between instances and files.
use biskit_mcp::errors::render;
use biskit_mcp::json::{parse_json, Json};
use biskit_mcp::roblox::sourcemap::{FileStamp, RawNode, Sourcemap};

fn texts(value: Option<&Json>) -> Vec<String> {
    match value {
        Some(Json::List(items)) => items
            .iter()
            .map(|item| item.as_text().expect("a text").to_string())
            .collect(),
        _ => Vec::new(),
    }
}

fn raw_node(value: &Json) -> RawNode {
    let text = |key: &str| value.get(key).and_then(Json::as_text).expect("a text").to_string();
    RawNode {
        name: text("name"),
        class_name: text("className"),
        file_paths: texts(value.get("filePaths")),
        children: match value.get("children") {
            Some(Json::List(children)) => children.iter().map(raw_node).collect(),
            _ => Vec::new(),
        },
    }
}

fn sourcemap_of(raw: &str) -> Sourcemap {
    let root = raw_node(&parse_json(raw).expect("a document"));
    Sourcemap::index(root, "sourcemap.json".to_string(), None)
}

fn fixture() -> Sourcemap {
    sourcemap_of(
        r#"{
            "name": "MyGame",
            "className": "DataModel",
            "children": [
                {
                    "name": "ReplicatedStorage",
                    "className": "ReplicatedStorage",
                    "children": [
                        {
                            "name": "Shared",
                            "className": "Folder",
                            "filePaths": ["src/Shared"],
                            "children": [
                                {
                                    "name": "Combat",
                                    "className": "ModuleScript",
                                    "filePaths": ["src/Shared/Combat/init.luau"],
                                    "children": [
                                        {
                                            "name": "Damage",
                                            "className": "ModuleScript",
                                            "filePaths": ["src/Shared/Combat/Damage.luau"]
                                        }
                                    ]
                                }
                            ]
                        }
                    ]
                },
                {
                    "name": "ServerScriptService",
                    "className": "ServerScriptService",
                    "children": [
                        {
                            "name": "PlayerService",
                            "className": "ModuleScript",
                            "filePaths": ["src\\Server\\PlayerService.luau"]
                        }
                    ]
                }
            ]
        }"#,
    )
}

#[test]
fn the_data_model_is_spelled_game_whatever_the_project_is_called() {
    let map = fixture();
    assert_eq!(map.node(map.root()).instance_path, "game");
    let combat = map
        .resolve_instance_path("game.ReplicatedStorage.Shared.Combat")
        .unwrap();
    assert_eq!(
        map.node(combat).instance_path,
        "game.ReplicatedStorage.Shared.Combat"
    );
}

#[test]
fn a_path_resolves_with_or_without_its_root_and_through_get_service() {
    let map = fixture();
    let expected = map
        .resolve_instance_path("game.ReplicatedStorage.Shared.Combat")
        .unwrap();

    for spelling in [
        "ReplicatedStorage.Shared.Combat",
        "MyGame.ReplicatedStorage.Shared.Combat",
        "game:GetService(\"ReplicatedStorage\").Shared.Combat",
        "game.ReplicatedStorage:WaitForChild(\"Shared\").Combat",
        "game.ReplicatedStorage.Shared[\"Combat\"]",
    ] {
        assert_eq!(
            map.resolve_instance_path(spelling).unwrap(),
            expected,
            "failed on {spelling}"
        );
    }
}

#[test]
fn a_missing_segment_names_the_children_it_could_have_been() {
    let map = fixture();
    let error = map
        .resolve_instance_path("game.ReplicatedStorage.Shared.combat")
        .unwrap_err();
    let rendered = render("resolve_instance_path", &error);
    assert!(rendered.contains("no instance named combat"));
    assert!(rendered.contains("its children are: Combat"));
}

#[test]
fn a_file_resolves_back_to_its_instance_whatever_separator_it_was_written_with() {
    let map = fixture();
    let found = map.nodes_for_file("src/Server/PlayerService.luau");
    assert_eq!(found.len(), 1);
    assert_eq!(
        map.node(found[0]).instance_path,
        "game.ServerScriptService.PlayerService"
    );
}

/// A rojo version that names a directory instance by the directory leaves the init file
/// itself unmentioned, and the agent holding the file path should still get an answer.
#[test]
fn an_init_file_falls_back_to_the_directory_that_owns_it() {
    let map = fixture();
    let by_init = map.nodes_for_file("src/Shared/init.luau");
    assert_eq!(by_init.len(), 1);
    assert_eq!(
        map.node(by_init[0]).instance_path,
        "game.ReplicatedStorage.Shared"
    );
}

#[test]
fn children_keep_the_order_the_sourcemap_wrote_them_in() {
    let map = fixture();
    let root = map.root();
    let names: Vec<&str> = map
        .node(root)
        .children
        .iter()
        .map(|child| map.node(*child).name.as_str())
        .collect();
    assert_eq!(names, vec!["ReplicatedStorage", "ServerScriptService"]);
}

#[test]
fn the_owning_service_is_the_top_level_ancestor() {
    let map = fixture();
    let damage = map
        .resolve_instance_path("game.ReplicatedStorage.Shared.Combat.Damage")
        .unwrap();
    assert_eq!(map.service_of(damage), Some("ReplicatedStorage"));
    assert_eq!(map.service_of(map.root()), None);
}

#[test]
fn the_script_file_of_an_instance_skips_non_luau_paths() {
    let map = fixture();
    let combat = map
        .resolve_instance_path("game.ReplicatedStorage.Shared.Combat")
        .unwrap();
    assert_eq!(map.script_file(combat), Some("src/Shared/Combat/init.luau"));

    let shared = map
        .resolve_instance_path("game.ReplicatedStorage.Shared")
        .unwrap();
    assert_eq!(map.script_file(shared), None);
}

#[test]
fn a_translation_goes_one_way_at_a_time() {
    let map = fixture();
    assert!(map.resolve(None, None, 0).is_err());
    assert!(map
        .resolve(Some("game"), Some("src/Shared/init.luau"), 0)
        .is_err());
    assert_eq!(
        map.resolve(None, Some("src/Nowhere.luau"), 0)
            .unwrap_err()
            .message,
        "no instance in the sourcemap is built from src/Nowhere.luau"
    );

    let answer = map
        .resolve(None, Some("src/Shared/Combat/Damage.luau"), 0)
        .unwrap();
    assert_eq!(answer.instances.len(), 1);
    assert_eq!(
        answer.instances[0].instance_path,
        "game.ReplicatedStorage.Shared.Combat.Damage"
    );
    assert_eq!(
        answer.instances[0].service.as_deref(),
        Some("ReplicatedStorage")
    );
    assert_eq!(answer.sourcemap.instances, 7);
    assert_eq!(answer.sourcemap.age_seconds, None);
}

#[test]
fn an_answer_tells_how_old_the_sourcemap_is() {
    let root = RawNode {
        name: "Game".to_string(),
        class_name: "DataModel".to_string(),
        file_paths: Vec::new(),
        children: Vec::new(),
    };
    let stamp = FileStamp {
        modified_nanos: 5_500_000_000,
        len: 10,
    };
    let map = Sourcemap::index(root, "maps/sourcemap.json".to_string(), Some(stamp));
    let reference = map.reference(9_000_000_000);
    assert_eq!(reference.relative_path, "maps/sourcemap.json");
    assert_eq!(reference.modified_epoch_seconds, Some(5));
    assert_eq!(reference.age_seconds, Some(3));
    assert_eq!(map.reference(1_000_000_000).age_seconds, None);
    assert_eq!(map.stamp(), Some(stamp));
}

#[test]
fn the_luau_files_an_instance_names_are_told() {
    assert_eq!(
        fixture().luau_files(),
        vec![
            "src/Shared/Combat/init.luau".to_string(),
            "src/Shared/Combat/Damage.luau".to_string(),
            "src/Server/PlayerService.luau".to_string(),
        ]
    );
}

#[test]
fn every_instance_path_leads_back_to_its_instance() {
    let map = fixture();
    let mut pending = vec![map.root()];
    let mut count = 0;
    while let Some(index) = pending.pop() {
        let node = map.node(index);
        assert_eq!(map.resolve_instance_path(&node.instance_path).unwrap(), index);
        for child in &node.children {
            assert_eq!(map.parent(*child), Some(index));
            pending.push(*child);
        }
        count += 1;
    }
    assert_eq!(count, map.reference(0).instances);
}
