//! Registering Biskit with the agents of a project.
use biskit_mcp::errors::Failure;
use biskit_mcp::json::{parse_json, Json};
use biskit_mcp::setup::{
    configure_client, configure_hooks, detect, holds_biskit_session_start, hook_command,
    server_entry, Client, HooksTarget, Plan, Step, Traces, DEFAULT_COMMAND,
};
use serde_json::Value;

const ROOT: &str = "/project";
const ENABLED_SERVERS_KEY: &str = "enabledMcpjsonServers";

fn plan(clients: Vec<Client>, hooks: Option<HooksTarget>, project_from_cwd: bool) -> Plan {
    Plan {
        clients,
        hooks,
        command: DEFAULT_COMMAND.to_string(),
        project_from_cwd,
        dry_run: false,
    }
}

/// The name the agent goes by.
fn agent() -> String {
    format!("{:?}", Client::Claude)
}

/// The directory the agent keeps its settings in.
fn settings_directory() -> String {
    format!(".{}", agent().to_lowercase())
}

fn hooks_path(target: HooksTarget) -> String {
    target.path(ROOT, &settings_directory())
}

/// The files of a project, by path.
#[derive(Default)]
struct Files {
    held: Vec<(String, String)>,
}

impl Files {
    fn get(&self, path: &str) -> Option<&str> {
        self.held
            .iter()
            .find(|(held, _)| held == path)
            .map(|(_, text)| text.as_str())
    }

    fn put(&mut self, path: &str, text: &str) {
        self.held.retain(|(held, _)| held != path);
        self.held.push((path.to_string(), text.to_string()));
    }

    fn read(&self, path: &str) -> Value {
        serde_json::from_str(self.get(path).expect("the file is there")).unwrap()
    }

    fn run(&mut self, plan: &Plan) -> Result<Vec<Step>, Failure> {
        let mut steps = Vec::new();
        for client in &plan.clients {
            let path = client.config_path(ROOT);
            let (step, text) = configure_client(*client, plan, &path, self.get(&path))?;
            if let Some(text) = text {
                self.put(&path, &text);
            }
            steps.push(step);
        }
        if let Some(target) = plan.hooks {
            let path = hooks_path(target);
            let (step, text) = configure_hooks(plan, &path, self.get(&path))?;
            if let Some(text) = text {
                self.put(&path, &text);
            }
            steps.push(step);
        }
        Ok(steps)
    }
}

fn json(text: &str) -> Value {
    serde_json::from_str(text).unwrap()
}

#[test]
fn creates_mcp_json_for_a_bare_project() {
    let mut files = Files::default();
    let steps = files.run(&plan(vec![Client::Claude], None, false)).unwrap();

    assert!(steps[0].created);
    let document = files.read("/project/.mcp.json");
    assert_eq!(
        document["mcpServers"]["biskit"],
        json(r#"{ "type": "stdio", "command": "biskit-mcp", "args": ["start"] }"#)
    );
}

#[test]
fn project_from_cwd_reaches_every_generated_registration() {
    let mut files = Files::default();
    files
        .run(&plan(Client::all(), Some(HooksTarget::Local), true))
        .unwrap();

    for client in Client::all() {
        let document = files.read(&client.config_path(ROOT));
        assert_eq!(
            document[client.servers_key()]["biskit"]["args"],
            json(r#"["start", "--project-from-cwd"]"#),
            "{} did not receive the flag",
            client.label(&agent())
        );
    }

    let settings = files.read(&hooks_path(HooksTarget::Local));
    assert_eq!(
        settings["hooks"]["SessionStart"][0]["hooks"][0]["command"],
        json("\"biskit-mcp hook session-start --project-from-cwd\"")
    );
}

#[test]
fn vscode_uses_the_servers_key() {
    let mut files = Files::default();
    files.run(&plan(vec![Client::VsCode], None, false)).unwrap();

    let document = files.read("/project/.vscode/mcp.json");
    assert!(document.get("mcpServers").is_none());
    assert!(document["servers"]["biskit"].is_object());
}

#[test]
fn merging_preserves_unrelated_keys_and_their_order() {
    let mut files = Files::default();
    let path = "/project/.mcp.json";
    files.put(
        path,
        r#"{"zebra": 1, "mcpServers": {"other": {"command": "other"}}, "alpha": 2}"#,
    );

    files.run(&plan(vec![Client::Claude], None, false)).unwrap();

    let document = files.read(path);
    let keys: Vec<&String> = document.as_object().unwrap().keys().collect();
    assert_eq!(keys, vec!["zebra", "mcpServers", "alpha"]);
    assert!(document["mcpServers"]["other"].is_object());
    assert!(document["mcpServers"]["biskit"].is_object());
}

#[test]
fn an_existing_registration_is_left_untouched() {
    let mut files = Files::default();
    let path = "/project/.mcp.json";
    files.put(path, r#"{"mcpServers": {"biskit": {"command": "mine"}}}"#);

    let steps = files.run(&plan(vec![Client::Claude], None, true)).unwrap();

    assert!(!steps[0].changed);
    assert_eq!(
        files.read(path)["mcpServers"]["biskit"]["command"],
        json("\"mine\"")
    );
}

#[test]
fn a_second_run_does_not_duplicate_the_hook() {
    let mut files = Files::default();
    let target = Some(HooksTarget::Local);
    files
        .run(&plan(vec![Client::Claude], target, false))
        .unwrap();
    files
        .run(&plan(vec![Client::Claude], target, true))
        .unwrap();

    let settings = files.read(&hooks_path(HooksTarget::Local));
    assert_eq!(
        settings["hooks"]["SessionStart"].as_array().unwrap().len(),
        1
    );
    assert_eq!(
        settings[ENABLED_SERVERS_KEY],
        json(r#"["biskit"]"#),
        "the server was approved twice"
    );
}

#[test]
fn a_second_run_changes_nothing_whatever_the_files_held() {
    let mut files = Files::default();
    let deep = format!("{}1.5e-7{}", "[".repeat(110), "]".repeat(110));
    let held = format!("{{\"half\": 0.1, \"big\": 1e300, \"most\": 1.7976931348623157e308, \"deep\": {deep}}}");
    files.put("/project/.mcp.json", &held);
    files.put(&hooks_path(HooksTarget::Local), &held);
    let plan = plan(Client::all(), Some(HooksTarget::Local), false);

    let first = files.run(&plan).unwrap();
    assert!(first.iter().all(|step| step.changed));
    let before = files.held.clone();

    let second = files.run(&plan).unwrap();
    assert!(second.iter().all(|step| !step.changed && !step.created));
    assert_eq!(files.held, before);
}

#[test]
fn existing_hooks_for_other_tools_survive() {
    let mut files = Files::default();
    let path = hooks_path(HooksTarget::Local);
    files.put(
        &path,
        r#"{"hooks": {"SessionStart": [{"hooks": [{"type": "command", "command": "other"}]}]}}"#,
    );

    files
        .run(&plan(
            vec![Client::Claude],
            Some(HooksTarget::Local),
            false,
        ))
        .unwrap();

    let blocks = files.read(&path)["hooks"]["SessionStart"]
        .as_array()
        .unwrap()
        .len();
    assert_eq!(blocks, 2);
}

#[test]
fn malformed_json_is_refused_rather_than_overwritten() {
    let mut files = Files::default();
    let path = "/project/.mcp.json";
    files.put(path, "{ not json");

    let error = files
        .run(&plan(vec![Client::Claude], None, false))
        .unwrap_err();

    assert!(error.message.contains("refusing to overwrite"));
    assert_eq!(files.get(path), Some("{ not json"));
}

#[test]
fn a_dry_run_writes_nothing() {
    let mut files = Files::default();
    let mut dry = plan(Client::all(), Some(HooksTarget::Local), true);
    dry.dry_run = true;

    let steps = files.run(&dry).unwrap();

    assert!(steps.iter().all(|step| step.changed));
    assert!(files.held.is_empty());
}

#[test]
fn detection_only_reports_clients_that_are_already_set_up() {
    let traces = Traces {
        claude_directory: false,
        cursor_directory: true,
        vscode_directory: false,
    };
    assert_eq!(detect(&traces), vec![Client::Cursor]);
}

#[test]
fn every_directory_that_exists_is_detected_in_order() {
    let traces = Traces {
        claude_directory: true,
        cursor_directory: false,
        vscode_directory: true,
    };
    assert_eq!(detect(&traces), vec![Client::Claude, Client::VsCode]);
}

#[test]
fn a_document_that_is_no_object_is_refused() {
    let mut files = Files::default();
    files.put("/project/.mcp.json", "[1]");
    let error = files
        .run(&plan(vec![Client::Claude], None, false))
        .unwrap_err();
    assert_eq!(
        error.message,
        "/project/.mcp.json does not hold a JSON object; refusing to overwrite it"
    );
}

#[test]
fn servers_that_are_no_object_are_refused() {
    let mut files = Files::default();
    files.put("/project/.mcp.json", r#"{"mcpServers": []}"#);
    assert!(files.run(&plan(vec![Client::Claude], None, false)).is_err());
    assert_eq!(files.get("/project/.mcp.json"), Some(r#"{"mcpServers": []}"#));
}

#[test]
fn an_empty_file_counts_as_one_that_holds_nothing() {
    let mut files = Files::default();
    files.put("/project/.mcp.json", "  \n");
    let steps = files.run(&plan(vec![Client::Claude], None, false)).unwrap();
    assert!(steps[0].changed);
    assert!(files.read("/project/.mcp.json")["mcpServers"]["biskit"].is_object());
}

#[test]
fn a_second_run_leaves_every_file_as_it_is() {
    let mut files = Files::default();
    let both = plan(Client::all(), Some(HooksTarget::Shared), false);
    files.run(&both).unwrap();
    let held = files.held.clone();
    let steps = files.run(&both).unwrap();
    assert!(steps.iter().all(|step| !step.changed));
    assert_eq!(files.held, held);
}

#[test]
fn what_is_written_ends_with_a_line_break() {
    let mut files = Files::default();
    files.run(&plan(vec![Client::Cursor], None, false)).unwrap();
    assert_eq!(
        files.get("/project/.cursor/mcp.json"),
        Some("{\n  \"mcpServers\": {\n    \"biskit\": {\n      \"type\": \"stdio\",\n      \"command\": \"biskit-mcp\",\n      \"args\": [\n        \"start\"\n      ]\n    }\n  }\n}\n")
    );
}

#[test]
fn names_and_paths_are_those_the_clients_use() {
    assert_eq!(Client::VsCode.label("x"), "VS Code");
    assert_eq!(Client::Cursor.label("x"), "Cursor");
    assert_eq!(Client::Claude.label("x"), "x Code");
    assert_eq!(Client::Claude.servers_key(), "mcpServers");
    assert_eq!(Client::VsCode.servers_key(), "servers");
    assert_eq!(
        HooksTarget::Shared.path(ROOT, ".agent"),
        "/project/.agent/settings.json"
    );
    assert_eq!(
        HooksTarget::Local.path(ROOT, ".agent"),
        "/project/.agent/settings.local.json"
    );
    assert_eq!(hook_command("biskit-mcp", false), "biskit-mcp hook session-start");
    let entry = server_entry("other", false);
    assert_eq!(entry.get("command").and_then(Json::as_text), Some("other"));
}

#[test]
fn a_block_is_told_by_the_command_it_runs() {
    let ours = parse_json(
        r#"{"hooks": [{"type": "command", "command": "biskit-mcp hook session-start"}]}"#,
    )
    .unwrap();
    let other = parse_json(r#"{"hooks": [{"type": "command", "command": "other"}]}"#).unwrap();
    assert!(holds_biskit_session_start(&ours));
    assert!(!holds_biskit_session_start(&other));
}
