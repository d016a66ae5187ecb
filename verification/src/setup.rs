//! Registering Biskit with the agents of a project, without disturbing what is there.
use vstd::prelude::*;
use crate::errors::{bare_failure, caused, caused_failure, unhinted, Failure, FailureModel};
use crate::json::{
    all_keys_differ, all_keys_differ_means, copy_json, deepest, document_in,
    is_alike, is_nested_within, json_model, keys_differ, list_model, list_model_items, member,
    member_keys_differ, member_keys_differ_means, member_position, member_position_is_first,
    members_model, members_model_items, parsed_value, read_json, value_model, position_of, pretty_text, print_json,
    reads_back, Json, JsonModel,
};
use crate::paths::{join_path, joined_path};
use crate::text::{
    contains_text, find_from_is_first, holds, is_white_space, occurs_at, owned, same_text, to_chars,
    trim, trimmed, white_space,
};

verus! {

/// The name Biskit is registered under.
pub const SERVER_NAME: &'static str = "biskit";

/// The command that starts Biskit.
pub const DEFAULT_COMMAND: &'static str = "biskit-mcp";

/// Agent configuration file that can hold an MCP server registration.
#[derive(Copy, Clone, Debug, PartialEq, Eq, Structural)]
pub enum Client {
    /// `.mcp.json` at the project root.
    Claude,
    /// `.cursor/mcp.json`.
    Cursor,
    /// `.vscode/mcp.json`.
    VsCode,
}

/// Which of the agent's settings files the SessionStart hook is written to.
#[derive(Copy, Clone, Debug, PartialEq, Eq, Structural)]
pub enum HooksTarget {
    /// `settings.local.json`, personal and normally gitignored.
    Local,
    /// `settings.json`, shared with everyone who clones the repository.
    Shared,
}

/// What is to be set up.
#[derive(Debug)]
pub struct Plan {
    pub clients: Vec<Client>,
    pub hooks: Option<HooksTarget>,
    pub command: String,
    pub project_from_cwd: bool,
    pub dry_run: bool,
}

/// What was done to one file.
#[derive(Debug)]
pub struct Step {
    pub path: String,
    pub created: bool,
    pub changed: bool,
    pub notes: Vec<String>,
}

/// Which configuration directories stand in a project.
#[derive(Copy, Clone, Debug)]
pub struct Traces {
    pub claude_directory: bool,
    pub cursor_directory: bool,
    pub vscode_directory: bool,
}

/// The clients, in the order they are listed.
pub open spec fn all_clients() -> Seq<Client> {
    seq![Client::Claude, Client::Cursor, Client::VsCode]
}

/// Where a client keeps its registrations, below the root of a project.
pub open spec fn config_file(client: Client) -> Seq<char> {
    match client {
        Client::Claude => ".mcp.json"@,
        Client::Cursor => ".cursor/mcp.json"@,
        Client::VsCode => ".vscode/mcp.json"@,
    }
}

/// The key a client keeps its registrations under.
pub open spec fn servers_key_of(client: Client) -> Seq<char> {
    match client {
        Client::Claude => "mcpServers"@,
        Client::Cursor => "mcpServers"@,
        Client::VsCode => "servers"@,
    }
}

/// Whether the configuration directory of a client stands in a project.
pub open spec fn is_present_in(client: Client, traces: Traces) -> bool {
    match client {
        Client::Claude => traces.claude_directory,
        Client::Cursor => traces.cursor_directory,
        Client::VsCode => traces.vscode_directory,
    }
}

/// Those of the first `n` clients whose configuration directory stands in a project, in the order
/// they are listed.
pub open spec fn present_clients(traces: Traces, n: int) -> Seq<Client>
    decreases n,
{
    if n <= 0 {
        Seq::empty()
    } else if is_present_in(all_clients()[n - 1], traces) {
        present_clients(traces, n - 1).push(all_clients()[n - 1])
    } else {
        present_clients(traces, n - 1)
    }
}

/// The file below the agent's settings directory that a hook is written to.
pub open spec fn hooks_file(target: HooksTarget) -> Seq<char> {
    match target {
        HooksTarget::Local => "settings.local.json"@,
        HooksTarget::Shared => "settings.json"@,
    }
}

impl Client {
    /// The clients, in the order they are listed.
    pub fn all() -> (r: Vec<Client>)
        ensures
            r@ == all_clients(),
    {
        let r = vec![Client::Claude, Client::Cursor, Client::VsCode];
        assert(r@ =~= all_clients());
        r
    }

    /// Where this client keeps its registrations.
    pub fn config_path(self, root: &str) -> (r: String)
        ensures
            r@ == joined_path(root@, config_file(self)),
    {
        match self {
            Client::Claude => join_path(root, ".mcp.json"),
            Client::Cursor => join_path(root, ".cursor/mcp.json"),
            Client::VsCode => join_path(root, ".vscode/mcp.json"),
        }
    }

    /// VS Code names the map `servers`; everything else uses `mcpServers`.
    pub fn servers_key(self) -> (r: &'static str)
        ensures
            r@ == servers_key_of(self),
    {
        match self {
            Client::Claude => "mcpServers",
            Client::Cursor => "mcpServers",
            Client::VsCode => "servers",
        }
    }

    /// What this client is called. Anthropic's is `agent` with " Code" behind it.
    pub fn label(self, agent: &str) -> (r: String)
        ensures
            r@ == (match self {
                Client::Claude => agent@ + " Code"@,
                Client::Cursor => "Cursor"@,
                Client::VsCode => "VS Code"@,
            }),
    {
        match self {
            Client::Claude => {
                let mut r = agent.to_owned();
                r.append(" Code");
                r
            },
            Client::Cursor => "Cursor".to_owned(),
            Client::VsCode => "VS Code".to_owned(),
        }
    }

    /// Whether the configuration directory of this client stands in the project.
    pub fn is_present(self, traces: &Traces) -> (b: bool)
        ensures
            b == is_present_in(self, *traces),
    {
        match self {
            Client::Claude => traces.claude_directory,
            Client::Cursor => traces.cursor_directory,
            Client::VsCode => traces.vscode_directory,
        }
    }
}

impl HooksTarget {
    /// Where the hook is written, given the name of the agent's settings directory.
    pub fn path(self, root: &str, settings_directory: &str) -> (r: String)
        ensures
            r@ == joined_path(joined_path(root@, settings_directory@), hooks_file(self)),
    {
        let directory = join_path(root, settings_directory);
        match self {
            HooksTarget::Local => join_path(directory.as_str(), "settings.local.json"),
            HooksTarget::Shared => join_path(directory.as_str(), "settings.json"),
        }
    }
}

/// Clients whose configuration directory already exists in a project.
pub fn detect(traces: &Traces) -> (r: Vec<Client>)
    ensures
        r@ == present_clients(*traces, 3),
{
    let clients = Client::all();
    let mut found: Vec<Client> = Vec::new();
    let mut i: usize = 0;
    while i < clients.len()
        invariant
            i <= clients@.len(),
            clients@ == all_clients(),
            found@ == present_clients(*traces, i as int),
        decreases clients@.len() - i,
    {
        if clients[i].is_present(traces) {
            found.push(clients[i]);
        }
        i = i + 1;
    }
    found
}

// ---------------------------------------------------------------------------
// What is written

/// The registration of Biskit.
pub open spec fn server_entry_model(command: Seq<char>, project_from_cwd: bool) -> JsonModel {
    JsonModel::Object(
        seq![
            ("type"@, JsonModel::Text("stdio"@)),
            ("command"@, JsonModel::Text(command)),
            (
                "args"@,
                JsonModel::List(
                    if project_from_cwd {
                        seq![JsonModel::Text("start"@), JsonModel::Text("--project-from-cwd"@)]
                    } else {
                        seq![JsonModel::Text("start"@)]
                    },
                ),
            ),
        ],
    )
}

/// Whether a text holds white space.
pub open spec fn holds_white_space(s: Seq<char>) -> bool {
    exists|i: int| 0 <= i < s.len() && is_white_space(#[trigger] s[i])
}

/// The command of the hook. A command with white space in it is quoted.
pub open spec fn hook_command_of(command: Seq<char>, project_from_cwd: bool) -> Seq<char> {
    (if holds_white_space(command) {
        "\""@ + command + "\""@
    } else {
        command
    }) + " hook session-start"@ + (if project_from_cwd {
        " --project-from-cwd"@
    } else {
        ""@
    })
}

/// The hook.
pub open spec fn hook_block(command: Seq<char>) -> JsonModel {
    JsonModel::Object(
        seq![
            (
                "hooks"@,
                JsonModel::List(
                    seq![
                        JsonModel::Object(
                            seq![
                                ("type"@, JsonModel::Text("command"@)),
                                ("command"@, JsonModel::Text(command)),
                            ],
                        ),
                    ],
                ),
            ),
        ],
    )
}

/// Whether an entry of a hook runs Biskit's session start.
pub open spec fn runs_session_start(entry: JsonModel) -> bool {
    match member(entry, "command"@) {
        Some(JsonModel::Text(command)) => holds(command, "biskit-mcp"@) && holds(
            command,
            "hook session-start"@,
        ),
        _ => false,
    }
}

/// Whether any of some entries runs Biskit's session start.
pub open spec fn any_runs_session_start(entries: Seq<JsonModel>) -> bool {
    exists|i: int| 0 <= i < entries.len() && runs_session_start(#[trigger] entries[i])
}

/// Whether a hook is Biskit's session start, whatever flags it was written with.
pub open spec fn is_session_start(block: JsonModel) -> bool {
    match member(block, "hooks"@) {
        Some(JsonModel::List(entries)) => any_runs_session_start(entries),
        _ => false,
    }
}

/// Whether any of some hooks is Biskit's session start.
pub open spec fn holds_session_start(blocks: Seq<JsonModel>) -> bool {
    exists|i: int| 0 <= i < blocks.len() && is_session_start(#[trigger] blocks[i])
}

/// Writes the registration of Biskit.
pub fn server_entry(command: &str, project_from_cwd: bool) -> (r: Json)
    ensures
        r.deep_view() == server_entry_model(command@, project_from_cwd),
        keys_differ(r.deep_view()),
{
    let mut args: Vec<Json> = vec![Json::Text(owned("start"))];
    if project_from_cwd {
        args.push(Json::Text(owned("--project-from-cwd")));
    }
    let ghost given = args@;
    let members: Vec<(String, Json)> = vec![
        (owned("type"), Json::Text(owned("stdio"))),
        (owned("command"), Json::Text(owned(command))),
        (owned("args"), Json::List(args)),
    ];
    proof {
        list_model_items(given);
        members_model_items(members@);
        let model = server_entry_model(command@, project_from_cwd);
        assert(list_model(given) =~= (if project_from_cwd {
            seq![JsonModel::Text("start"@), JsonModel::Text("--project-from-cwd"@)]
        } else {
            seq![JsonModel::Text("start"@)]
        }));
        assert(members_model(members@) =~= model->Object_0);
        entry_keys_differ(command@, project_from_cwd);
    }
    Json::Object(members)
}

proof fn texts_differ(list: Seq<JsonModel>)
    requires
        forall|i: int| 0 <= i < list.len() ==> #[trigger] list[i] is Text,
    ensures
        all_keys_differ(list),
    decreases list.len(),
{
    if list.len() > 0 {
        let rest = list.skip(1);
        assert forall|i: int| 0 <= i < rest.len() implies #[trigger] rest[i] is Text by {
            assert(rest[i] == list[i + 1]);
        }
        texts_differ(rest);
        assert(keys_differ(list[0]));
    }
}

proof fn entry_keys_differ(command: Seq<char>, project_from_cwd: bool)
    ensures
        keys_differ(server_entry_model(command, project_from_cwd)),
{
    reveal_strlit("type");
    reveal_strlit("command");
    reveal_strlit("args");
    let members = server_entry_model(command, project_from_cwd)->Object_0;
    let args = members[2].1->List_0;
    texts_differ(args);
    assert(keys_differ(members[0].1));
    assert(keys_differ(members[1].1));
    assert(keys_differ(members[2].1));
    let one = members.skip(1);
    let two = one.skip(1);
    let three = two.skip(1);
    assert("type"@.len() == 4 && "command"@.len() == 7);
    assert("type"@[0] == 't' && "args"@[0] == 'a');
    assert(three.len() == 0);
    assert(two[0] == members[2] && one[0] == members[1] && one[1] == members[2]);
    assert(member_keys_differ(three));
    assert(member_position(three, two[0].0, 0) is None);
    assert(member_keys_differ(two));
    assert(member_position(two, one[0].0, 1) is None);
    assert(member_position(two, one[0].0, 0) is None);
    assert(member_keys_differ(one));
    assert(member_position(one, members[0].0, 2) is None);
    assert(member_position(one, members[0].0, 1) is None);
    assert(member_position(one, members[0].0, 0) is None);
    assert(member_keys_differ(members));
}

/// Writes the command of the hook.
pub fn hook_command(command: &str, project_from_cwd: bool) -> (r: String)
    ensures
        r@ == hook_command_of(command@, project_from_cwd),
{
    let chars = to_chars(command);
    let mut spaced = false;
    let mut i: usize = 0;
    while i < chars.len()
        invariant
            i <= chars@.len(),
            chars@ == command@,
            spaced == (exists|k: int| 0 <= k < i && is_white_space(#[trigger] command@[k])),
        decreases chars@.len() - i,
    {
        assert(chars@[i as int] == command@[i as int]);
        if white_space(chars[i]) {
            spaced = true;
        }
        i = i + 1;
    }
    let mut r = if spaced {
        let mut quoted = owned("\"");
        quoted.append(command);
        quoted.append("\"");
        quoted
    } else {
        owned(command)
    };
    r.append(" hook session-start");
    if project_from_cwd {
        r.append(" --project-from-cwd");
    } else {
        r.append("");
    }
    r
}

fn hook_json(command: String) -> (r: Json)
    ensures
        r.deep_view() == hook_block(command@),
        keys_differ(r.deep_view()),
{
    let ghost said = command@;
    let inner: Vec<(String, Json)> = vec![
        (owned("type"), Json::Text(owned("command"))),
        (owned("command"), Json::Text(command)),
    ];
    let ghost inner_members = inner@;
    let list: Vec<Json> = vec![Json::Object(inner)];
    let ghost given = list@;
    let outer: Vec<(String, Json)> = vec![(owned("hooks"), Json::List(list))];
    proof {
        members_model_items(inner_members);
        list_model_items(given);
        members_model_items(outer@);
        let block = hook_block(said)->Object_0;
        let entries = block[0].1->List_0;
        assert(members_model(inner_members) =~= entries[0]->Object_0);
        assert(list_model(given) =~= entries);
        assert(members_model(outer@) =~= block);
        block_keys_differ(said);
    }
    Json::Object(outer)
}

proof fn block_keys_differ(command: Seq<char>)
    ensures
        keys_differ(hook_block(command)),
{
    reveal_strlit("type");
    reveal_strlit("command");
    assert("type"@.len() == 4 && "command"@.len() == 7);
    let block = hook_block(command)->Object_0;
    let entries = block[0].1->List_0;
    let members = entries[0]->Object_0;
    let one = members.skip(1);
    let two = one.skip(1);
    assert(keys_differ(members[0].1));
    assert(keys_differ(members[1].1));
    assert(two.len() == 0 && one[0] == members[1]);
    assert(member_keys_differ(two));
    assert(member_position(two, one[0].0, 0) is None);
    assert(member_keys_differ(one));
    assert(member_position(one, members[0].0, 1) is None);
    assert(member_position(one, members[0].0, 0) is None);
    assert(member_keys_differ(members));
    assert(keys_differ(entries[0]));
    assert(entries.skip(1).len() == 0);
    assert(all_keys_differ(entries.skip(1)));
    assert(all_keys_differ(entries));
    assert(keys_differ(block[0].1));
    assert(block.skip(1).len() == 0);
    assert(member_keys_differ(block.skip(1)));
    assert(member_position(block.skip(1), block[0].0, 0) is None);
    assert(member_keys_differ(block));
}

// ---------------------------------------------------------------------------
// Documents

/// The members of an object once it has a key.
pub open spec fn ensured(
    members: Seq<(Seq<char>, JsonModel)>,
    key: Seq<char>,
    value: JsonModel,
) -> Seq<(Seq<char>, JsonModel)> {
    if member_position(members, key, 0) is Some {
        members
    } else {
        members.push((key, value))
    }
}

/// What an object holds under a key that it has.
pub open spec fn held_at(members: Seq<(Seq<char>, JsonModel)>, key: Seq<char>) -> JsonModel {
    members[member_position(members, key, 0)->0].1
}

/// The members of an object once it holds something else under a key that it has.
pub open spec fn with_held(
    members: Seq<(Seq<char>, JsonModel)>,
    key: Seq<char>,
    value: JsonModel,
) -> Seq<(Seq<char>, JsonModel)> {
    members.update(member_position(members, key, 0)->0, (key, value))
}

/// A configuration once Biskit is registered in it, and whether that changed it. Nothing is made of
/// one whose registrations are no object.
pub open spec fn registered(
    members: Seq<(Seq<char>, JsonModel)>,
    key: Seq<char>,
    entry: JsonModel,
) -> Option<(Seq<(Seq<char>, JsonModel)>, bool)> {
    let ready = ensured(members, key, JsonModel::Object(Seq::empty()));
    match held_at(ready, key) {
        JsonModel::Object(servers) => if member_position(servers, "biskit"@, 0) is Some {
            Some((ready, false))
        } else {
            Some(
                (
                    with_held(ready, key, JsonModel::Object(servers.push(("biskit"@, entry)))),
                    true,
                ),
            )
        },
        _ => None,
    }
}

/// Hooks once Biskit's session start is among them, and whether that changed them. Nothing is made
/// of hooks whose session starts are no list.
pub open spec fn hooked(hooks: Seq<(Seq<char>, JsonModel)>, block: JsonModel) -> Option<
    (Seq<(Seq<char>, JsonModel)>, bool),
> {
    let ready = ensured(hooks, "SessionStart"@, JsonModel::List(Seq::empty()));
    match held_at(ready, "SessionStart"@) {
        JsonModel::List(blocks) => if holds_session_start(blocks) {
            Some((ready, false))
        } else {
            Some((with_held(ready, "SessionStart"@, JsonModel::List(blocks.push(block))), true))
        },
        _ => None,
    }
}

/// Settings once Biskit is among the approved servers, and whether that changed them. Nothing is
/// made of settings whose approved servers are no list.
pub open spec fn approved(members: Seq<(Seq<char>, JsonModel)>) -> Option<
    (Seq<(Seq<char>, JsonModel)>, bool),
> {
    let ready = ensured(members, "enabledMcpjsonServers"@, JsonModel::List(Seq::empty()));
    match held_at(ready, "enabledMcpjsonServers"@) {
        JsonModel::List(enabled) => if enabled.contains(JsonModel::Text("biskit"@)) {
            Some((ready, false))
        } else {
            Some(
                (
                    with_held(
                        ready,
                        "enabledMcpjsonServers"@,
                        JsonModel::List(enabled.push(JsonModel::Text("biskit"@))),
                    ),
                    true,
                ),
            )
        },
        _ => None,
    }
}

fn ensure_member(document: &mut Vec<(String, Json)>, key: &str, value: Json) -> (at: usize)
    requires
        member_keys_differ(members_model(old(document)@)),
        keys_differ(value.deep_view()),
    ensures
        members_model(final(document)@) == ensured(
            members_model(old(document)@),
            key@,
            value.deep_view(),
        ),
        member_keys_differ(members_model(final(document)@)),
        member_position(members_model(final(document)@), key@, 0) == Some(at as int),
        at < final(document)@.len(),
{
    let ghost before = members_model(document@);
    proof {
        members_model_items(document@);
        member_position_is_first(before, key@, 0);
    }
    match position_of(document, key) {
        Some(at) => at,
        None => {
            let at: usize = document.len();
            let ghost said = value.deep_view();
            document.push((owned(key), value));
            proof {
                let after = members_model(document@);
                members_model_items(document@);
                assert(after =~= before.push((key@, said)));
                member_position_is_first(after, key@, 0);
                assert(after[at as int].0 == key@);
                let found = member_position(after, key@, 0)->0;
                if found < at {
                    assert(before[found].0 == key@);
                }
                member_keys_differ_means(before);
                member_keys_differ_means(after);
            }
            at
        },
    }
}

proof fn replacing_keeps_keys_apart(
    members: Seq<(Seq<char>, JsonModel)>,
    key: Seq<char>,
    value: JsonModel,
)
    requires
        member_keys_differ(members),
        member_position(members, key, 0) is Some,
        keys_differ(value),
    ensures
        member_keys_differ(with_held(members, key, value)),
        member_position(with_held(members, key, value), key, 0) == member_position(members, key, 0),
        held_at(with_held(members, key, value), key) == value,
{
    let after = with_held(members, key, value);
    member_position_is_first(members, key, 0);
    member_position_is_first(after, key, 0);
    member_keys_differ_means(members);
    member_keys_differ_means(after);
    let at = member_position(members, key, 0)->0;
    assert forall|i: int, j: int| 0 <= i < j < after.len() implies (#[trigger] after[i]).0 != (
    #[trigger] after[j]).0 by {
        assert(members[i].0 == after[i].0);
        assert(members[j].0 == after[j].0);
    }
    assert forall|i: int| 0 <= i < after.len() implies keys_differ((#[trigger] after[i]).1) by {
        if i != at {
            assert(after[i] == members[i]);
        }
    }
    assert(after[at].0 == key);
    let found = member_position(after, key, 0)->0;
    if found != at {
        assert(after[found].0 == members[found].0);
        assert(found < at);
        assert(members[found].0 == key);
    }
}

proof fn held_keys_differ(members: Seq<(Seq<char>, JsonModel)>, key: Seq<char>)
    requires
        member_keys_differ(members),
        member_position(members, key, 0) is Some,
    ensures
        keys_differ(held_at(members, key)),
{
    member_position_is_first(members, key, 0);
    member_keys_differ_means(members);
}

fn replace_member(document: &mut Vec<(String, Json)>, at: usize, key: &str, value: Json)
    requires
        at < old(document)@.len(),
        member_keys_differ(members_model(old(document)@)),
        member_position(members_model(old(document)@), key@, 0) == Some(at as int),
        keys_differ(value.deep_view()),
    ensures
        members_model(final(document)@) == with_held(
            members_model(old(document)@),
            key@,
            value.deep_view(),
        ),
        member_keys_differ(members_model(final(document)@)),
{
    let ghost before = members_model(document@);
    let ghost said = value.deep_view();
    proof {
        members_model_items(document@);
        replacing_keeps_keys_apart(before, key@, said);
    }
    document[at] = (owned(key), value);
    proof {
        members_model_items(document@);
        assert(members_model(document@) =~= before.update(at as int, (key@, said)));
    }
}

fn copy_members(members: &Vec<(String, Json)>) -> (r: Vec<(String, Json)>)
    ensures
        members_model(r@) == members_model(members@),
{
    let mut r: Vec<(String, Json)> = Vec::new();
    let mut i: usize = 0;
    while i < members.len()
        invariant
            i <= members@.len(),
            r@.len() == i,
            forall|k: int|
                0 <= k < i ==> (#[trigger] r@[k]).0@ == members@[k].0@ && json_model(r@[k].1)
                    == json_model(members@[k].1),
        decreases members@.len() - i,
    {
        r.push((members[i].0.clone(), copy_json(&members[i].1)));
        i = i + 1;
    }
    proof {
        members_model_items(members@);
        members_model_items(r@);
        assert(members_model(r@) =~= members_model(members@));
    }
    r
}

fn copy_list(list: &Vec<Json>) -> (r: Vec<Json>)
    ensures
        list_model(r@) == list_model(list@),
{
    let mut r: Vec<Json> = Vec::new();
    let mut i: usize = 0;
    while i < list.len()
        invariant
            i <= list@.len(),
            r@.len() == i,
            forall|k: int| 0 <= k < i ==> json_model(#[trigger] r@[k]) == json_model(list@[k]),
        decreases list@.len() - i,
    {
        r.push(copy_json(&list[i]));
        i = i + 1;
    }
    proof {
        list_model_items(list@);
        list_model_items(r@);
        assert(list_model(r@) =~= list_model(list@));
    }
    r
}

fn register(document: &mut Vec<(String, Json)>, key: &str, entry: Json) -> (r: Option<bool>)
    requires
        member_keys_differ(members_model(old(document)@)),
        keys_differ(entry.deep_view()),
    ensures
        member_keys_differ(members_model(final(document)@)),
        match r {
            Some(changed) => registered(members_model(old(document)@), key@, entry.deep_view())
                == Some((members_model(final(document)@), changed)),
            None => registered(members_model(old(document)@), key@, entry.deep_view()) is None,
        },
{
    let nothing: Vec<(String, Json)> = Vec::new();
    assert(members_model(nothing@) =~= Seq::empty());
    let at = ensure_member(document, key, Json::Object(nothing));
    let ghost ready = members_model(document@);
    proof {
        members_model_items(document@);
        held_keys_differ(ready, key@);
    }
    let mut servers = match &document[at].1 {
        Json::Object(servers) => copy_members(servers),
        _ => {
            return None;
        },
    };
    let ghost had = members_model(servers@);
    proof {
        members_model_items(servers@);
        member_position_is_first(had, "biskit"@, 0);
    }
    if position_of(&servers, "biskit").is_some() {
        return Some(false);
    }
    let ghost said = entry.deep_view();
    servers.push((owned("biskit"), entry));
    proof {
        let now = members_model(servers@);
        members_model_items(servers@);
        assert(now =~= had.push(("biskit"@, said)));
        member_keys_differ_means(had);
        member_keys_differ_means(now);
    }
    replace_member(document, at, key, Json::Object(servers));
    Some(true)
}

fn runs_start(entry: &Json) -> (b: bool)
    ensures
        b == runs_session_start(entry.deep_view()),
{
    match entry.get("command") {
        Some(held) => match held.as_text() {
            Some(command) => contains_text(command, "biskit-mcp") && contains_text(
                command,
                "hook session-start",
            ),
            None => false,
        },
        None => false,
    }
}

/// Matches any Biskit session-start hook, so re-running with different flags never duplicates it.
pub fn holds_biskit_session_start(block: &Json) -> (b: bool)
    ensures
        b == is_session_start(block.deep_view()),
{
    match block.get("hooks") {
        Some(Json::List(entries)) => {
            let ghost model = list_model(entries@);
            proof {
                list_model_items(entries@);
            }
            let mut i: usize = 0;
            while i < entries.len()
                invariant
                    i <= entries@.len(),
                    model == list_model(entries@),
                    model.len() == entries@.len(),
                    forall|k: int|
                        0 <= k < entries@.len() ==> #[trigger] model[k] == json_model(entries@[k]),
                    forall|k: int| 0 <= k < i ==> !runs_session_start(#[trigger] model[k]),
                    member(block.deep_view(), "hooks"@) == Some(JsonModel::List(model)),
                decreases entries@.len() - i,
            {
                assert(model[i as int] == json_model(entries@[i as int]));
                if runs_start(&entries[i]) {
                    assert(runs_session_start(model[i as int]));
                    assert(any_runs_session_start(model));
                    return true;
                }
                i = i + 1;
            }
            false
        },
        _ => false,
    }
}

fn any_session_start(blocks: &Vec<Json>) -> (b: bool)
    ensures
        b == holds_session_start(list_model(blocks@)),
{
    let ghost model = list_model(blocks@);
    proof {
        list_model_items(blocks@);
    }
    let mut i: usize = 0;
    while i < blocks.len()
        invariant
            i <= blocks@.len(),
            model == list_model(blocks@),
            model.len() == blocks@.len(),
            forall|k: int| 0 <= k < blocks@.len() ==> #[trigger] model[k] == json_model(blocks@[k]),
            forall|k: int| 0 <= k < i ==> !is_session_start(#[trigger] model[k]),
        decreases blocks@.len() - i,
    {
        assert(model[i as int] == json_model(blocks@[i as int]));
        if holds_biskit_session_start(&blocks[i]) {
            return true;
        }
        i = i + 1;
    }
    false
}

fn push_to_list(
    document: &mut Vec<(String, Json)>,
    at: usize,
    key: &str,
    list: Vec<Json>,
    value: Json,
)
    requires
        at < old(document)@.len(),
        member_keys_differ(members_model(old(document)@)),
        member_position(members_model(old(document)@), key@, 0) == Some(at as int),
        held_at(members_model(old(document)@), key@) == JsonModel::List(list_model(list@)),
        keys_differ(value.deep_view()),
    ensures
        members_model(final(document)@) == with_held(
            members_model(old(document)@),
            key@,
            JsonModel::List(list_model(list@).push(value.deep_view())),
        ),
        member_keys_differ(members_model(final(document)@)),
{
    let ghost had = list_model(list@);
    let ghost said = value.deep_view();
    proof {
        held_keys_differ(members_model(document@), key@);
        list_model_items(list@);
    }
    let mut longer = list;
    longer.push(value);
    proof {
        list_model_items(longer@);
        let now = list_model(longer@);
        assert(now =~= had.push(said));
        all_keys_differ_means(had);
        all_keys_differ_means(now);
        assert forall|i: int| 0 <= i < now.len() implies keys_differ(#[trigger] now[i]) by {
            if i < had.len() {
                assert(now[i] == had[i]);
            }
        }
    }
    replace_member(document, at, key, Json::List(longer));
}

fn hook(hooks: &mut Vec<(String, Json)>, block: Json) -> (r: Option<bool>)
    requires
        member_keys_differ(members_model(old(hooks)@)),
        keys_differ(block.deep_view()),
    ensures
        member_keys_differ(members_model(final(hooks)@)),
        match r {
            Some(changed) => hooked(members_model(old(hooks)@), block.deep_view()) == Some(
                (members_model(final(hooks)@), changed),
            ),
            None => hooked(members_model(old(hooks)@), block.deep_view()) is None,
        },
{
    let nothing: Vec<Json> = Vec::new();
    assert(list_model(nothing@) =~= Seq::empty());
    let at = ensure_member(hooks, "SessionStart", Json::List(nothing));
    proof {
        members_model_items(hooks@);
    }
    let blocks = match &hooks[at].1 {
        Json::List(blocks) => copy_list(blocks),
        _ => {
            return None;
        },
    };
    if any_session_start(&blocks) {
        return Some(false);
    }
    push_to_list(hooks, at, "SessionStart", blocks, block);
    Some(true)
}

fn lists_biskit(enabled: &Vec<Json>) -> (b: bool)
    ensures
        b == list_model(enabled@).contains(JsonModel::Text("biskit"@)),
{
    let ghost model = list_model(enabled@);
    proof {
        list_model_items(enabled@);
    }
    let mut i: usize = 0;
    while i < enabled.len()
        invariant
            i <= enabled@.len(),
            model == list_model(enabled@),
            model.len() == enabled@.len(),
            forall|k: int|
                0 <= k < enabled@.len() ==> #[trigger] model[k] == json_model(enabled@[k]),
            forall|k: int| 0 <= k < i ==> #[trigger] model[k] != JsonModel::Text("biskit"@),
        decreases enabled@.len() - i,
    {
        assert(model[i as int] == json_model(enabled@[i as int]));
        if let Some(name) = enabled[i].as_text() {
            if same_text(name, "biskit") {
                return true;
            }
        }
        i = i + 1;
    }
    false
}

fn approve(document: &mut Vec<(String, Json)>) -> (r: Option<bool>)
    requires
        member_keys_differ(members_model(old(document)@)),
    ensures
        member_keys_differ(members_model(final(document)@)),
        match r {
            Some(changed) => approved(members_model(old(document)@)) == Some(
                (members_model(final(document)@), changed),
            ),
            None => approved(members_model(old(document)@)) is None,
        },
{
    let nothing: Vec<Json> = Vec::new();
    assert(list_model(nothing@) =~= Seq::empty());
    let at = ensure_member(document, "enabledMcpjsonServers", Json::List(nothing));
    proof {
        members_model_items(document@);
    }
    let enabled = match &document[at].1 {
        Json::List(enabled) => copy_list(enabled),
        _ => {
            return None;
        },
    };
    if lists_biskit(&enabled) {
        return Some(false);
    }
    push_to_list(document, at, "enabledMcpjsonServers", enabled, Json::Text(owned("biskit")));
    Some(true)
}

// ---------------------------------------------------------------------------
// Steps

/// What was done to one file, as contracts write it.
pub struct StepModel {
    pub path: Seq<char>,
    pub created: bool,
    pub changed: bool,
    pub notes: Seq<Seq<char>>,
}

impl DeepView for Step {
    type V = StepModel;

    open spec fn deep_view(&self) -> StepModel {
        StepModel {
            path: self.path@,
            created: self.created,
            changed: self.changed,
            notes: self.notes.deep_view(),
        }
    }
}

/// The object a file holds, where there is a file. A file that says nothing holds an empty object;
/// one that holds anything else is refused.
pub open spec fn object_in(path: Seq<char>, text: Option<Seq<char>>) -> Result<
    Option<Seq<(Seq<char>, JsonModel)>>,
    FailureModel,
> {
    match text {
        None => Ok(None),
        Some(raw) => if trimmed(raw).len() == 0 {
            Ok(Some(Seq::empty()))
        } else {
            match parsed_value(raw) {
                Err(problem) => Err(
                    caused_failure(
                        path + " is not valid JSON; refusing to overwrite it"@,
                        problem,
                    ),
                ),
                Ok(value) => match value_model(value) {
                    JsonModel::Object(members) => Ok(Some(members)),
                    _ => Err(
                        bare_failure(
                            path + " does not hold a JSON object; refusing to overwrite it"@,
                        ),
                    ),
                },
            }
        },
    }
}

/// Reads the object a file holds.
fn load_object(path: &str, text: Option<&str>) -> (r: Result<Option<Vec<(String, Json)>>, Failure>)
    ensures
        match r {
            Ok(None) => object_in(path@, text.deep_view()) == Ok::<
                Option<Seq<(Seq<char>, JsonModel)>>,
                FailureModel,
            >(None),
            Ok(Some(members)) => object_in(path@, text.deep_view()) == Ok::<
                Option<Seq<(Seq<char>, JsonModel)>>,
                FailureModel,
            >(Some(members_model(members@))) && member_keys_differ(members_model(members@))
                && is_nested_within(JsonModel::Object(members_model(members@)), deepest()),
            Err(failure) => object_in(path@, text.deep_view()) == Err::<
                Option<Seq<(Seq<char>, JsonModel)>>,
                FailureModel,
            >(failure.deep_view()),
        },
{
    let raw = match text {
        Some(raw) => raw,
        None => {
            return Ok(None);
        },
    };
    if trim(raw).is_empty() {
        let nothing: Vec<(String, Json)> = Vec::new();
        assert(members_model(nothing@) =~= Seq::empty());
        return Ok(Some(nothing));
    }
    match read_json(raw) {
        Err(problem) => {
            let mut message = owned(path);
            message.append(" is not valid JSON; refusing to overwrite it");
            Err(caused(message, problem))
        },
        Ok(Json::Object(members)) => Ok(Some(members)),
        Ok(_) => {
            let mut message = owned(path);
            message.append(" does not hold a JSON object; refusing to overwrite it");
            Err(unhinted(message))
        },
    }
}

/// The members an existing file starts from, or none where there is no file.
pub open spec fn members_of(existing: Option<Seq<(Seq<char>, JsonModel)>>) -> Seq<
    (Seq<char>, JsonModel),
> {
    match existing {
        Some(members) => members,
        None => Seq::empty(),
    }
}

/// What a step comes to: what was done, and the text to write where anything is to be written.
pub open spec fn step_result(
    path: Seq<char>,
    created: bool,
    changed: bool,
    notes: Seq<Seq<char>>,
    members: Seq<(Seq<char>, JsonModel)>,
    dry_run: bool,
) -> Result<(StepModel, Option<Seq<char>>), FailureModel> {
    let step = StepModel { path, created: created && changed, changed, notes };
    if changed && !dry_run {
        match pretty_text(JsonModel::Object(members)) {
            Some(text) => Ok((step, Some(text.push('\n')))),
            None => Err(bare_failure("could not write "@ + path)),
        }
    } else {
        Ok((step, None))
    }
}

/// Whether what is written for an object is read back as it.
pub open spec fn written_reads_back(written: Seq<char>, members: Seq<(Seq<char>, JsonModel)>) -> bool {
    trimmed(written).len() > 0 && reads_back(written, JsonModel::Object(members))
}

/// What a file holds after a step: what the step writes, or what the file held where it writes
/// nothing.
pub open spec fn held_after(text: Option<Seq<char>>, to_write: Option<Seq<char>>) -> Option<Seq<char>> {
    match to_write {
        Some(written) => Some(written),
        None => text,
    }
}

/// Whether a step went well, changed nothing and writes nothing.
pub open spec fn is_quiet(result: Result<(StepModel, Option<Seq<char>>), FailureModel>) -> bool {
    result matches Ok((step, to_write)) && !step.changed && !step.created && to_write is None
}

/// A step and its text, as contracts write them.
pub open spec fn step_view(step: (Step, Option<String>)) -> (StepModel, Option<Seq<char>>) {
    (step.0.deep_view(), step.1.deep_view())
}

/// What registering Biskit with a client comes to. What is registered already is left untouched.
pub open spec fn client_result(
    client: Client,
    command: Seq<char>,
    project_from_cwd: bool,
    dry_run: bool,
    path: Seq<char>,
    text: Option<Seq<char>>,
) -> Result<(StepModel, Option<Seq<char>>), FailureModel> {
    let key = servers_key_of(client);
    match object_in(path, text) {
        Err(failure) => Err(failure),
        Ok(existing) => match registered(
            members_of(existing),
            key,
            server_entry_model(command, project_from_cwd),
        ) {
            None => Err(
                bare_failure(
                    path + " holds a non-object \""@ + key + "\" entry; refusing to modify it"@,
                ),
            ),
            Some((after, changed)) => step_result(
                path,
                existing is None,
                changed,
                seq![
                    if changed {
                        "registered \"biskit\" under \""@ + key + "\""@
                    } else {
                        "\"biskit\" already registered under \""@ + key
                            + "\", left untouched"@
                    },
                ],
                after,
                dry_run,
            ),
        },
    }
}

/// What a client's file holds once Biskit is registered in it.
pub open spec fn configured_members(
    client: Client,
    command: Seq<char>,
    project_from_cwd: bool,
    path: Seq<char>,
    text: Option<Seq<char>>,
) -> Seq<(Seq<char>, JsonModel)> {
    (registered(
        members_of(object_in(path, text)->Ok_0),
        servers_key_of(client),
        server_entry_model(command, project_from_cwd),
    )->0).0
}

fn finish(
    path: &str,
    created: bool,
    changed: bool,
    notes: Vec<String>,
    document: Vec<(String, Json)>,
    dry_run: bool,
) -> (r: Result<(Step, Option<String>), Failure>)
    requires
        member_keys_differ(members_model(document@)),
    ensures
        match r {
            Ok(step) => step_result(
                path@,
                created,
                changed,
                notes.deep_view(),
                members_model(document@),
                dry_run,
            ) == Ok::<(StepModel, Option<Seq<char>>), FailureModel>(step_view(step)),
            Err(failure) => step_result(
                path@,
                created,
                changed,
                notes.deep_view(),
                members_model(document@),
                dry_run,
            ) == Err::<(StepModel, Option<Seq<char>>), FailureModel>(failure.deep_view()),
        },
        r matches Ok((_, Some(written))) ==> written_reads_back(
            written@,
            members_model(document@),
        ),
{
    let step = Step { path: owned(path), created: created && changed, changed, notes };
    if changed && !dry_run {
        match print_json(&Json::Object(document)) {
            Some(text) => {
                let mut written = text;
                written.push('\n');
                Ok((step, Some(written)))
            },
            None => {
                let mut message = owned("could not write ");
                message.append(path);
                Err(unhinted(message))
            },
        }
    } else {
        Ok((step, None))
    }
}

/// Whether registering Biskit leaves a client's file alone, whatever would be registered.
pub open spec fn registers_quietly(client: Client, path: Seq<char>, text: Option<Seq<char>>) -> bool {
    forall|command: Seq<char>, project_from_cwd: bool, dry_run: bool|
        is_quiet(
            #[trigger] client_result(client, command, project_from_cwd, dry_run, path, text),
        )
}

/// Registers Biskit with a client: `text` is what the client's file holds, where there is one.
/// Answers what was done, and the text to write where the file is to be written.
pub fn configure_client(client: Client, plan: &Plan, path: &str, text: Option<&str>) -> (r: Result<
    (Step, Option<String>),
    Failure,
>)
    ensures
        ({
            let expected = client_result(
                client,
                plan.command@,
                plan.project_from_cwd,
                plan.dry_run,
                path@,
                text.deep_view(),
            );
            match r {
                Ok(step) => expected == Ok::<(StepModel, Option<Seq<char>>), FailureModel>(
                    step_view(step),
                ),
                Err(failure) => expected == Err::<(StepModel, Option<Seq<char>>), FailureModel>(
                    failure.deep_view(),
                ),
            }
        }),
        r matches Ok((_, Some(written))) ==> written_reads_back(
            written@,
            configured_members(
                client,
                plan.command@,
                plan.project_from_cwd,
                path@,
                text.deep_view(),
            ),
        ),
        r matches Ok((_, to_write)) ==> !plan.dry_run ==> registers_quietly(
            client,
            path@,
            held_after(text.deep_view(), to_write.deep_view()),
        ),
{
    let existing = match load_object(path, text) {
        Ok(existing) => existing,
        Err(failure) => {
            return Err(failure);
        },
    };
    let created = existing.is_none();
    let mut document: Vec<(String, Json)> = match existing {
        Some(members) => members,
        None => Vec::new(),
    };
    assert(created ==> members_model(document@) =~= Seq::empty());
    let ghost start = members_model(document@);
    assert(is_nested_within(JsonModel::Object(start), deepest()));
    let key = client.servers_key();
    let entry = server_entry(plan.command.as_str(), plan.project_from_cwd);
    let changed = match register(&mut document, key, entry) {
        Some(changed) => changed,
        None => {
            let mut message = owned(path);
            message.append(" holds a non-object \"");
            message.append(key);
            message.append("\" entry; refusing to modify it");
            return Err(unhinted(message));
        },
    };
    let note = if changed {
        let mut note = owned("registered \"biskit\" under \"");
        note.append(key);
        note.append("\"");
        note
    } else {
        let mut note = owned("\"biskit\" already registered under \"");
        note.append(key);
        note.append("\", left untouched");
        note
    };
    let ghost said = note@;
    let notes: Vec<String> = vec![note];
    assert(notes.deep_view() =~= seq![said]);
    let r = finish(path, created, changed, notes, document, plan.dry_run);
    proof {
        if let Ok((_, to_write)) = &r {
            if !plan.dry_run {
                a_second_run_registers_nothing(
                    client,
                    plan.command@,
                    plan.project_from_cwd,
                    path@,
                    text.deep_view(),
                    to_write.deep_view(),
                );
            }
        }
    }
    r
}

/// Settings once the session start hook is among their hooks, and whether that changed them; or
/// which of the two entries is not of the kind it has to be.
pub open spec fn settings_hooked(members: Seq<(Seq<char>, JsonModel)>, block: JsonModel) -> Result<
    (Seq<(Seq<char>, JsonModel)>, bool),
    Seq<char>,
> {
    let ready = ensured(members, "hooks"@, JsonModel::Object(Seq::empty()));
    match held_at(ready, "hooks"@) {
        JsonModel::Object(hooks) => match hooked(hooks, block) {
            Some((after, changed)) => Ok(
                (with_held(ready, "hooks"@, JsonModel::Object(after)), changed),
            ),
            None => Err(" holds a non-array \"SessionStart\" entry; refusing to modify it"@),
        },
        _ => Err(" holds a non-object \"hooks\" entry; refusing to modify it"@),
    }
}

/// What is noted of the hook.
pub open spec fn hook_note(changed: bool) -> Seq<char> {
    if changed {
        "added the SessionStart hook"@
    } else {
        "a Biskit SessionStart hook is already present, left untouched"@
    }
}

/// What is noted of the approval.
pub open spec fn approval_note(changed: bool) -> Seq<char> {
    if changed {
        "approved \"biskit\" in enabledMcpjsonServers"@
    } else {
        "\"biskit\" already in enabledMcpjsonServers"@
    }
}

/// What adding the session start hook comes to. Where the agent whose settings they are is among the
/// clients that are set up, its settings approve Biskit too.
pub open spec fn hooks_result(
    clients: Seq<Client>,
    command: Seq<char>,
    project_from_cwd: bool,
    dry_run: bool,
    path: Seq<char>,
    text: Option<Seq<char>>,
) -> Result<(StepModel, Option<Seq<char>>), FailureModel> {
    match object_in(path, text) {
        Err(failure) => Err(failure),
        Ok(existing) => match settings_hooked(
            members_of(existing),
            hook_block(hook_command_of(command, project_from_cwd)),
        ) {
            Err(problem) => Err(bare_failure(path + problem)),
            Ok((after_hook, added)) => if clients.contains(Client::Claude) {
                match approved(after_hook) {
                    None => Err(
                        bare_failure(
                            path
                                + " holds a non-array \"enabledMcpjsonServers\" entry; refusing to modify it"@,
                        ),
                    ),
                    Some((after, approves)) => step_result(
                        path,
                        existing is None,
                        added || approves,
                        seq![hook_note(added), approval_note(approves)],
                        after,
                        dry_run,
                    ),
                }
            } else {
                step_result(
                    path,
                    existing is None,
                    added,
                    seq![hook_note(added)],
                    after_hook,
                    dry_run,
                )
            },
        },
    }
}

/// What a settings file holds once the hook is in it.
pub open spec fn hooked_members(
    clients: Seq<Client>,
    command: Seq<char>,
    project_from_cwd: bool,
    path: Seq<char>,
    text: Option<Seq<char>>,
) -> Seq<(Seq<char>, JsonModel)> {
    let after_hook = (settings_hooked(
        members_of(object_in(path, text)->Ok_0),
        hook_block(hook_command_of(command, project_from_cwd)),
    )->Ok_0).0;
    if clients.contains(Client::Claude) {
        (approved(after_hook)->0).0
    } else {
        after_hook
    }
}

fn hook_settings(document: &mut Vec<(String, Json)>, block: Json) -> (r: Result<bool, &'static str>)
    requires
        member_keys_differ(members_model(old(document)@)),
        keys_differ(block.deep_view()),
    ensures
        member_keys_differ(members_model(final(document)@)),
        match r {
            Ok(changed) => settings_hooked(members_model(old(document)@), block.deep_view()) == Ok::<
                (Seq<(Seq<char>, JsonModel)>, bool),
                Seq<char>,
            >((members_model(final(document)@), changed)),
            Err(problem) => settings_hooked(members_model(old(document)@), block.deep_view())
                == Err::<(Seq<(Seq<char>, JsonModel)>, bool), Seq<char>>(problem@),
        },
{
    let nothing: Vec<(String, Json)> = Vec::new();
    assert(members_model(nothing@) =~= Seq::empty());
    let at = ensure_member(document, "hooks", Json::Object(nothing));
    proof {
        members_model_items(document@);
        held_keys_differ(members_model(document@), "hooks"@);
    }
    let mut hooks = match &document[at].1 {
        Json::Object(hooks) => copy_members(hooks),
        _ => {
            return Err(" holds a non-object \"hooks\" entry; refusing to modify it");
        },
    };
    let changed = match hook(&mut hooks, block) {
        Some(changed) => changed,
        None => {
            return Err(" holds a non-array \"SessionStart\" entry; refusing to modify it");
        },
    };
    replace_member(document, at, "hooks", Json::Object(hooks));
    Ok(changed)
}

fn has_claude(clients: &Vec<Client>) -> (b: bool)
    ensures
        b == clients@.contains(Client::Claude),
{
    let mut i: usize = 0;
    while i < clients.len()
        invariant
            i <= clients@.len(),
            forall|k: int| 0 <= k < i ==> clients@[k] != Client::Claude,
        decreases clients@.len() - i,
    {
        if clients[i] == Client::Claude {
            return true;
        }
        i = i + 1;
    }
    false
}

/// Whether adding the session start hook leaves a settings file alone, whatever would be added.
pub open spec fn hooks_quietly(clients: Seq<Client>, path: Seq<char>, text: Option<Seq<char>>) -> bool {
    forall|command: Seq<char>, project_from_cwd: bool, dry_run: bool|
        is_quiet(
            #[trigger] hooks_result(clients, command, project_from_cwd, dry_run, path, text),
        )
}

/// Adds the session start hook: `text` is what the settings file holds, where there is one. Answers
/// what was done, and the text to write where the file is to be written.
pub fn configure_hooks(plan: &Plan, path: &str, text: Option<&str>) -> (r: Result<
    (Step, Option<String>),
    Failure,
>)
    ensures
        ({
            let expected = hooks_result(
                plan.clients@,
                plan.command@,
                plan.project_from_cwd,
                plan.dry_run,
                path@,
                text.deep_view(),
            );
            match r {
                Ok(step) => expected == Ok::<(StepModel, Option<Seq<char>>), FailureModel>(
                    step_view(step),
                ),
                Err(failure) => expected == Err::<(StepModel, Option<Seq<char>>), FailureModel>(
                    failure.deep_view(),
                ),
            }
        }),
        r matches Ok((_, Some(written))) ==> written_reads_back(
            written@,
            hooked_members(
                plan.clients@,
                plan.command@,
                plan.project_from_cwd,
                path@,
                text.deep_view(),
            ),
        ),
        r matches Ok((_, to_write)) ==> !plan.dry_run && holds(plan.command@, "biskit-mcp"@)
            ==> hooks_quietly(
            plan.clients@,
            path@,
            held_after(text.deep_view(), to_write.deep_view()),
        ),
{
    let existing = match load_object(path, text) {
        Ok(existing) => existing,
        Err(failure) => {
            return Err(failure);
        },
    };
    let created = existing.is_none();
    let mut document: Vec<(String, Json)> = match existing {
        Some(members) => members,
        None => Vec::new(),
    };
    assert(created ==> members_model(document@) =~= Seq::empty());
    let ghost start = members_model(document@);
    assert(is_nested_within(JsonModel::Object(start), deepest()));
    let command = hook_command(plan.command.as_str(), plan.project_from_cwd);
    let added = match hook_settings(&mut document, hook_json(command)) {
        Ok(added) => added,
        Err(problem) => {
            let mut message = owned(path);
            message.append(problem);
            return Err(unhinted(message));
        },
    };
    let mut notes: Vec<String> = Vec::new();
    if added {
        notes.push(owned("added the SessionStart hook"));
    } else {
        notes.push(owned("a Biskit SessionStart hook is already present, left untouched"));
    }
    assert(notes.deep_view() =~= seq![hook_note(added)]);
    if !has_claude(&plan.clients) {
        let r = finish(path, created, added, notes, document, plan.dry_run);
        proof {
            if let Ok((_, to_write)) = &r {
                if !plan.dry_run && holds(plan.command@, "biskit-mcp"@) {
                    a_second_run_hooks_nothing(
                        plan.clients@,
                        plan.command@,
                        plan.project_from_cwd,
                        path@,
                        text.deep_view(),
                        to_write.deep_view(),
                    );
                }
            }
        }
        return r;
    }
    let approves = match approve(&mut document) {
        Some(approves) => approves,
        None => {
            let mut message = owned(path);
            message.append(
                " holds a non-array \"enabledMcpjsonServers\" entry; refusing to modify it",
            );
            return Err(unhinted(message));
        },
    };
    if approves {
        notes.push(owned("approved \"biskit\" in enabledMcpjsonServers"));
    } else {
        notes.push(owned("\"biskit\" already in enabledMcpjsonServers"));
    }
    assert(notes.deep_view() =~= seq![hook_note(added), approval_note(approves)]);
    let r = finish(path, created, added || approves, notes, document, plan.dry_run);
    proof {
        if let Ok((_, to_write)) = &r {
            if !plan.dry_run && holds(plan.command@, "biskit-mcp"@) {
                a_second_run_hooks_nothing(
                    plan.clients@,
                    plan.command@,
                    plan.project_from_cwd,
                    path@,
                    text.deep_view(),
                    to_write.deep_view(),
                );
            }
        }
    }
    r
}

// ---------------------------------------------------------------------------
// What holds of every run

/// Whether a list of members differs from another at one key at most: every member keeps its place
/// and its key, those with another key keep what they hold, and at most the key itself is added, at
/// the end.
pub open spec fn only_touches(
    before: Seq<(Seq<char>, JsonModel)>,
    after: Seq<(Seq<char>, JsonModel)>,
    key: Seq<char>,
) -> bool {
    &&& before.len() <= after.len() <= before.len() + 1
    &&& forall|i: int|
        0 <= i < before.len() ==> (#[trigger] after[i]).0 == before[i].0 && (before[i].0 != key
            ==> after[i] == before[i])
    &&& after.len() > before.len() ==> after.last().0 == key
}

proof fn ensuring_and_replacing(
    members: Seq<(Seq<char>, JsonModel)>,
    key: Seq<char>,
    start: JsonModel,
    value: JsonModel,
)
    ensures
        ({
            let ready = ensured(members, key, start);
            &&& member_position(ready, key, 0) is Some
            &&& only_touches(members, ready, key)
            &&& only_touches(members, with_held(ready, key, value), key)
            &&& member_position(with_held(ready, key, value), key, 0) == member_position(
                ready,
                key,
                0,
            )
            &&& held_at(with_held(ready, key, value), key) == value
            &&& member_position(members, key, 0) is None ==> held_at(ready, key) == start
        }),
{
    let ready = ensured(members, key, start);
    member_position_is_first(members, key, 0);
    if member_position(members, key, 0) is None {
        assert(ready[members.len() as int].0 == key);
        member_position_is_first(ready, key, 0);
        let found = member_position(ready, key, 0)->0;
        if found < members.len() {
            assert(members[found].0 == key);
        }
    }
    member_position_is_first(ready, key, 0);
    let at = member_position(ready, key, 0)->0;
    let after = with_held(ready, key, value);
    assert(after[at].0 == key);
    member_position_is_first(after, key, 0);
    let found = member_position(after, key, 0)->0;
    if found < at {
        assert(after[found] == ready[found]);
        assert(ready[found].0 == key);
    }
}

/// Registering Biskit leaves every other key of a configuration, and every other registration, as
/// it was and in its place.
pub proof fn registering_keeps_the_rest(
    members: Seq<(Seq<char>, JsonModel)>,
    key: Seq<char>,
    entry: JsonModel,
)
    ensures
        registered(members, key, entry) matches Some((after, changed)) ==> {
            &&& only_touches(members, after, key)
            &&& !changed ==> after == members
            &&& changed ==> (held_at(after, key) matches JsonModel::Object(servers)
                && servers.len() > 0 && servers.last() == ("biskit"@, entry) && (
            member_position(members, key, 0) is Some ==> held_at(members, key)
                == JsonModel::Object(servers.drop_last())))
        },
{
    let nothing = JsonModel::Object(Seq::empty());
    let ready = ensured(members, key, nothing);
    ensuring_and_replacing(members, key, nothing, nothing);
    if let JsonModel::Object(servers) = held_at(ready, key) {
        let more = servers.push(("biskit"@, entry));
        ensuring_and_replacing(members, key, nothing, JsonModel::Object(more));
        assert(more.drop_last() =~= servers);
    }
}

/// A configuration in which Biskit was registered is left alone by the next run, whatever it would
/// register.
pub proof fn a_second_registration_changes_nothing(
    members: Seq<(Seq<char>, JsonModel)>,
    key: Seq<char>,
    entry: JsonModel,
    next: JsonModel,
)
    ensures
        registered(members, key, entry) matches Some((after, _)) ==> registered(after, key, next)
            == Some((after, false)),
{
    let nothing = JsonModel::Object(Seq::empty());
    let ready = ensured(members, key, nothing);
    ensuring_and_replacing(members, key, nothing, nothing);
    if let JsonModel::Object(servers) = held_at(ready, key) {
        let more = servers.push(("biskit"@, entry));
        ensuring_and_replacing(members, key, nothing, JsonModel::Object(more));
        member_position_is_first(more, "biskit"@, 0);
        assert(more[servers.len() as int].0 == "biskit"@);
    }
}

proof fn held_in_sum(a: Seq<char>, b: Seq<char>, c: Seq<char>, needle: Seq<char>)
    requires
        holds(b, needle),
    ensures
        holds(a + b + c, needle),
{
    find_from_is_first(b, needle, 0);
    find_from_is_first(a + b + c, needle, 0);
    let i = crate::text::find_from(b, needle, 0)->0;
    let all = a + b + c;
    assert(all.subrange(a.len() + i, a.len() + i + needle.len()) =~= b.subrange(
        i,
        i + needle.len(),
    ));
    assert(occurs_at(all, needle, a.len() + i));
}

proof fn holds_itself(s: Seq<char>)
    ensures
        holds(s, s),
{
    find_from_is_first(s, s, 0);
    assert(s.subrange(0, s.len() as int) =~= s);
    assert(occurs_at(s, s, 0));
}

proof fn the_hook_is_recognised(command: Seq<char>, project_from_cwd: bool)
    requires
        holds(command, "biskit-mcp"@),
    ensures
        is_session_start(hook_block(hook_command_of(command, project_from_cwd))),
{
    let empty = Seq::<char>::empty();
    let line = hook_command_of(command, project_from_cwd);
    let flag = if project_from_cwd {
        " --project-from-cwd"@
    } else {
        ""@
    };
    let head = if holds_white_space(command) {
        "\""@ + command + "\""@
    } else {
        command
    };
    if holds_white_space(command) {
        held_in_sum("\""@, command, "\""@, "biskit-mcp"@);
    }
    assert(line =~= empty + head + (" hook session-start"@ + flag));
    held_in_sum(empty, head, " hook session-start"@ + flag, "biskit-mcp"@);
    reveal_strlit(" hook session-start");
    reveal_strlit("hook session-start");
    holds_itself("hook session-start"@);
    let space = seq![' '];
    assert(" hook session-start"@ =~= space + "hook session-start"@);
    assert(line =~= (head + space) + "hook session-start"@ + flag);
    held_in_sum(head + space, "hook session-start"@, flag, "hook session-start"@);
    let block = hook_block(line);
    let entries = block->Object_0[0].1->List_0;
    reveal_strlit("type");
    reveal_strlit("command");
    assert("type"@.len() != "command"@.len());
    let inner = entries[0]->Object_0;
    assert(member_position(inner, "command"@, 1) == Some(1int));
    assert(member_position(inner, "command"@, 0) == Some(1int));
    assert(runs_session_start(entries[0]));
    assert(any_runs_session_start(entries));
    assert(member_position(block->Object_0, "hooks"@, 0) == Some(0int));
}

/// Settings that Biskit's session start hook was added to are left alone by the next run, whatever
/// flags that run has: the hook is not added twice. This is so for every command that names
/// `biskit-mcp`; a hook with another command is not recognised.
pub proof fn a_second_run_adds_no_hook(
    members: Seq<(Seq<char>, JsonModel)>,
    command: Seq<char>,
    project_from_cwd: bool,
    next: JsonModel,
)
    requires
        holds(command, "biskit-mcp"@),
    ensures
        settings_hooked(members, hook_block(hook_command_of(command, project_from_cwd))) matches Ok(
            (after, _),
        ) ==> settings_hooked(after, next) == Ok::<(Seq<(Seq<char>, JsonModel)>, bool), Seq<char>>(
            (after, false),
        ),
{
    let block = hook_block(hook_command_of(command, project_from_cwd));
    the_hook_is_recognised(command, project_from_cwd);
    let no_hooks = JsonModel::Object(Seq::empty());
    let no_blocks = JsonModel::List(Seq::empty());
    let ready = ensured(members, "hooks"@, no_hooks);
    ensuring_and_replacing(members, "hooks"@, no_hooks, no_hooks);
    if let JsonModel::Object(hooks) = held_at(ready, "hooks"@) {
        let prepared = ensured(hooks, "SessionStart"@, no_blocks);
        ensuring_and_replacing(hooks, "SessionStart"@, no_blocks, no_blocks);
        if let JsonModel::List(blocks) = held_at(prepared, "SessionStart"@) {
            let more = blocks.push(block);
            assert(is_session_start(more[blocks.len() as int]));
            ensuring_and_replacing(hooks, "SessionStart"@, no_blocks, JsonModel::List(more));
            let after_hooks = (hooked(hooks, block)->0).0;
            assert(hooked(after_hooks, next) == Some((after_hooks, false)));
            ensuring_and_replacing(members, "hooks"@, no_hooks, JsonModel::Object(after_hooks));
            let after = with_held(ready, "hooks"@, JsonModel::Object(after_hooks));
            let at = member_position(after, "hooks"@, 0)->0;
            member_position_is_first(after, "hooks"@, 0);
            assert(with_held(after, "hooks"@, JsonModel::Object(after_hooks)) =~= after);
        }
    }
}

/// Biskit is approved once: settings that approve it are left alone.
pub proof fn a_second_run_approves_nothing(members: Seq<(Seq<char>, JsonModel)>)
    ensures
        approved(members) matches Some((after, _)) ==> approved(after) == Some((after, false)),
{
    let none = JsonModel::List(Seq::empty());
    let ready = ensured(members, "enabledMcpjsonServers"@, none);
    ensuring_and_replacing(members, "enabledMcpjsonServers"@, none, none);
    if let JsonModel::List(enabled) = held_at(ready, "enabledMcpjsonServers"@) {
        let more = enabled.push(JsonModel::Text("biskit"@));
        assert(more[enabled.len() as int] == JsonModel::Text("biskit"@));
        assert(more.contains(JsonModel::Text("biskit"@)));
        ensuring_and_replacing(members, "enabledMcpjsonServers"@, none, JsonModel::List(more));
    }
}

/// Adding the hook leaves every other key of the settings, and every other hook, as it was and in
/// its place.
pub proof fn hooking_keeps_the_rest(members: Seq<(Seq<char>, JsonModel)>, block: JsonModel)
    ensures
        settings_hooked(members, block) matches Ok((after, changed)) ==> {
            &&& only_touches(members, after, "hooks"@)
            &&& member_position(members, "hooks"@, 0) is Some ==> {
                &&& held_at(members, "hooks"@) matches JsonModel::Object(hooks)
                &&& held_at(after, "hooks"@) matches JsonModel::Object(now)
                &&& only_touches(hooks, now, "SessionStart"@)
                &&& changed && member_position(hooks, "SessionStart"@, 0) is Some ==> (held_at(
                    hooks,
                    "SessionStart"@,
                ) matches JsonModel::List(blocks) && held_at(now, "SessionStart"@)
                    == JsonModel::List(blocks.push(block)))
            }
        },
{
    let no_hooks = JsonModel::Object(Seq::empty());
    let no_blocks = JsonModel::List(Seq::empty());
    let ready = ensured(members, "hooks"@, no_hooks);
    ensuring_and_replacing(members, "hooks"@, no_hooks, no_hooks);
    if let JsonModel::Object(hooks) = held_at(ready, "hooks"@) {
        let prepared = ensured(hooks, "SessionStart"@, no_blocks);
        ensuring_and_replacing(hooks, "SessionStart"@, no_blocks, no_blocks);
        if let JsonModel::List(blocks) = held_at(prepared, "SessionStart"@) {
            ensuring_and_replacing(
                hooks,
                "SessionStart"@,
                no_blocks,
                JsonModel::List(blocks.push(block)),
            );
            if let Some((now, _)) = hooked(hooks, block) {
                ensuring_and_replacing(members, "hooks"@, no_hooks, JsonModel::Object(now));
            }
        }
    }
}

/// Whether an object can be read back from what is written for it: no deeper than the reader goes.
spec fn is_readable(members: Seq<(Seq<char>, JsonModel)>) -> bool {
    is_nested_within(JsonModel::Object(members), deepest())
}

/// Objects that are alike hold a key at the same place.
proof fn alike_objects_hold_alike(
    read: Seq<(Seq<char>, JsonModel)>,
    members: Seq<(Seq<char>, JsonModel)>,
    key: Seq<char>,
    from: int,
)
    requires
        is_alike(JsonModel::Object(read), JsonModel::Object(members)),
        0 <= from,
    ensures
        member_position(read, key, from) == member_position(members, key, from),
        member_position(members, key, from) matches Some(i) ==> 0 <= i < members.len() && is_alike(
            read[i].1,
            members[i].1,
        ),
    decreases members.len() - from,
{
    if from < members.len() {
        assert(read[from].0 == members[from].0);
        if members[from].0 != key {
            alike_objects_hold_alike(read, members, key, from + 1);
        }
    }
}

/// What is nested in an object is nested less deep.
proof fn object_parts(document: JsonModel, depth: int)
    requires
        document is Object,
        is_nested_within(document, depth),
    ensures
        forall|i: int|
            0 <= i < document->Object_0.len() ==> is_nested_within(
                (#[trigger] document->Object_0[i]).1,
                depth - 1,
            ),
{
}

/// A small document that an object is given stays readable with it.
proof fn giving_keeps_readable(
    members: Seq<(Seq<char>, JsonModel)>,
    key: Seq<char>,
    start: JsonModel,
    value: JsonModel,
    depth: int,
)
    requires
        depth > 0,
        is_nested_within(JsonModel::Object(members), depth),
        is_nested_within(start, depth - 1),
        is_nested_within(value, depth - 1),
    ensures
        ({
            let ready = ensured(members, key, start);
            let after = with_held(ready, key, value);
            &&& is_nested_within(JsonModel::Object(ready), depth)
            &&& is_nested_within(held_at(ready, key), depth - 1)
            &&& is_nested_within(JsonModel::Object(after), depth)
        }),
{
    let ready = ensured(members, key, start);
    ensuring_and_replacing(members, key, start, value);
    member_position_is_first(ready, key, 0);
    let at = member_position(ready, key, 0)->0;
    object_parts(JsonModel::Object(members), depth);
    assert forall|i: int| 0 <= i < ready.len() implies is_nested_within(
        (#[trigger] ready[i]).1,
        depth - 1,
    ) by {
        if i < members.len() {
            assert(ready[i] == members[i]);
        } else {
            assert(ready[i] == (key, start));
        }
    }
    let after = with_held(ready, key, value);
    assert forall|i: int| 0 <= i < after.len() implies is_nested_within(
        (#[trigger] after[i]).1,
        depth - 1,
    ) by {
        if i != at {
            assert(after[i] == ready[i]);
        }
    }
}

proof fn a_registration_is_readable(command: Seq<char>, project_from_cwd: bool)
    ensures
        is_nested_within(server_entry_model(command, project_from_cwd), 2),
{
    reveal_with_fuel(is_nested_within, 3);
}

proof fn a_hook_is_readable(command: Seq<char>)
    ensures
        is_nested_within(hook_block(command), 3),
{
    reveal_with_fuel(is_nested_within, 4);
}

/// What is nested within a depth is nested within a greater one.
proof fn deeper_is_enough(document: JsonModel, depth: int, deeper: int)
    requires
        is_nested_within(document, depth),
        depth <= deeper,
    ensures
        is_nested_within(document, deeper),
    decreases document,
{
    match document {
        JsonModel::List(list) => {
            assert forall|i: int| 0 <= i < list.len() implies is_nested_within(
                #[trigger] list[i],
                deeper - 1,
            ) by {
                deeper_is_enough(list[i], depth - 1, deeper - 1);
            }
        },
        JsonModel::Object(members) => {
            assert forall|i: int| 0 <= i < members.len() implies is_nested_within(
                (#[trigger] members[i]).1,
                deeper - 1,
            ) by {
                deeper_is_enough(members[i].1, depth - 1, deeper - 1);
            }
        },
        _ => {},
    }
}

proof fn registering_keeps_readable(
    members: Seq<(Seq<char>, JsonModel)>,
    key: Seq<char>,
    command: Seq<char>,
    project_from_cwd: bool,
)
    requires
        is_readable(members),
    ensures
        registered(members, key, server_entry_model(command, project_from_cwd)) matches Some((after, _))
            ==> is_readable(after),
{
    let entry = server_entry_model(command, project_from_cwd);
    let nothing = JsonModel::Object(Seq::empty());
    let ready = ensured(members, key, nothing);
    giving_keeps_readable(members, key, nothing, nothing, deepest());
    if let JsonModel::Object(servers) = held_at(ready, key) {
        a_registration_is_readable(command, project_from_cwd);
        deeper_is_enough(entry, 2, deepest() - 2);
        let more = servers.push(("biskit"@, entry));
        let document = JsonModel::Object(more);
        assert forall|i: int| 0 <= i < more.len() implies is_nested_within(
            (#[trigger] more[i]).1,
            deepest() - 2,
        ) by {
            if i < servers.len() {
                assert(more[i] == servers[i]);
            }
        }
        assert(is_nested_within(document, deepest() - 1));
        giving_keeps_readable(members, key, nothing, document, deepest());
    }
}

proof fn hooking_keeps_readable(
    members: Seq<(Seq<char>, JsonModel)>,
    command: Seq<char>,
)
    requires
        is_readable(members),
    ensures
        settings_hooked(members, hook_block(command)) matches Ok((after, _)) ==> is_readable(after),
{
    let block = hook_block(command);
    let no_hooks = JsonModel::Object(Seq::empty());
    let no_blocks = JsonModel::List(Seq::empty());
    let ready = ensured(members, "hooks"@, no_hooks);
    giving_keeps_readable(members, "hooks"@, no_hooks, no_hooks, deepest());
    if let JsonModel::Object(hooks) = held_at(ready, "hooks"@) {
        let prepared = ensured(hooks, "SessionStart"@, no_blocks);
        giving_keeps_readable(hooks, "SessionStart"@, no_blocks, no_blocks, deepest() - 1);
        if let JsonModel::List(blocks) = held_at(prepared, "SessionStart"@) {
            a_hook_is_readable(command);
            deeper_is_enough(block, 3, deepest() - 3);
            let more = blocks.push(block);
            let document = JsonModel::List(more);
            assert forall|i: int| 0 <= i < more.len() implies is_nested_within(
                #[trigger] more[i],
                deepest() - 3,
            ) by {
                if i < blocks.len() {
                    assert(more[i] == blocks[i]);
                }
            }
            assert(is_nested_within(document, deepest() - 2));
            giving_keeps_readable(hooks, "SessionStart"@, no_blocks, document, deepest() - 1);
            let after = (hooked(hooks, block)->0).0;
            giving_keeps_readable(
                members,
                "hooks"@,
                no_hooks,
                JsonModel::Object(after),
                deepest(),
            );
        }
    }
}

proof fn approving_keeps_readable(members: Seq<(Seq<char>, JsonModel)>)
    requires
        is_readable(members),
    ensures
        approved(members) matches Some((after, _)) ==> is_readable(after),
{
    let key = "enabledMcpjsonServers"@;
    let none = JsonModel::List(Seq::empty());
    let ready = ensured(members, key, none);
    giving_keeps_readable(members, key, none, none, deepest());
    if let JsonModel::List(enabled) = held_at(ready, key) {
        let more = enabled.push(JsonModel::Text("biskit"@));
        let document = JsonModel::List(more);
        assert forall|i: int| 0 <= i < more.len() implies is_nested_within(
            #[trigger] more[i],
            deepest() - 2,
        ) by {
            if i < enabled.len() {
                assert(more[i] == enabled[i]);
            }
        }
        assert(is_nested_within(document, deepest() - 1));
        giving_keeps_readable(members, key, none, document, deepest());
    }
}

/// What leaves a configuration alone leaves one that is like it alone.
proof fn registering_is_the_same_for_alikes(
    read: Seq<(Seq<char>, JsonModel)>,
    members: Seq<(Seq<char>, JsonModel)>,
    key: Seq<char>,
    entry: JsonModel,
    next: JsonModel,
)
    requires
        is_alike(JsonModel::Object(read), JsonModel::Object(members)),
        registered(members, key, entry) == Some((members, false)),
    ensures
        registered(read, key, next) == Some((read, false)),
{
    let nothing = JsonModel::Object(Seq::empty());
    alike_objects_hold_alike(read, members, key, 0);
    if member_position(members, key, 0) is None {
        assert(ensured(members, key, nothing).len() == members.len() + 1);
    }
    let there = held_at(members, key)->Object_0;
    let here = held_at(read, key)->Object_0;
    alike_objects_hold_alike(here, there, "biskit"@, 0);
}

/// A run leaves the file of a client as the run before it left it, whatever the two runs register.
pub proof fn a_second_run_registers_nothing(
    client: Client,
    command: Seq<char>,
    project_from_cwd: bool,
    path: Seq<char>,
    text: Option<Seq<char>>,
    to_write: Option<Seq<char>>,
)
    requires
        client_result(client, command, project_from_cwd, false, path, text) matches Ok((_, told))
            && told == to_write,
        is_nested_within(JsonModel::Object(members_of(object_in(path, text)->Ok_0)), deepest()),
        to_write matches Some(written) ==> written_reads_back(
            written,
            configured_members(client, command, project_from_cwd, path, text),
        ),
    ensures
        registers_quietly(client, path, held_after(text, to_write)),
{
    let key = servers_key_of(client);
    let members = members_of(object_in(path, text)->Ok_0);
    let entry = server_entry_model(command, project_from_cwd);
    let after = configured_members(client, command, project_from_cwd, path, text);
    registering_keeps_readable(members, key, command, project_from_cwd);
    assert forall|next_command: Seq<char>, next_from_cwd: bool, dry_run: bool|
        is_quiet(
            #[trigger] client_result(
                client,
                next_command,
                next_from_cwd,
                dry_run,
                path,
                held_after(text, to_write),
            ),
        ) by {
        let next = server_entry_model(next_command, next_from_cwd);
        if let Some(written) = to_write {
            a_second_registration_changes_nothing(members, key, entry, next);
            let read = document_in(written)->0->Object_0;
            registering_is_the_same_for_alikes(read, after, key, next, next);
        }
    }
}

proof fn other_keys_stay(
    before: Seq<(Seq<char>, JsonModel)>,
    after: Seq<(Seq<char>, JsonModel)>,
    touched: Seq<char>,
    key: Seq<char>,
)
    requires
        only_touches(before, after, touched),
        key != touched,
        member_position(before, key, 0) is Some,
    ensures
        member_position(after, key, 0) == member_position(before, key, 0),
        held_at(after, key) == held_at(before, key),
{
    member_position_is_first(before, key, 0);
    member_position_is_first(after, key, 0);
    let at = member_position(before, key, 0)->0;
    assert(after[at] == before[at]);
    let found = member_position(after, key, 0)->0;
    if found < at {
        assert(after[found].0 == before[found].0);
    }
}

proof fn approving_keeps_the_hook(members: Seq<(Seq<char>, JsonModel)>, next: JsonModel)
    requires
        settings_hooked(members, next) == Ok::<(Seq<(Seq<char>, JsonModel)>, bool), Seq<char>>(
            (members, false),
        ),
    ensures
        approved(members) matches Some((after, _)) ==> settings_hooked(after, next) == Ok::<
            (Seq<(Seq<char>, JsonModel)>, bool),
            Seq<char>,
        >((after, false)),
{
    reveal_strlit("hooks");
    reveal_strlit("enabledMcpjsonServers");
    assert("hooks"@.len() == 5);
    assert("enabledMcpjsonServers"@.len() == 21);
    let none = JsonModel::List(Seq::empty());
    let key = "enabledMcpjsonServers"@;
    let ready = ensured(members, key, none);
    ensuring_and_replacing(members, key, none, none);
    ensuring_and_replacing(members, "hooks"@, JsonModel::Object(Seq::empty()), none);
    member_position_is_first(members, "hooks"@, 0);
    assert(member_position(members, "hooks"@, 0) is Some) by {
        let longer = ensured(members, "hooks"@, JsonModel::Object(Seq::empty()));
        if member_position(members, "hooks"@, 0) is None {
            assert(longer.len() == members.len() + 1);
        }
    }
    let hooks = held_at(members, "hooks"@)->Object_0;
    let same = (hooked(hooks, next)->0).0;
    let at = member_position(members, "hooks"@, 0)->0;
    assert(with_held(members, "hooks"@, JsonModel::Object(same))[at] == members[at]);
    if let JsonModel::List(enabled) = held_at(ready, key) {
        let more = JsonModel::List(enabled.push(JsonModel::Text("biskit"@)));
        ensuring_and_replacing(members, key, none, more);
        let after = (approved(members)->0).0;
        other_keys_stay(members, after, key, "hooks"@);
        assert(with_held(after, "hooks"@, JsonModel::Object(same)) =~= after);
    }
}

/// A block that is like Biskit's session start is one.
proof fn a_hook_is_recognised_in_alikes(read: JsonModel, block: JsonModel)
    requires
        is_alike(read, block),
        is_session_start(block),
    ensures
        is_session_start(read),
{
    alike_objects_hold_alike(read->Object_0, block->Object_0, "hooks"@, 0);
    let there = member(block, "hooks"@)->0->List_0;
    let here = member(read, "hooks"@)->0->List_0;
    let i = choose|i: int| 0 <= i < there.len() && runs_session_start(#[trigger] there[i]);
    assert(is_alike(here[i], there[i]));
    alike_objects_hold_alike(here[i]->Object_0, there[i]->Object_0, "command"@, 0);
    assert(runs_session_start(here[i]));
}

/// What leaves settings alone leaves settings that are like them alone.
proof fn hooking_is_the_same_for_alikes(
    read: Seq<(Seq<char>, JsonModel)>,
    members: Seq<(Seq<char>, JsonModel)>,
    next: JsonModel,
)
    requires
        is_alike(JsonModel::Object(read), JsonModel::Object(members)),
        settings_hooked(members, next) == Ok::<(Seq<(Seq<char>, JsonModel)>, bool), Seq<char>>(
            (members, false),
        ),
    ensures
        settings_hooked(read, next) == Ok::<(Seq<(Seq<char>, JsonModel)>, bool), Seq<char>>(
            (read, false),
        ),
{
    let no_hooks = JsonModel::Object(Seq::empty());
    let no_blocks = JsonModel::List(Seq::empty());
    alike_objects_hold_alike(read, members, "hooks"@, 0);
    ensuring_and_replacing(members, "hooks"@, no_hooks, no_hooks);
    if member_position(members, "hooks"@, 0) is None {
        assert(ensured(members, "hooks"@, no_hooks).len() == members.len() + 1);
    }
    let at = member_position(members, "hooks"@, 0)->0;
    member_position_is_first(members, "hooks"@, 0);
    let there = held_at(members, "hooks"@)->Object_0;
    let here = held_at(read, "hooks"@)->Object_0;
    let same = (hooked(there, next)->0).0;
    assert(with_held(members, "hooks"@, JsonModel::Object(same))[at] == members[at]);
    assert(same == there);
    alike_objects_hold_alike(here, there, "SessionStart"@, 0);
    if member_position(there, "SessionStart"@, 0) is None {
        assert(ensured(there, "SessionStart"@, no_blocks).len() == there.len() + 1);
    }
    let blocks = held_at(there, "SessionStart"@)->List_0;
    let read_blocks = held_at(here, "SessionStart"@)->List_0;
    let i = choose|i: int| 0 <= i < blocks.len() && is_session_start(#[trigger] blocks[i]);
    assert(is_alike(read_blocks[i], blocks[i]));
    a_hook_is_recognised_in_alikes(read_blocks[i], blocks[i]);
    assert(holds_session_start(read_blocks));
    assert(hooked(here, next) == Some((here, false)));
    assert(read[at].0 == members[at].0);
    assert(with_held(read, "hooks"@, JsonModel::Object(here)) =~= read);
}

proof fn approving_is_the_same_for_alikes(
    read: Seq<(Seq<char>, JsonModel)>,
    members: Seq<(Seq<char>, JsonModel)>,
)
    requires
        is_alike(JsonModel::Object(read), JsonModel::Object(members)),
        approved(members) == Some((members, false)),
    ensures
        approved(read) == Some((read, false)),
{
    let key = "enabledMcpjsonServers"@;
    alike_objects_hold_alike(read, members, key, 0);
    if member_position(members, key, 0) is None {
        assert(ensured(members, key, JsonModel::List(Seq::empty())).len() == members.len() + 1);
    }
    let there = held_at(members, key)->List_0;
    let here = held_at(read, key)->List_0;
    let name = JsonModel::Text("biskit"@);
    let i = choose|i: int| 0 <= i < there.len() && there[i] == name;
    assert(is_alike(here[i], there[i]));
    assert(here[i] == name);
    assert(here.contains(name));
}

/// A run leaves the settings of an agent as the run before it for the same clients left them, whatever
/// hooks the two runs add. The command of the first run has to name `biskit-mcp`, as for the hook
/// itself.
pub proof fn a_second_run_hooks_nothing(
    clients: Seq<Client>,
    command: Seq<char>,
    project_from_cwd: bool,
    path: Seq<char>,
    text: Option<Seq<char>>,
    to_write: Option<Seq<char>>,
)
    requires
        holds(command, "biskit-mcp"@),
        hooks_result(clients, command, project_from_cwd, false, path, text) matches Ok((_, told))
            && told == to_write,
        is_nested_within(JsonModel::Object(members_of(object_in(path, text)->Ok_0)), deepest()),
        to_write matches Some(written) ==> written_reads_back(
            written,
            hooked_members(clients, command, project_from_cwd, path, text),
        ),
    ensures
        hooks_quietly(clients, path, held_after(text, to_write)),
{
    let members = members_of(object_in(path, text)->Ok_0);
    let line = hook_command_of(command, project_from_cwd);
    let block = hook_block(line);
    let after_hook = (settings_hooked(members, block)->Ok_0).0;
    let after = hooked_members(clients, command, project_from_cwd, path, text);
    hooking_keeps_readable(members, line);
    if clients.contains(Client::Claude) {
        approving_keeps_readable(after_hook);
    }
    assert forall|next_command: Seq<char>, next_from_cwd: bool, dry_run: bool|
        is_quiet(
            #[trigger] hooks_result(
                clients,
                next_command,
                next_from_cwd,
                dry_run,
                path,
                held_after(text, to_write),
            ),
        ) by {
        let next = hook_block(hook_command_of(next_command, next_from_cwd));
        a_second_run_adds_no_hook(members, command, project_from_cwd, next);
        if clients.contains(Client::Claude) {
            approving_keeps_the_hook(after_hook, next);
            a_second_run_approves_nothing(after_hook);
        }
        match to_write {
            Some(written) => {
                let read = document_in(written)->0->Object_0;
                hooking_is_the_same_for_alikes(read, after, next);
                if clients.contains(Client::Claude) {
                    approving_is_the_same_for_alikes(read, after);
                }
            },
            None => {
                unhooked_is_unchanged(members, block);
            },
        }
    }
}

/// Settings with hooks that nothing was added to hold what they held.
proof fn unhooked_is_unchanged(members: Seq<(Seq<char>, JsonModel)>, block: JsonModel)
    ensures
        settings_hooked(members, block) matches Ok((after, changed)) ==> (!changed ==> after
            == members),
{
    let no_hooks = JsonModel::Object(Seq::empty());
    let no_blocks = JsonModel::List(Seq::empty());
    let ready = ensured(members, "hooks"@, no_hooks);
    ensuring_and_replacing(members, "hooks"@, no_hooks, no_hooks);
    if let Ok((after, changed)) = settings_hooked(members, block) {
        if !changed {
            let hooks = held_at(ready, "hooks"@)->Object_0;
            let prepared = ensured(hooks, "SessionStart"@, no_blocks);
            ensuring_and_replacing(hooks, "SessionStart"@, no_blocks, no_blocks);
            let blocks = held_at(prepared, "SessionStart"@)->List_0;
            let i = choose|i: int| 0 <= i < blocks.len() && is_session_start(#[trigger] blocks[i]);
            if member_position(hooks, "SessionStart"@, 0) is None {
                assert(blocks.len() == 0);
            }
            if member_position(members, "hooks"@, 0) is None {
                assert(hooks.len() == 0);
            }
            member_position_is_first(members, "hooks"@, 0);
            assert(after =~= members);
        }
    }
}

/// A dry run writes nothing, and neither does a run that changes nothing.
pub proof fn nothing_is_written_in_vain(
    path: Seq<char>,
    created: bool,
    changed: bool,
    notes: Seq<Seq<char>>,
    members: Seq<(Seq<char>, JsonModel)>,
    dry_run: bool,
)
    ensures
        dry_run || !changed ==> (step_result(path, created, changed, notes, members, dry_run) matches
            Ok((_, written)) && written is None),
{
}

} // verus!
