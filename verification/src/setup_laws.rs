//! What is written into the files of the clients.
use vstd::prelude::*;
use crate::errors::FailureModel;
use crate::json::{member, member_position, member_position_is_first, JsonModel};
use crate::picking::{one_more_is_picked, picks};
use crate::setup::{
    all_clients, approved, client_result, config_file, ensured, held_at, hook_block,
    hook_command_of, hooked, hooks_result, is_present_in, is_session_start, object_in,
    present_clients, registered, runs_session_start, server_entry_model, servers_key_of,
    settings_hooked, with_held, Client, StepModel, Traces,
};
use crate::text::{holds, is_white_space, trimmed};

verus! {

/// The members of an object.
pub type Members = Seq<(Seq<char>, JsonModel)>;

/// Whether an object holds something under a key: the first time the key stands in it.
pub open spec fn holds_at(members: Members, key: Seq<char>, held: JsonModel) -> bool {
    exists|i: int|
        {
            &&& 0 <= i < members.len()
            &&& #[trigger] members[i] == (key, held)
            &&& forall|j: int| 0 <= j < i ==> (#[trigger] members[j]).0 != key
        }
}

/// Whether an object has no such key.
pub open spec fn has_no(members: Members, key: Seq<char>) -> bool {
    forall|j: int| 0 <= j < members.len() ==> (#[trigger] members[j]).0 != key
}

proof fn holding_is_finding(members: Members, key: Seq<char>)
    ensures
        member_position(members, key, 0) is None <==> has_no(members, key),
        member_position(members, key, 0) is Some ==> holds_at(members, key, held_at(members, key)),
        forall|held: JsonModel| #[trigger]
            holds_at(members, key, held) ==> member_position(members, key, 0) is Some && held_at(
                members,
                key,
            ) == held,
{
    member_position_is_first(members, key, 0);
    if let Some(i) = member_position(members, key, 0) {
        assert(members[i] == (key, held_at(members, key)));
    }
    assert forall|held: JsonModel| #[trigger] holds_at(members, key, held) implies member_position(
        members,
        key,
        0,
    ) is Some && held_at(members, key) == held by {
        let i = choose|i: int|
            {
                &&& 0 <= i < members.len()
                &&& #[trigger] members[i] == (key, held)
                &&& forall|j: int| 0 <= j < i ==> (#[trigger] members[j]).0 != key
            };
        if let Some(j) = member_position(members, key, 0) {
            if j < i {
                assert(members[j].0 != key);
            } else if i < j {
                assert(members[i].0 != key);
            }
        } else {
            assert(members[i].0 != key);
        }
    }
}

/// What an object holds under a key, or what it starts from where it has none.
pub open spec fn starts_from(members: Members, key: Seq<char>, start: JsonModel, held: JsonModel) -> bool {
    holds_at(members, key, held) || has_no(members, key) && held == start
}

proof fn what_is_ensured(members: Members, key: Seq<char>, start: JsonModel)
    ensures
        starts_from(members, key, start, held_at(ensured(members, key, start), key)),
        member_position(ensured(members, key, start), key, 0) is Some,
        forall|held: JsonModel| #[trigger]
            starts_from(members, key, start, held) ==> held == held_at(
                ensured(members, key, start),
                key,
            ),
{
    let ready = ensured(members, key, start);
    holding_is_finding(members, key);
    if member_position(members, key, 0) is None {
        assert(ready[members.len() as int] == (key, start));
        assert forall|j: int| 0 <= j < members.len() implies (#[trigger] ready[j]).0 != key by {
            assert(ready[j] == members[j]);
        }
        assert(holds_at(ready, key, start));
        holding_is_finding(ready, key);
    }
}

proof fn what_is_put(members: Members, key: Seq<char>, value: JsonModel)
    requires
        member_position(members, key, 0) is Some,
    ensures
        holds_at(with_held(members, key, value), key, value),
{
    member_position_is_first(members, key, 0);
    let i = member_position(members, key, 0)->0;
    let after = with_held(members, key, value);
    assert(after[i] == (key, value));
    assert forall|j: int| 0 <= j < i implies (#[trigger] after[j]).0 != key by {
        assert(after[j] == members[j]);
    }
}

/// A configuration in which Biskit is registered holds it under the key of its client. Where it was not
/// registered, it is registered with what was to be, behind what was; where it was, nothing is changed.
/// Only registrations that are no object are refused.
pub proof fn biskit_is_registered(members: Members, key: Seq<char>, entry: JsonModel, held: JsonModel)
    requires
        starts_from(members, key, JsonModel::Object(Seq::empty()), held),
    ensures
        match registered(members, key, entry) {
            Some((after, changed)) => {
                &&& held matches JsonModel::Object(servers)
                &&& changed <==> has_no(servers, "biskit"@)
                &&& holds_at(
                    after,
                    key,
                    JsonModel::Object(
                        if changed {
                            servers.push(("biskit"@, entry))
                        } else {
                            servers
                        },
                    ),
                )
            },
            None => !(held is Object),
        },
{
    let start = JsonModel::Object(Seq::empty());
    let ready = ensured(members, key, start);
    what_is_ensured(members, key, start);
    holding_is_finding(ready, key);
    if let JsonModel::Object(servers) = held {
        holding_is_finding(servers, "biskit"@);
        what_is_put(ready, key, JsonModel::Object(servers.push(("biskit"@, entry))));
    }
}

/// What is registered is the command that was given, run with `start`, and told to take the project from
/// the directory it runs in where that was asked for.
pub proof fn a_registration_runs_the_command(command: Seq<char>, project_from_cwd: bool)
    ensures
        server_entry_model(command, project_from_cwd) matches JsonModel::Object(entry) && {
            &&& holds_at(entry, "type"@, JsonModel::Text("stdio"@))
            &&& holds_at(entry, "command"@, JsonModel::Text(command))
            &&& exists|args: Seq<JsonModel>| #[trigger]
                holds_at(entry, "args"@, JsonModel::List(args)) && args.len() > 0 && args[0]
                    == JsonModel::Text("start"@) && (args.contains(
                    JsonModel::Text("--project-from-cwd"@),
                ) <==> project_from_cwd)
        },
{
    reveal_strlit("type");
    reveal_strlit("command");
    reveal_strlit("args");
    reveal_strlit("start");
    reveal_strlit("--project-from-cwd");
    let entry = server_entry_model(command, project_from_cwd)->Object_0;
    assert("type"@[0] != "command"@[0]);
    assert("type"@[0] != "args"@[0]);
    assert("command"@[0] != "args"@[0]);
    assert(entry[0] == ("type"@, JsonModel::Text("stdio"@)));
    assert(entry[1] == ("command"@, JsonModel::Text(command)));
    let args = entry[2].1->List_0;
    assert(entry[2] == ("args"@, JsonModel::List(args)));
    assert(holds_at(entry, "args"@, JsonModel::List(args)));
    assert("start"@[0] != "--project-from-cwd"@[0]);
    if project_from_cwd {
        assert(args[1] == JsonModel::Text("--project-from-cwd"@));
    } else {
        assert(args =~= seq![JsonModel::Text("start"@)]);
    }
}

/// The hook runs the command that was given: as it is, or in quotes where there is white space in it.
pub proof fn a_hook_runs_the_command(command: Seq<char>, project_from_cwd: bool)
    ensures
        ({
            let run = hook_command_of(command, project_from_cwd);
            let told = " hook session-start"@ + (if project_from_cwd {
                " --project-from-cwd"@
            } else {
                Seq::<char>::empty()
            });
            if exists|i: int| 0 <= i < command.len() && is_white_space(#[trigger] command[i]) {
                run == seq!['"'] + command + seq!['"'] + told
            } else {
                run == command + told
            }
        }),
        hook_block(command) matches JsonModel::Object(block) && (holds_at(
            block,
            "hooks"@,
            JsonModel::List(
                seq![
                    JsonModel::Object(
                        seq![
                            ("type"@, JsonModel::Text("command"@)),
                            ("command"@, JsonModel::Text(command)),
                        ],
                    ),
                ],
            ),
        )),
{
    reveal_strlit("\"");
    reveal_strlit("");
    let run = hook_command_of(command, project_from_cwd);
    let told = " hook session-start"@ + (if project_from_cwd {
        " --project-from-cwd"@
    } else {
        Seq::<char>::empty()
    });
    assert(""@ =~= Seq::<char>::empty());
    if exists|i: int| 0 <= i < command.len() && is_white_space(#[trigger] command[i]) {
        assert(run =~= seq!['"'] + command + seq!['"'] + told);
    } else {
        assert(run =~= command + told);
    }
    let block = hook_block(command)->Object_0;
    assert(block[0] == ("hooks"@, block[0].1));
}

/// Settings in which the hook is written hold it among the hooks of a session's start, behind those that
/// were there. Only what is no list there is refused.
pub proof fn the_hook_is_added(hooks: Members, block: JsonModel, held: JsonModel)
    requires
        starts_from(hooks, "SessionStart"@, JsonModel::List(Seq::empty()), held),
    ensures
        match hooked(hooks, block) {
            Some((after, changed)) => held matches JsonModel::List(blocks) && holds_at(
                after,
                "SessionStart"@,
                JsonModel::List(
                    if changed {
                        blocks.push(block)
                    } else {
                        blocks
                    },
                ),
            ),
            None => !(held is List),
        },
{
    let key = "SessionStart"@;
    let start = JsonModel::List(Seq::empty());
    let ready = ensured(hooks, key, start);
    what_is_ensured(hooks, key, start);
    holding_is_finding(ready, key);
    if let JsonModel::List(blocks) = held {
        what_is_put(ready, key, JsonModel::List(blocks.push(block)));
    }
}

/// The hooks are part of the settings, under their key.
pub proof fn the_hooks_are_in_the_settings(members: Members, block: JsonModel, held: JsonModel)
    requires
        starts_from(members, "hooks"@, JsonModel::Object(Seq::empty()), held),
    ensures
        match settings_hooked(members, block) {
            Ok((after, changed)) => held matches JsonModel::Object(hooks) && (hooked(hooks, block)
                matches Some((now, did)) && did == changed && holds_at(
                after,
                "hooks"@,
                JsonModel::Object(now),
            )),
            Err(_) => held matches JsonModel::Object(hooks) ==> hooked(hooks, block) is None,
        },
{
    let key = "hooks"@;
    let start = JsonModel::Object(Seq::empty());
    let ready = ensured(members, key, start);
    what_is_ensured(members, key, start);
    if let JsonModel::Object(hooks) = held {
        if let Some((now, _)) = hooked(hooks, block) {
            what_is_put(ready, key, JsonModel::Object(now));
        }
    }
}

/// Settings that approve Biskit name it among the approved servers, behind those that were there, and once
/// only. Only what is no list there is refused.
pub proof fn biskit_is_approved(members: Members, held: JsonModel)
    requires
        starts_from(members, "enabledMcpjsonServers"@, JsonModel::List(Seq::empty()), held),
    ensures
        match approved(members) {
            Some((after, changed)) => {
                &&& held matches JsonModel::List(enabled)
                &&& changed <==> !enabled.contains(JsonModel::Text("biskit"@))
                &&& holds_at(
                    after,
                    "enabledMcpjsonServers"@,
                    JsonModel::List(
                        if changed {
                            enabled.push(JsonModel::Text("biskit"@))
                        } else {
                            enabled
                        },
                    ),
                )
            },
            None => !(held is List),
        },
{
    let key = "enabledMcpjsonServers"@;
    let start = JsonModel::List(Seq::empty());
    let ready = ensured(members, key, start);
    what_is_ensured(members, key, start);
    holding_is_finding(ready, key);
    if let JsonModel::List(enabled) = held {
        what_is_put(ready, key, JsonModel::List(enabled.push(JsonModel::Text("biskit"@))));
    }
}

// ---------------------------------------------------------------------------
// Steps

/// Whether two steps tell the same of a file, and the first writes nothing.
pub open spec fn only_tells(
    dry: Result<(StepModel, Option<Seq<char>>), FailureModel>,
    wet: Result<(StepModel, Option<Seq<char>>), FailureModel>,
) -> bool {
    &&& dry matches Ok((_, to_write)) ==> to_write is None
    &&& wet matches Ok((step, to_write)) ==> (dry matches Ok((told, _)) && told == step && (to_write
        is Some <==> step.changed))
    &&& wet matches Ok((step, _)) ==> (step.created ==> step.changed)
}

/// A dry run tells what would be done and writes nothing. A file is written exactly where something of it
/// changes, and created only where there was none.
pub proof fn a_dry_run_writes_nothing(
    client: Client,
    clients: Seq<Client>,
    command: Seq<char>,
    project_from_cwd: bool,
    path: Seq<char>,
    text: Option<Seq<char>>,
)
    ensures
        only_tells(
            client_result(client, command, project_from_cwd, true, path, text),
            client_result(client, command, project_from_cwd, false, path, text),
        ),
        only_tells(
            hooks_result(clients, command, project_from_cwd, true, path, text),
            hooks_result(clients, command, project_from_cwd, false, path, text),
        ),
        client_result(client, command, project_from_cwd, false, path, text) matches Ok((step, _))
            ==> step.path == path && (step.created <==> step.changed && text is None),
        hooks_result(clients, command, project_from_cwd, false, path, text) matches Ok((step, _))
            ==> step.path == path && (step.created <==> step.changed && text is None),
{
}

/// A file that is not there starts from nothing, and so does one that says nothing. Anything but an object
/// is refused.
pub proof fn a_file_is_an_object_or_refused(path: Seq<char>, text: Option<Seq<char>>)
    ensures
        object_in(path, text) matches Ok(None) <==> text is None,
        text matches Some(raw) ==> (trimmed(raw).len() == 0 ==> (object_in(path, text) matches Ok(
            Some(members),
        ) && members.len() == 0)),
{
}

// ---------------------------------------------------------------------------
// Clients

proof fn present_ones_are_picked(traces: Traces, n: int) -> (at: Seq<int>)
    requires
        0 <= n <= 3,
    ensures
        picks(at, all_clients(), present_clients(traces, n)),
        forall|k: int| 0 <= k < at.len() ==> #[trigger] at[k] < n,
        forall|i: int|
            0 <= i < n ==> (#[trigger] at.contains(i) <==> is_present_in(all_clients()[i], traces)),
    decreases n,
{
    if n <= 0 {
        Seq::empty()
    } else {
        let before = present_ones_are_picked(traces, n - 1);
        if is_present_in(all_clients()[n - 1], traces) {
            one_more_is_picked(before, n - 1);
            before.push(n - 1)
        } else {
            before
        }
    }
}

/// The clients of a project are those whose directory stands in it, in the order they are listed.
pub proof fn a_client_is_known_by_its_directory(traces: Traces, client: Client)
    ensures
        present_clients(traces, 3).contains(client) <==> match client {
            Client::Claude => traces.claude_directory,
            Client::Cursor => traces.cursor_directory,
            Client::VsCode => traces.vscode_directory,
        },
        present_clients(traces, 3).no_duplicates(),
{
    let at = present_ones_are_picked(traces, 3);
    let found = present_clients(traces, 3);
    let i: int = match client {
        Client::Claude => 0,
        Client::Cursor => 1,
        Client::VsCode => 2,
    };
    assert(all_clients()[i] == client);
    assert(at.contains(i) <==> is_present_in(client, traces));
    if at.contains(i) {
        let k = choose|k: int| 0 <= k < at.len() && at[k] == i;
        assert(found[k] == client);
    }
    if found.contains(client) {
        let k = choose|k: int| 0 <= k < found.len() && found[k] == client;
        assert(all_clients()[at[k]] == client);
        assert(at[k] == i);
    }
    assert forall|j: int, k: int| 0 <= j < found.len() && 0 <= k < found.len() && j != k implies found[j]
        != found[k] by {
        assert(found[j] == all_clients()[at[j]]);
        assert(found[k] == all_clients()[at[k]]);
        if j < k {
            assert(at[j] < at[k]);
        } else {
            assert(at[k] < at[j]);
        }
    }
}

/// Each client keeps its registrations in a file of its own.
pub proof fn each_client_has_its_file(client: Client, other: Client)
    requires
        client != other,
    ensures
        config_file(client) != config_file(other),
        servers_key_of(Client::VsCode) != servers_key_of(Client::Cursor),
        servers_key_of(Client::Claude) == servers_key_of(Client::Cursor),
{
    reveal_strlit(".mcp.json");
    reveal_strlit(".cursor/mcp.json");
    reveal_strlit(".vscode/mcp.json");
    reveal_strlit("mcpServers");
    reveal_strlit("servers");
    assert(".mcp.json"@[1] != ".cursor/mcp.json"@[1]);
    assert(".mcp.json"@[1] != ".vscode/mcp.json"@[1]);
    assert(".cursor/mcp.json"@[1] != ".vscode/mcp.json"@[1]);
    assert("mcpServers"@[0] != "servers"@[0]);
}

/// Whether a hook runs Biskit at a session's start: among what it runs is a command that names both.
pub open spec fn starts_biskit(block: JsonModel) -> bool {
    block matches JsonModel::Object(members) && exists|entries: Seq<JsonModel>, i: int|
        {
            &&& #[trigger] holds_at(members, "hooks"@, JsonModel::List(entries))
            &&& 0 <= i < entries.len()
            &&& #[trigger] runs_biskit(entries[i])
        }
}

/// Whether an entry of a hook is a command that names Biskit and the start of a session.
pub open spec fn runs_biskit(entry: JsonModel) -> bool {
    entry matches JsonModel::Object(said) && exists|command: Seq<char>|
        {
            &&& #[trigger] holds_at(said, "command"@, JsonModel::Text(command))
            &&& holds(command, "biskit-mcp"@)
            &&& holds(command, "hook session-start"@)
        }
}

/// A hook is taken for Biskit's where one of its commands names both Biskit and the start of a session, and
/// only there.
pub proof fn a_hook_is_known_by_its_command(block: JsonModel)
    ensures
        is_session_start(block) <==> starts_biskit(block),
{
    if let JsonModel::Object(members) = block {
        holding_is_finding(members, "hooks"@);
        if let Some(JsonModel::List(entries)) = member(block, "hooks"@) {
            assert(holds_at(members, "hooks"@, JsonModel::List(entries)));
            assert forall|i: int| 0 <= i < entries.len() implies #[trigger] runs_biskit(entries[i])
                == runs_session_start(entries[i]) by {
                if let JsonModel::Object(said) = entries[i] {
                    holding_is_finding(said, "command"@);
                    if let Some(JsonModel::Text(command)) = member(entries[i], "command"@) {
                        assert(holds_at(said, "command"@, JsonModel::Text(command)));
                    }
                }
            }
            if is_session_start(block) {
                let i = choose|i: int|
                    0 <= i < entries.len() && runs_session_start(#[trigger] entries[i]);
                assert(runs_biskit(entries[i]));
            }
            if starts_biskit(block) {
                let (held, i) = choose|held: Seq<JsonModel>, i: int|
                    {
                        &&& #[trigger] holds_at(members, "hooks"@, JsonModel::List(held))
                        &&& 0 <= i < held.len()
                        &&& #[trigger] runs_biskit(held[i])
                    };
                assert(held == entries);
                assert(runs_session_start(entries[i]));
            }
        }
    }
}

} // verus!
