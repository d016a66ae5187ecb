//! What holds of every answer about one module.
use vstd::prelude::*;
use super::context::{
    context_notes, context_of, counts_labels, is_client_root, is_server_root, is_shared_root,
    not_scanned_note, not_synced_note, occurrences, role_model,
};
use super::require_graph::Direction;
use super::require_graph::building::{built_graph, BuildModel};
use super::require_graph::graph::{module_found, ModuleModel, ReachedModel};
use super::require_graph::graph_laws::{
    a_built_graph_is_two_way, a_cut_walk_reports_what_comes_first, a_path_names_its_module,
    a_walk_follows_requires, a_walk_reports_the_modules_in_reach, is_cut_report, is_told_require,
    is_two_way, report_all, reports, requires_module, room_for_all_leaves_none_out, tells_module,
};
use super::require_graph::walk_laws::{linked, reaches, within};
use super::sourcemap::{nodes_of_file, normalized, tree_wf, NodeModel, ReferenceModel};
use super::sourcemap_laws::{
    a_node_has_its_service, files_lead_back_to_their_instances, is_service_of,
};
use crate::picking::{one_more_is_picked, rises};

verus! {

proof fn one_require_away(g: Seq<ModuleModel>, direction: Direction, start: int, t: int)
    ensures
        within(g, direction, start, t, 1) <==> t == start || linked(g, direction, start, t),
        reaches(g, direction, start, t, 1) <==> linked(g, direction, start, t),
{
    assert(reaches(g, direction, start, start, 0));
    if linked(g, direction, start, t) {
        assert(reaches(g, direction, start, t, 1));
    }
    if reaches(g, direction, start, t, 1) {
        let mid = choose|mid: int|
            reaches(g, direction, start, mid, 0) && #[trigger] linked(g, direction, mid, t);
        assert(mid == start);
    }
    if t == start {
        assert(reaches(g, direction, start, t, 0));
    }
    if within(g, direction, start, t, 1) {
        let k = choose|k: int| 0 <= k <= 1 && #[trigger] reaches(g, direction, start, t, k);
        if k == 0 {
            assert(t == start);
        }
    }
}

/// Whether entries tell the modules listed, each once, by a require between that module and one module.
pub open spec fn tell_neighbours(
    entries: Seq<ReachedModel>,
    modules: Seq<int>,
    g: Seq<ModuleModel>,
    t: int,
    required: bool,
) -> bool {
    &&& modules.len() == entries.len()
    &&& modules.no_duplicates()
    &&& forall|k: int|
        0 <= k < modules.len() ==> {
            let i = #[trigger] modules[k];
            &&& entries[k].relative_path == g[i].relative_path
            &&& entries[k].instance_path == g[i].instance_path
            &&& entries[k].depth == 1
            &&& entries[k].from is None
            &&& if required {
                is_told_require(entries[k], g, t, i)
            } else {
                is_told_require(entries[k], g, i, t)
            }
        }
}

proof fn a_report_of_one_hop_tells_neighbours(
    entries: Seq<ReachedModel>,
    g: Seq<ModuleModel>,
    direction: Direction,
    t: int,
) -> (modules: Seq<int>)
    requires
        is_two_way(g),
        0 <= t < g.len(),
        report_all(entries, g, direction, t, 1),
    ensures
        tell_neighbours(entries, modules, g, t, direction == Direction::Dependencies),
        forall|i: int|
            #[trigger] modules.contains(i) <==> 0 <= i < g.len() && i != t && (if direction
                == Direction::Dependencies {
                requires_module(g, t, i)
            } else {
                requires_module(g, i, t)
            }),
{
    let modules = choose|modules: Seq<int>| #[trigger] reports(entries, modules, g, direction, t, 1);
    assert forall|i: int| #[trigger] modules.contains(i) <==> 0 <= i < g.len() && i != t && (
    if direction == Direction::Dependencies {
        requires_module(g, t, i)
    } else {
        requires_module(g, i, t)
    }) by {
        one_require_away(g, direction, t, i);
        a_walk_follows_requires(g, t, i);
        if requires_module(g, t, i) {
            let e = choose|e: int|
                0 <= e < g[t].dependencies.len() && (#[trigger] g[t].dependencies[e]).target == i;
            assert(0 <= g[t].dependencies[e].target < g.len());
        }
    }
    assert forall|k: int| 0 <= k < modules.len() implies {
        let i = #[trigger] modules[k];
        &&& entries[k].relative_path == g[i].relative_path
        &&& entries[k].instance_path == g[i].instance_path
        &&& entries[k].depth == 1
        &&& entries[k].from is None
        &&& if direction == Direction::Dependencies {
            is_told_require(entries[k], g, t, i)
        } else {
            is_told_require(entries[k], g, i, t)
        }
    } by {
        let i = modules[k];
        assert(modules.contains(i));
        assert(tells_module(entries[k], g, direction, t, i));
        one_require_away(g, direction, t, i);
        let depth = entries[k].depth as int;
        assert(reaches(g, direction, t, i, 1));
        if depth > 1 {
            assert(within(g, direction, t, i, depth - 1));
        }
        let from = choose|from: int|
            {
                &&& #[trigger] super::require_graph::walk_laws::distance_is(
                    g,
                    direction,
                    t,
                    from,
                    entries[k].depth - 1,
                )
                &&& entries[k].from == (if entries[k].depth > 1 {
                    Some(g[from].relative_path)
                } else {
                    None
                })
                &&& match direction {
                    Direction::Dependencies => is_told_require(entries[k], g, from, i),
                    Direction::Dependents => is_told_require(entries[k], g, i, from),
                }
            };
        assert(from == t);
    }
    modules
}

/// With room for every module, what a module requires is listed as exactly the modules it has a require
/// of, and what requires it as exactly the modules with a require of it: each once, told with such a
/// require, and never the module itself.
pub proof fn neighbours_are_listed_on_both_sides(
    nodes: Seq<NodeModel>,
    b: BuildModel,
    relative: Seq<char>,
    max_entries: int,
    sourcemap: ReferenceModel,
    t: int,
)
    requires
        0 <= t < b.files.len() <= max_entries,
        built_graph(b)[t].relative_path == normalized(relative),
        forall|j: int|
            0 <= j < b.files.len() && j != t ==> (#[trigger] built_graph(b)[j]).relative_path
                != normalized(relative),
    ensures
        ({
            let g = built_graph(b);
            let told = context_of(nodes, g, relative, max_entries, sourcemap);
            &&& exists|modules: Seq<int>|
                {
                    &&& #[trigger] tell_neighbours(told.requires_directly, modules, g, t, true)
                    &&& forall|i: int|
                        #[trigger] modules.contains(i) <==> 0 <= i < g.len() && i != t
                            && requires_module(g, t, i)
                }
            &&& exists|modules: Seq<int>|
                {
                    &&& #[trigger] tell_neighbours(told.required_by, modules, g, t, false)
                    &&& forall|i: int|
                        #[trigger] modules.contains(i) <==> 0 <= i < g.len() && i != t
                            && requires_module(g, i, t)
                }
        }),
{
    let g = built_graph(b);
    a_built_graph_is_two_way(b);
    a_path_names_its_module(g, relative, g.len() as int);
    assert(module_found(g, relative) == Some(t));
    room_for_all_leaves_none_out(g, t, Direction::Dependencies, 1, max_entries);
    room_for_all_leaves_none_out(g, t, Direction::Dependents, 1, max_entries);
    a_walk_reports_the_modules_in_reach(g, t, Direction::Dependencies, 1, max_entries);
    a_walk_reports_the_modules_in_reach(g, t, Direction::Dependents, 1, max_entries);
    let told = context_of(nodes, g, relative, max_entries, sourcemap);
    let ahead = a_report_of_one_hop_tells_neighbours(
        told.requires_directly,
        g,
        Direction::Dependencies,
        t,
    );
    let back = a_report_of_one_hop_tells_neighbours(told.required_by, g, Direction::Dependents, t);
    assert(tell_neighbours(told.requires_directly, ahead, g, t, true));
    assert(tell_neighbours(told.required_by, back, g, t, false));
}

/// Whether entries tell a path.
pub open spec fn list_path(entries: Seq<ReachedModel>, path: Seq<char>) -> bool {
    exists|k: int| 0 <= k < entries.len() && (#[trigger] entries[k]).relative_path == path
}

/// Of two modules of different paths, the one lists the other among what requires it exactly where the
/// other lists the one among what it requires.
pub proof fn both_sides_agree(
    nodes: Seq<NodeModel>,
    b: BuildModel,
    one: Seq<char>,
    other: Seq<char>,
    max_entries: int,
    sourcemap: ReferenceModel,
    t: int,
    i: int,
)
    requires
        b.files.len() <= max_entries,
        0 <= t < b.files.len(),
        0 <= i < b.files.len(),
        i != t,
        forall|j: int, k: int|
            0 <= j < k < b.files.len() ==> (#[trigger] built_graph(b)[j]).relative_path != (
            #[trigger] built_graph(b)[k]).relative_path,
        built_graph(b)[t].relative_path == normalized(one),
        built_graph(b)[i].relative_path == normalized(other),
    ensures
        ({
            let g = built_graph(b);
            let of_one = context_of(nodes, g, one, max_entries, sourcemap);
            let of_other = context_of(nodes, g, other, max_entries, sourcemap);
            &&& list_path(of_one.required_by, g[i].relative_path) <==> list_path(
                of_other.requires_directly,
                g[t].relative_path,
            )
            &&& list_path(of_one.required_by, g[i].relative_path) <==> requires_module(g, i, t)
        }),
{
    let g = built_graph(b);
    neighbours_are_listed_on_both_sides(nodes, b, one, max_entries, sourcemap, t);
    neighbours_are_listed_on_both_sides(nodes, b, other, max_entries, sourcemap, i);
    let back = context_of(nodes, g, one, max_entries, sourcemap).required_by;
    let ahead = context_of(nodes, g, other, max_entries, sourcemap).requires_directly;
    let behind = choose|modules: Seq<int>|
        {
            &&& #[trigger] tell_neighbours(back, modules, g, t, false)
            &&& forall|k: int|
                #[trigger] modules.contains(k) <==> 0 <= k < g.len() && k != t && requires_module(
                    g,
                    k,
                    t,
                )
        };
    let before = choose|modules: Seq<int>|
        {
            &&& #[trigger] tell_neighbours(ahead, modules, g, i, true)
            &&& forall|k: int|
                #[trigger] modules.contains(k) <==> 0 <= k < g.len() && k != i && requires_module(
                    g,
                    i,
                    k,
                )
        };
    if list_path(back, g[i].relative_path) {
        let k = choose|k: int|
            0 <= k < back.len() && (#[trigger] back[k]).relative_path == g[i].relative_path;
        assert(behind.contains(behind[k]));
        assert(behind[k] == i);
    }
    if list_path(ahead, g[t].relative_path) {
        let k = choose|k: int|
            0 <= k < ahead.len() && (#[trigger] ahead[k]).relative_path == g[t].relative_path;
        assert(before.contains(before[k]));
        assert(before[k] == t);
    }
    if requires_module(g, i, t) {
        assert(behind.contains(i));
        let k = choose|k: int| 0 <= k < behind.len() && behind[k] == i;
        assert(back[k].relative_path == g[i].relative_path);
        assert(before.contains(t));
        let m = choose|m: int| 0 <= m < before.len() && before[m] == t;
        assert(ahead[m].relative_path == g[t].relative_path);
    }
}

/// With less room, both lists are what the full ones begin with; and the unresolved requires are the
/// first of the module's own, each with its line, its text and its reason.
pub proof fn less_room_cuts_the_lists(
    nodes: Seq<NodeModel>,
    b: BuildModel,
    relative: Seq<char>,
    max_entries: int,
    sourcemap: ReferenceModel,
    t: int,
)
    requires
        0 <= t < b.files.len(),
        0 <= max_entries,
        built_graph(b)[t].relative_path == normalized(relative),
        forall|j: int|
            0 <= j < b.files.len() && j != t ==> (#[trigger] built_graph(b)[j]).relative_path
                != normalized(relative),
    ensures
        ({
            let g = built_graph(b);
            let told = context_of(nodes, g, relative, max_entries, sourcemap);
            &&& is_cut_report(
                told.requires_directly,
                g,
                Direction::Dependencies,
                t,
                1,
                max_entries,
            )
            &&& is_cut_report(told.required_by, g, Direction::Dependents, t, 1, max_entries)
            &&& told.unresolved_requires.len() == (if g[t].unresolved.len() <= max_entries {
                g[t].unresolved.len() as int
            } else {
                max_entries
            })
            &&& forall|k: int|
                0 <= k < told.unresolved_requires.len() ==> {
                    let entry = #[trigger] told.unresolved_requires[k];
                    &&& entry.relative_path == g[t].relative_path
                    &&& entry.line == g[t].unresolved[k].line
                    &&& entry.expression == g[t].unresolved[k].expression
                    &&& entry.reason == g[t].unresolved[k].reason
                }
        }),
{
    let g = built_graph(b);
    a_built_graph_is_two_way(b);
    a_path_names_its_module(g, relative, g.len() as int);
    assert(module_found(g, relative) == Some(t));
    a_cut_walk_reports_what_comes_first(g, t, Direction::Dependencies, 1, max_entries);
    a_cut_walk_reports_what_comes_first(g, t, Direction::Dependents, 1, max_entries);
}

/// What is told of a module itself is told of an instance its file is built into: its path, its class,
/// the service it stands under, and from that where its code runs. Where it is built into none, a note
/// says so and nothing of it is told; where the graph does not hold the file, a note says so and no module
/// is listed. The answer names the file it was asked about and the sourcemap it was answered from.
pub proof fn a_module_is_told_from_its_instance(
    nodes: Seq<NodeModel>,
    g: Seq<ModuleModel>,
    relative: Seq<char>,
    max_entries: int,
    sourcemap: ReferenceModel,
    api_error: Option<Seq<char>>,
    diagnostics_error: Option<Seq<char>>,
)
    requires
        tree_wf(nodes),
    ensures
        ({
            let told = context_of(nodes, g, relative, max_entries, sourcemap);
            let notes = context_notes(nodes, g, relative, api_error, diagnostics_error);
            let file = normalized(relative);
            let built = exists|i: int|
                0 <= i < nodes.len() && (#[trigger] nodes[i]).file_paths.contains(file);
            let scanned = exists|j: int|
                0 <= j < g.len() && (#[trigger] g[j]).relative_path == file;
            &&& told.relative_path == relative
            &&& told.sourcemap == sourcemap
            &&& told.role == role_model(told.service)
            &&& built ==> told.instance_path is Some
            &&& match told.instance_path {
                Some(path) => exists|i: int|
                    {
                        &&& 0 <= i < nodes.len()
                        &&& (#[trigger] nodes[i]).instance_path == path
                        &&& built ==> nodes[i].file_paths.contains(file)
                        &&& told.class_name == Some(nodes[i].class_name)
                        &&& is_service_of(told.service, nodes, i)
                    },
                None => {
                    &&& told.class_name is None
                    &&& told.service is None
                    &&& told.role == "unknown"@
                    &&& notes.contains(not_synced_note())
                },
            }
            &&& !scanned ==> {
                &&& told.requires_directly.len() == 0
                &&& told.required_by.len() == 0
                &&& told.unresolved_requires.len() == 0
                &&& notes.contains(not_scanned_note())
            }
            &&& api_error matches Some(error) ==> notes.contains(
                "the public surface could not be read: "@ + error,
            )
            &&& diagnostics_error matches Some(error) ==> notes.contains(
                "diagnostics could not be read: "@ + error,
            )
            &&& told.instance_path is Some && scanned && api_error is None && diagnostics_error is None
                ==> notes.len() == 0
        }),
{
    let told = context_of(nodes, g, relative, max_entries, sourcemap);
    let notes = context_notes(nodes, g, relative, api_error, diagnostics_error);
    files_lead_back_to_their_instances(nodes, relative);
    a_path_names_its_module(g, relative, g.len() as int);
    let file = normalized(relative);
    let found = nodes_of_file(nodes, relative);
    if exists|i: int| 0 <= i < nodes.len() && (#[trigger] nodes[i]).file_paths.contains(file) {
        let i = choose|i: int|
            0 <= i < nodes.len() && (#[trigger] nodes[i]).file_paths.contains(file);
        assert(found.contains(i));
    }
    if found.len() > 0 {
        assert(found.contains(found[0]));
        a_node_has_its_service(nodes, found[0]);
        assert(nodes[found[0]].instance_path == told.instance_path->0);
    } else {
        assert(notes[0] == not_synced_note());
    }
    let synced = if found.len() == 0 {
        1int
    } else {
        0int
    };
    if module_found(g, relative) is None {
        assert(notes[synced] == not_scanned_note());
    }
    let scanned = synced + if module_found(g, relative) is None {
        1int
    } else {
        0int
    };
    if let Some(error) = api_error {
        assert(notes[scanned] == "the public surface could not be read: "@ + error);
    }
    if let Some(error) = diagnostics_error {
        assert(notes[notes.len() - 1] == "diagnostics could not be read: "@ + error);
    }
}

/// Code runs on the server under the services of the server, on the client under those of players, and on
/// both under the shared ones; anywhere else it is not known where.
pub proof fn a_service_decides_where_code_runs(service: Seq<char>)
    ensures
        role_model(None) == "unknown"@,
        role_model(Some(service)) == "server"@ <==> seq![
            "ServerScriptService"@,
            "ServerStorage"@,
            "RobloxServerStorage"@,
            "ServerPackages"@,
        ].contains(service),
        role_model(Some(service)) == "client"@ <==> seq![
            "StarterPlayer"@,
            "StarterGui"@,
            "StarterPack"@,
            "StarterCharacterScripts"@,
        ].contains(service),
        role_model(Some(service)) == "shared"@ <==> seq![
            "ReplicatedStorage"@,
            "ReplicatedFirst"@,
            "Workspace"@,
            "Lighting"@,
            "SoundService"@,
            "TextChatService"@,
        ].contains(service),
        seq!["server"@, "client"@, "shared"@, "unknown"@].contains(role_model(Some(service))),
{
    reveal_strlit("server");
    reveal_strlit("client");
    reveal_strlit("shared");
    reveal_strlit("unknown");
    reveal_strlit("ServerScriptService");
    reveal_strlit("ServerStorage");
    reveal_strlit("RobloxServerStorage");
    reveal_strlit("ServerPackages");
    reveal_strlit("StarterPlayer");
    reveal_strlit("StarterGui");
    reveal_strlit("StarterPack");
    reveal_strlit("StarterCharacterScripts");
    reveal_strlit("ReplicatedStorage");
    reveal_strlit("ReplicatedFirst");
    reveal_strlit("Workspace");
    reveal_strlit("Lighting");
    reveal_strlit("SoundService");
    reveal_strlit("TextChatService");
    let on_server = seq![
        "ServerScriptService"@,
        "ServerStorage"@,
        "RobloxServerStorage"@,
        "ServerPackages"@,
    ];
    let on_client = seq![
        "StarterPlayer"@,
        "StarterGui"@,
        "StarterPack"@,
        "StarterCharacterScripts"@,
    ];
    let on_both = seq![
        "ReplicatedStorage"@,
        "ReplicatedFirst"@,
        "Workspace"@,
        "Lighting"@,
        "SoundService"@,
        "TextChatService"@,
    ];
    let roles = seq!["server"@, "client"@, "shared"@, "unknown"@];
    assert("server"@[1] == 'e' && "client"@[1] == 'l' && "shared"@[1] == 'h' && "unknown"@[1] == 'n');
    assert(roles[0] == "server"@ && roles[1] == "client"@ && roles[2] == "shared"@ && roles[3]
        == "unknown"@);
    assert(on_server[0] == "ServerScriptService"@ && on_server[1] == "ServerStorage"@ && on_server[2]
        == "RobloxServerStorage"@ && on_server[3] == "ServerPackages"@);
    assert(on_client[0] == "StarterPlayer"@ && on_client[1] == "StarterGui"@ && on_client[2]
        == "StarterPack"@ && on_client[3] == "StarterCharacterScripts"@);
    assert(on_both[0] == "ReplicatedStorage"@ && on_both[1] == "ReplicatedFirst"@ && on_both[2]
        == "Workspace"@ && on_both[3] == "Lighting"@ && on_both[4] == "SoundService"@ && on_both[5]
        == "TextChatService"@);
    assert(on_server.contains(service) <==> is_server_root(service));
    assert(on_client.contains(service) <==> is_client_root(service));
    assert(on_both.contains(service) <==> is_shared_root(service));
    if is_server_root(service) {
        assert(service[1] == 'e' || service[1] == 'o');
        assert(service[0] == 'S' || service[0] == 'R');
    }
    if is_client_root(service) {
        assert(service[0] == 'S' && service[1] == 't');
    }
    if is_shared_root(service) {
        assert(service[0] != 'S' || service[1] == 'o');
        assert(service[0] != 'R' || service[1] == 'e');
    }
}

proof fn occurrences_are_picked(labels: Seq<Seq<char>>, label: Seq<char>, n: int) -> (at: Seq<int>)
    requires
        0 <= n <= labels.len(),
    ensures
        at.len() == occurrences(labels, label, n),
        rises(at),
        forall|k: int| 0 <= k < at.len() ==> 0 <= #[trigger] at[k] < n,
        forall|i: int| 0 <= i < n ==> (#[trigger] at.contains(i) <==> labels[i] == label),
    decreases n,
{
    if n <= 0 {
        Seq::empty()
    } else {
        let before = occurrences_are_picked(labels, label, n - 1);
        if labels[n - 1] == label {
            one_more_is_picked(before, n - 1);
            before.push(n - 1)
        } else {
            before
        }
    }
}

/// Diagnostics are counted by their label: a label has as many as there are places it stands at, and one
/// that stands nowhere has no count.
pub proof fn a_label_counts_its_places(
    counts: Map<Seq<char>, usize>,
    labels: Seq<Seq<char>>,
    label: Seq<char>,
) -> (at: Seq<int>)
    requires
        counts_labels(counts, labels, labels.len() as int),
    ensures
        rises(at),
        forall|k: int| 0 <= k < at.len() ==> 0 <= #[trigger] at[k] < labels.len(),
        forall|i: int| 0 <= i < labels.len() ==> (#[trigger] at.contains(i) <==> labels[i] == label),
        counts.contains_key(label) <==> labels.contains(label),
        counts.contains_key(label) ==> counts[label] == at.len(),
{
    let at = occurrences_are_picked(labels, label, labels.len() as int);
    assert(counts.contains_key(label) <==> at.len() > 0);
    if at.len() > 0 {
        assert(at.contains(at[0]));
        assert(labels[at[0]] == label);
    }
    if labels.contains(label) {
        let i = choose|i: int| 0 <= i < labels.len() && labels[i] == label;
        assert(at.contains(i));
    }
    at
}

} // verus!
