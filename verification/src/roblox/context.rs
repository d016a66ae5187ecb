//! What an unfamiliar module is, in one answer.
use vstd::prelude::*;
use super::require_graph::graph::{
    all_reported, entries_of_module, module_entries, module_found, walk_from, ModuleModel,
    ReachedModel, ReachedModule, RequireGraph, UnresolvedEntry, UnresolvedEntryModel,
};
use super::require_graph::Direction;
use super::sourcemap::{
    nodes_of_file, reference_model, service_name, NodeModel, ReferenceModel, Sourcemap,
    SourcemapReference,
};
use crate::errors::{hinted, hinted_failure, Failure};
use crate::text::{owned, same_text};
use crate::text_map::TextMap;

verus! {

/// Everything an agent works out about an unfamiliar module before it can safely touch it. `A` is
/// what the language server says of a module's public surface.
#[derive(Debug)]
pub struct ModuleContext<A> {
    pub relative_path: String,
    pub instance_path: Option<String>,
    pub class_name: Option<String>,
    /// The top-level service the module sits under.
    pub service: Option<String>,
    /// Where the code runs: `server`, `client`, `shared`, or `unknown`.
    pub role: &'static str,
    /// What it requires, directly.
    pub requires_directly: Vec<ReachedModule>,
    /// What requires it, directly.
    pub required_by: Vec<ReachedModule>,
    pub unresolved_requires: Vec<UnresolvedEntry>,
    /// Its public surface, when it is a ModuleScript.
    pub api: Option<A>,
    /// How many diagnostics it currently carries, by severity.
    pub diagnostics: TextMap<usize>,
    pub sourcemap: SourcemapReference,
    /// Anything that made the answer less complete than it looks.
    pub notes: Vec<String>,
}

/// What an answer holds that does not come from the language server.
pub struct ContextModel {
    pub relative_path: Seq<char>,
    pub instance_path: Option<Seq<char>>,
    pub class_name: Option<Seq<char>>,
    pub service: Option<Seq<char>>,
    pub role: Seq<char>,
    pub requires_directly: Seq<ReachedModel>,
    pub required_by: Seq<ReachedModel>,
    pub unresolved_requires: Seq<UnresolvedEntryModel>,
    pub sourcemap: ReferenceModel,
}

impl<A> ModuleContext<A> {
    /// What the answer holds that does not come from the language server.
    pub open spec fn model(&self) -> ContextModel {
        ContextModel {
            relative_path: self.relative_path@,
            instance_path: self.instance_path.deep_view(),
            class_name: self.class_name.deep_view(),
            service: self.service.deep_view(),
            role: self.role@,
            requires_directly: self.requires_directly.deep_view(),
            required_by: self.required_by.deep_view(),
            unresolved_requires: self.unresolved_requires.deep_view(),
            sourcemap: self.sourcemap.deep_view(),
        }
    }
}

/// The note on a file that the sourcemap does not hold.
pub open spec fn not_synced_note() -> Seq<char> {
    "this file is not in the sourcemap, so it is not synced into the game by the rojo project and editing it changes nothing at runtime, unless the sourcemap is simply out of date."@
}

/// The note on a file that the require graph does not hold.
pub open spec fn not_scanned_note() -> Seq<char> {
    "this file is outside the set Biskit scans, so its requires and its dependents are not known. Check project.ignored_paths."@
}

/// The services whose code runs on the server.
pub open spec fn is_server_root(service: Seq<char>) -> bool {
    ||| service == "ServerScriptService"@
    ||| service == "ServerStorage"@
    ||| service == "RobloxServerStorage"@
    ||| service == "ServerPackages"@
}

/// The services whose code runs on the client.
pub open spec fn is_client_root(service: Seq<char>) -> bool {
    ||| service == "StarterPlayer"@
    ||| service == "StarterGui"@
    ||| service == "StarterPack"@
    ||| service == "StarterCharacterScripts"@
}

/// The services whose code runs on both.
pub open spec fn is_shared_root(service: Seq<char>) -> bool {
    ||| service == "ReplicatedStorage"@
    ||| service == "ReplicatedFirst"@
    ||| service == "Workspace"@
    ||| service == "Lighting"@
    ||| service == "SoundService"@
    ||| service == "TextChatService"@
}

/// Where the code under a service runs.
pub open spec fn role_model(service: Option<Seq<char>>) -> Seq<char> {
    match service {
        None => "unknown"@,
        Some(name) => if is_server_root(name) {
            "server"@
        } else if is_client_root(name) {
            "client"@
        } else if is_shared_root(name) {
            "shared"@
        } else {
            "unknown"@
        },
    }
}

/// Where the code under a service runs: `server`, `client`, `shared`, or `unknown`.
pub fn role_of(service: Option<&str>) -> (r: &'static str)
    ensures
        r@ == role_model(service.deep_view()),
{
    let name = match service {
        Some(name) => name,
        None => {
            return "unknown";
        },
    };
    if same_text(name, "ServerScriptService") || same_text(name, "ServerStorage") || same_text(
        name,
        "RobloxServerStorage",
    ) || same_text(name, "ServerPackages") {
        return "server";
    }
    if same_text(name, "StarterPlayer") || same_text(name, "StarterGui") || same_text(
        name,
        "StarterPack",
    ) || same_text(name, "StarterCharacterScripts") {
        return "client";
    }
    if same_text(name, "ReplicatedStorage") || same_text(name, "ReplicatedFirst") || same_text(
        name,
        "Workspace",
    ) || same_text(name, "Lighting") || same_text(name, "SoundService") || same_text(
        name,
        "TextChatService",
    ) {
        return "shared";
    }
    "unknown"
}

/// How often a label stands among the first `n`.
pub open spec fn occurrences(labels: Seq<Seq<char>>, label: Seq<char>, n: int) -> int
    decreases n,
{
    if n <= 0 {
        0
    } else if labels[n - 1] == label {
        occurrences(labels, label, n - 1) + 1
    } else {
        occurrences(labels, label, n - 1)
    }
}

proof fn occurrences_are_bounded(labels: Seq<Seq<char>>, label: Seq<char>, n: int)
    ensures
        0 <= occurrences(labels, label, n) <= (if n <= 0 {
            0
        } else {
            n
        }),
    decreases n,
{
    if n > 0 {
        occurrences_are_bounded(labels, label, n - 1);
    }
}

/// Whether a map holds how often each of the first `n` labels stands among them, and nothing
/// else.
pub open spec fn counts_labels(
    counts: Map<Seq<char>, usize>,
    labels: Seq<Seq<char>>,
    n: int,
) -> bool {
    forall|label: Seq<char>|
        {
            &&& #[trigger] counts.contains_key(label) <==> occurrences(labels, label, n) > 0
            &&& counts.contains_key(label) ==> counts[label] == occurrences(labels, label, n)
        }
}

/// Counts diagnostics, each given by the label of its severity.
pub fn count_by_severity(labels: &Vec<String>) -> (r: TextMap<usize>)
    ensures
        counts_labels(r@, labels.deep_view(), labels@.len() as int),
{
    let ghost all = labels.deep_view();
    let mut counts: TextMap<usize> = TextMap::new();
    let mut i: usize = 0;
    while i < labels.len()
        invariant
            i <= labels@.len(),
            all == labels.deep_view(),
            counts_labels(counts@, all, i as int),
        decreases labels@.len() - i,
    {
        assert(all[i as int] == labels@[i as int]@);
        let label = labels[i].as_str();
        let had: usize = match counts.get(label) {
            Some(count) => *count,
            None => 0,
        };
        proof {
            assert(counts@.contains_key(label@) <==> occurrences(all, label@, i as int) > 0);
            occurrences_are_bounded(all, label@, i as int);
            assert forall|other: Seq<char>| #[trigger]
                occurrences(all, other, i + 1) == occurrences(all, other, i as int) + (if other
                == label@ {
                1int
            } else {
                0int
            }) by {}
        }
        let ghost before = counts@;
        counts.insert(owned(label), had + 1);
        proof {
            assert forall|other: Seq<char>|
                {
                    &&& #[trigger] counts@.contains_key(other) <==> occurrences(all, other, i + 1)
                        > 0
                    &&& counts@.contains_key(other) ==> counts@[other] == occurrences(
                        all,
                        other,
                        i + 1,
                    )
                } by {
                assert(before.contains_key(other) <==> occurrences(all, other, i as int) > 0);
                occurrences_are_bounded(all, other, i as int);
            }
        }
        i = i + 1;
    }
    counts
}

/// The first instance a file is the source of.
pub open spec fn first_node(nodes: Seq<NodeModel>, relative: Seq<char>) -> Option<int> {
    let found = nodes_of_file(nodes, relative);
    if found.len() == 0 {
        None
    } else {
        Some(found[0])
    }
}

/// The modules one hop away from a file.
pub open spec fn direct_modules(
    g: Seq<ModuleModel>,
    relative: Seq<char>,
    direction: Direction,
    max_entries: int,
) -> Seq<ReachedModel> {
    match module_found(g, relative) {
        Some(module) => all_reported(g, walk_from(g, module, direction, 1, max_entries).routes),
        None => Seq::empty(),
    }
}

/// The first requires of a file that lead nowhere.
pub open spec fn open_requires(
    g: Seq<ModuleModel>,
    relative: Seq<char>,
    max_entries: int,
) -> Seq<UnresolvedEntryModel> {
    match module_found(g, relative) {
        Some(module) => {
            let entries = entries_of_module(g[module]);
            if entries.len() <= max_entries {
                entries
            } else {
                entries.take(max_entries)
            }
        },
        None => Seq::empty(),
    }
}

/// What is known of a file without asking the language server.
pub open spec fn context_of(
    nodes: Seq<NodeModel>,
    g: Seq<ModuleModel>,
    relative: Seq<char>,
    max_entries: int,
    sourcemap: ReferenceModel,
) -> ContextModel {
    let node = first_node(nodes, relative);
    let service = match node {
        Some(i) => service_name(nodes, i),
        None => None,
    };
    ContextModel {
        relative_path: relative,
        instance_path: match node {
            Some(i) => Some(nodes[i].instance_path),
            None => None,
        },
        class_name: match node {
            Some(i) => Some(nodes[i].class_name),
            None => None,
        },
        service,
        role: role_model(service),
        requires_directly: direct_modules(g, relative, Direction::Dependencies, max_entries),
        required_by: direct_modules(g, relative, Direction::Dependents, max_entries),
        unresolved_requires: open_requires(g, relative, max_entries),
        sourcemap,
    }
}

/// A note, where there is cause for one.
pub open spec fn note_if(cause: bool, note: Seq<char>) -> Seq<Seq<char>> {
    if cause {
        seq![note]
    } else {
        Seq::empty()
    }
}

/// The notes of an answer, in order: whether the file is synced, whether it is scanned, and what
/// the language server could not tell.
pub open spec fn context_notes(
    nodes: Seq<NodeModel>,
    g: Seq<ModuleModel>,
    relative: Seq<char>,
    api_error: Option<Seq<char>>,
    diagnostics_error: Option<Seq<char>>,
) -> Seq<Seq<char>> {
    note_if(first_node(nodes, relative) is None, not_synced_note()) + note_if(
        module_found(g, relative) is None,
        not_scanned_note(),
    ) + (match api_error {
        Some(error) => seq!["the public surface could not be read: "@ + error],
        None => Seq::empty(),
    }) + (match diagnostics_error {
        Some(error) => seq!["diagnostics could not be read: "@ + error],
        None => Seq::empty(),
    })
}

/// What a reply of the language server says went wrong.
pub open spec fn error_of<T>(reply: Result<T, String>) -> Option<Seq<char>> {
    match reply {
        Ok(_) => None,
        Err(error) => Some(error@),
    }
}

/// Refuses a path at which there is no file.
pub fn require_file(relative_path: &str, is_file: bool) -> (r: Result<(), Failure>)
    ensures
        match r {
            Ok(_) => is_file,
            Err(failure) => !is_file && failure.deep_view() == hinted_failure(
                "no such file: "@ + relative_path@,
                "locate it with find_file using the mask \"*.luau\", or list the directory with list_dir"@,
            ),
        },
{
    if is_file {
        return Ok(());
    }
    let mut message = owned("no such file: ");
    message.append(relative_path);
    Err(
        hinted(
            message,
            "locate it with find_file using the mask \"*.luau\", or list the directory with list_dir",
        ),
    )
}

fn push_note(notes: &mut Vec<String>, note: &str)
    ensures
        final(notes).deep_view() == old(notes).deep_view() + seq![note@],
{
    let ghost before = notes.deep_view();
    notes.push(owned(note));
    assert(notes.deep_view() =~= before + seq![note@]);
}

fn push_error(notes: &mut Vec<String>, prefix: &str, error: &str)
    ensures
        final(notes).deep_view() == old(notes).deep_view() + seq![prefix@ + error@],
{
    let mut note = owned(prefix);
    note.append(error);
    push_note(notes, note.as_str());
}

/// Answers, in one call, the questions an agent asks when it opens a module it has not seen
/// before: what `sourcemap` and `graph` know of the file, together with what the language server
/// replied about its public surface and its diagnostics, each of these given by the label of its
/// severity. `now_nanos` is the time the answer is given.
pub fn module_context<A>(
    relative: String,
    sourcemap: &Sourcemap,
    graph: &RequireGraph,
    max_entries: usize,
    api: Result<A, String>,
    diagnostics: Result<Vec<String>, String>,
    now_nanos: i128,
) -> (r: ModuleContext<A>)
    requires
        sourcemap.wf(),
        graph.wf(),
    ensures
        r.model() == context_of(
            sourcemap@,
            graph@,
            relative@,
            max_entries as int,
            reference_model(
                sourcemap.path_model(),
                sourcemap.stamp_model(),
                sourcemap@.len() as int,
                now_nanos as int,
            ),
        ),
        r.api == (match api {
            Ok(surface) => Some(surface),
            Err(_) => None,
        }),
        match diagnostics {
            Ok(labels) => counts_labels(
                r.diagnostics@,
                labels.deep_view(),
                labels@.len() as int,
            ),
            Err(_) => r.diagnostics@ == Map::<Seq<char>, usize>::empty(),
        },
        r.notes.deep_view() == context_notes(
            sourcemap@,
            graph@,
            relative@,
            error_of(api),
            error_of(diagnostics),
        ),
{
    let ghost nodes = sourcemap@;
    let ghost g = graph@;
    let mut notes: Vec<String> = Vec::new();
    assert(notes.deep_view() =~= Seq::empty());
    let found = sourcemap.nodes_for_file(relative.as_str());
    let ghost positions = found@.map_values(|v: usize| v as int);
    assert(positions.len() == found@.len());
    let node: Option<usize> = if found.len() > 0 {
        assert(positions[0] == found@[0]);
        Some(found[0])
    } else {
        push_note(
            &mut notes,
            "this file is not in the sourcemap, so it is not synced into the game by the rojo project and editing it changes nothing at runtime, unless the sourcemap is simply out of date.",
        );
        None
    };
    assert(notes.deep_view() =~= note_if(first_node(nodes, relative@) is None, not_synced_note()));
    let ghost synced = notes.deep_view();

    let mut requires_directly: Vec<ReachedModule> = Vec::new();
    let mut required_by: Vec<ReachedModule> = Vec::new();
    let mut unresolved_requires: Vec<UnresolvedEntry> = Vec::new();
    match graph.find(relative.as_str()) {
        Some(module) => {
            requires_directly = graph.walk(module, Direction::Dependencies, 1, max_entries).0;
            required_by = graph.walk(module, Direction::Dependents, 1, max_entries).0;
            let held = graph.module(module);
            assert(entries_of_module(held.deep_view()).len() == held.unresolved@.len());
            unresolved_requires = module_entries(held, max_entries);
        },
        None => {
            assert(requires_directly.deep_view() =~= Seq::empty());
            assert(required_by.deep_view() =~= Seq::empty());
            assert(unresolved_requires.deep_view() =~= Seq::empty());
            push_note(
                &mut notes,
                "this file is outside the set Biskit scans, so its requires and its dependents are not known. Check project.ignored_paths.",
            );
        },
    }
    assert(notes.deep_view() =~= synced + note_if(
        module_found(g, relative@) is None,
        not_scanned_note(),
    ));
    let ghost scanned = notes.deep_view();

    let ghost api_error = error_of(api);
    let surface: Option<A> = match api {
        Ok(surface) => Some(surface),
        Err(error) => {
            push_error(&mut notes, "the public surface could not be read: ", error.as_str());
            None
        },
    };
    let ghost surfaced = notes.deep_view();
    assert(surfaced =~= scanned + (match api_error {
        Some(error) => seq!["the public surface could not be read: "@ + error],
        None => Seq::empty(),
    }));

    let ghost diagnostics_error = error_of(diagnostics);
    let counts: TextMap<usize> = match diagnostics {
        Ok(labels) => count_by_severity(&labels),
        Err(error) => {
            push_error(&mut notes, "diagnostics could not be read: ", error.as_str());
            TextMap::new()
        },
    };
    assert(notes.deep_view() =~= surfaced + (match diagnostics_error {
        Some(error) => seq!["diagnostics could not be read: "@ + error],
        None => Seq::empty(),
    }));

    let (service, instance_path, class_name): (Option<&str>, Option<String>, Option<String>) =
        match node {
        Some(i) => (
            sourcemap.service_of(i),
            Some(sourcemap.node(i).instance_path.clone()),
            Some(sourcemap.node(i).class_name.clone()),
        ),
        None => (None, None, None),
    };
    let role = role_of(service);
    ModuleContext {
        relative_path: relative,
        instance_path,
        class_name,
        role,
        service: match service {
            Some(name) => Some(owned(name)),
            None => None,
        },
        requires_directly,
        required_by,
        unresolved_requires,
        api: surface,
        diagnostics: counts,
        sourcemap: sourcemap.reference(now_nanos),
        notes,
    }
}

} // verus!
