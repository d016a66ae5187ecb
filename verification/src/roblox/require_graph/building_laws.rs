//! What holds of every graph that is built.
use vstd::prelude::*;
use super::building::{
    bindings_of, built_graph, call_target, edges_in, file_at, file_calls, file_paths, link_of,
    node_of, unresolved_in, BuildModel, FileModel, Link,
};
use super::graph::{EdgeModel, UnresolvedModel};
use super::resolve::require_target;
use super::scan::{CallModel, KindModel};
use crate::picking::{one_more_is_picked, rises};
use crate::roblox::shared_require::{entries_of, names_of, resolution, ResolutionModel};
use crate::roblox::sourcemap::{nodes_of_file, normalized};
use crate::roblox::sourcemap_laws::files_lead_back_to_their_instances;

verus! {

/// Whether a file is the last of those given that has a path.
pub open spec fn is_file_of(files: Seq<FileModel>, path: Seq<char>, j: int) -> bool {
    &&& 0 <= j < files.len()
    &&& files[j].relative_path == path
    &&& forall|k: int| j < k < files.len() ==> (#[trigger] files[k]).relative_path != path
}

/// Whether none of the files given has a path.
pub open spec fn is_no_file(files: Seq<FileModel>, path: Seq<char>) -> bool {
    forall|k: int| 0 <= k < files.len() ==> (#[trigger] files[k]).relative_path != path
}

proof fn the_file_of_a_path_is_found(files: Seq<FileModel>, path: Seq<char>, n: int)
    requires
        0 <= n <= files.len(),
        forall|k: int| n <= k < files.len() ==> (#[trigger] files[k]).relative_path != path,
    ensures
        match file_at(files, path, n) {
            Some(j) => is_file_of(files, path, j),
            None => is_no_file(files, path),
        },
    decreases n,
{
    if n > 0 && files[n - 1].relative_path != path {
        the_file_of_a_path_is_found(files, path, n - 1);
    }
}

/// Whether an edge is made of a call of a file: the call resolves to another file of the project, which
/// the edge leads to, and the edge has the line and the text of the call.
pub open spec fn is_edge_of(b: BuildModel, i: int, call: CallModel, edge: EdgeModel) -> bool {
    &&& edge.line == call.line
    &&& edge.expression == call.expression
    &&& edge.target != i
    &&& call_target(b, i, call) matches Ok(relative) && is_file_of(b.files, relative, edge.target)
}

/// Whether a call of a file leads to no file of the project, and an entry tells it.
pub open spec fn is_unresolved_of(
    b: BuildModel,
    i: int,
    call: CallModel,
    entry: UnresolvedModel,
) -> bool {
    &&& entry.line == call.line
    &&& entry.expression == call.expression
    &&& match call_target(b, i, call) {
        Ok(relative) => is_no_file(b.files, relative),
        Err(reason) => entry.reason == reason,
    }
}

/// Whether a call of a file leads back to the file.
pub open spec fn leads_back(b: BuildModel, i: int, call: CallModel) -> bool {
    call_target(b, i, call) matches Ok(relative) && is_file_of(b.files, relative, i)
}

proof fn a_link_is_one_of_three(b: BuildModel, i: int, call: CallModel)
    ensures
        match link_of(b, i, call) {
            Link::To(edge) => is_edge_of(b, i, call, edge),
            Link::Own => leads_back(b, i, call),
            Link::Unresolved(entry) => is_unresolved_of(b, i, call, entry),
        },
{
    if let Ok(relative) = call_target(b, i, call) {
        the_file_of_a_path_is_found(b.files, relative, b.files.len() as int);
    }
}

proof fn links_are_sorted(b: BuildModel, i: int, calls: Seq<CallModel>, n: int) -> (at: (
    Seq<int>,
    Seq<int>,
))
    requires
        0 <= n <= calls.len(),
    ensures
        are_links(b, i, calls, n, edges_in(b, i, calls, n), unresolved_in(b, i, calls, n), at.0, at.1),
    decreases n,
{
    if n == 0 {
        (Seq::empty(), Seq::empty())
    } else {
        let (edges, open) = links_are_sorted(b, i, calls, n - 1);
        let call = calls[n - 1];
        a_link_is_one_of_three(b, i, call);
        match link_of(b, i, call) {
            Link::To(_) => {
                one_more_is_picked(edges, n - 1);
                (edges.push(n - 1), open)
            },
            Link::Own => {
                (edges, open)
            },
            Link::Unresolved(_) => {
                one_more_is_picked(open, n - 1);
                (edges, open.push(n - 1))
            },
        }
    }
}

/// Whether the first `n` calls of a file are told by edges and unresolved entries: those at some positions
/// by an edge each, those at others by an entry each, both in the order of the calls, and every other call
/// leads back to the file.
pub open spec fn are_links(
    b: BuildModel,
    i: int,
    calls: Seq<CallModel>,
    n: int,
    edges: Seq<EdgeModel>,
    unresolved: Seq<UnresolvedModel>,
    at_edges: Seq<int>,
    at_unresolved: Seq<int>,
) -> bool {
    &&& rises(at_edges)
    &&& rises(at_unresolved)
    &&& at_edges.len() == edges.len()
    &&& at_unresolved.len() == unresolved.len()
    &&& forall|k: int|
        0 <= k < at_edges.len() ==> 0 <= #[trigger] at_edges[k] < n && is_edge_of(
            b,
            i,
            calls[at_edges[k]],
            edges[k],
        )
    &&& forall|k: int|
        0 <= k < at_unresolved.len() ==> 0 <= #[trigger] at_unresolved[k] < n && is_unresolved_of(
            b,
            i,
            calls[at_unresolved[k]],
            unresolved[k],
        )
    &&& forall|c: int|
        0 <= c < n ==> at_edges.contains(c) || at_unresolved.contains(c) || leads_back(
            b,
            i,
            #[trigger] calls[c],
        )
}

/// A module has an edge for each call that resolves to another file, to that file and with the line and
/// the text of the call, in the order of the calls and no other edge; and an unresolved entry for each call
/// that resolves to none. A call that is told by neither leads back to the file itself.
pub proof fn edges_are_what_calls_resolve_to(b: BuildModel, i: int)
    requires
        0 <= i < b.files.len(),
    ensures
        built_graph(b).len() == b.files.len(),
        built_graph(b)[i].relative_path == b.files[i].relative_path,
        exists|edges: Seq<int>, open: Seq<int>|
            #[trigger] are_links(
                b,
                i,
                file_calls(b, i),
                file_calls(b, i).len() as int,
                built_graph(b)[i].dependencies,
                built_graph(b)[i].unresolved,
                edges,
                open,
            ),
{
    let calls = file_calls(b, i);
    let (edges, open) = links_are_sorted(b, i, calls, calls.len() as int);
    assert(are_links(
        b,
        i,
        calls,
        calls.len() as int,
        built_graph(b)[i].dependencies,
        built_graph(b)[i].unresolved,
        edges,
        open,
    ));
}

/// A file is an instance that is built from it, where there is one: its module has the path of that
/// instance, and `require` calls in it start there. Where there is none, its module has no path.
pub proof fn a_file_is_an_instance_built_from_it(b: BuildModel, i: int, call: CallModel)
    requires
        0 <= i < b.files.len(),
    ensures
        ({
            let file = normalized(b.files[i].relative_path);
            let built = exists|n: int|
                0 <= n < b.nodes.len() && (#[trigger] b.nodes[n]).file_paths.contains(file);
            &&& built ==> node_of(b, i) is Some
            &&& match node_of(b, i) {
                Some(n) => {
                    &&& 0 <= n < b.nodes.len()
                    &&& built ==> b.nodes[n].file_paths.contains(file)
                    &&& built_graph(b)[i].instance_path == Some(b.nodes[n].instance_path)
                    &&& nodes_of_file(b.nodes, b.files[i].relative_path)[0] == n
                },
                None => built_graph(b)[i].instance_path is None,
            }
            &&& call.kind is Require ==> call_target(b, i, call) == require_target(
                b.nodes,
                bindings_of(b, i),
                node_of(b, i),
                b.disk,
                b.files[i].path,
                call.expression,
            )
        }),
{
    let found = nodes_of_file(b.nodes, b.files[i].relative_path);
    let file = normalized(b.files[i].relative_path);
    files_lead_back_to_their_instances(b.nodes, b.files[i].relative_path);
    if exists|n: int| 0 <= n < b.nodes.len() && (#[trigger] b.nodes[n]).file_paths.contains(file) {
        let n = choose|n: int|
            0 <= n < b.nodes.len() && (#[trigger] b.nodes[n]).file_paths.contains(file);
        assert(found.contains(n));
    }
    if found.len() > 0 {
        assert(found.contains(found[0]));
    }
}

/// A `shared` call with a name resolves to the file that the lookup of the name finds, and to none where
/// the lookup finds none or several, where the name is no literal, and where `shared` is not followed.
pub proof fn a_shared_call_resolves_as_its_lookup(b: BuildModel, i: int, call: CallModel)
    requires
        0 <= i < b.files.len(),
    ensures
        call.kind matches KindModel::Shared(None) ==> call_target(b, i, call) is Err,
        call.kind matches KindModel::Shared(Some(said)) ==> {
            let paths = file_paths(b.files);
            let found = resolution(
                entries_of(paths, paths.len() as int),
                names_of(b.nodes, paths),
                said,
                b.files[i].relative_path,
            );
            match call_target(b, i, call) {
                Ok(relative) => b.shared_require && found == ResolutionModel::Found(relative),
                Err(_) => !b.shared_require || !(found is Found),
            }
        },
{
}

} // verus!
