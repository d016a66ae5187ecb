//! Building the graph from the files of a project.
use vstd::prelude::*;
use vstd::utf8::*;
use super::blanking::{blank_comments, blanked};
use super::graph::{
    edge_to, graph_wf, Edge, EdgeModel, Module, ModuleModel, RequireGraph, UnresolvedModel,
    UnresolvedRequire,
};
use super::resolve::{
    as_position, node_in_range, require_target, resolve, resolve_shared, shared_target,
};
use super::scan::{
    bound_to, calls_of, find_calls, local_bindings, local_bindings_of, Bindings, CallKind,
    CallModel, KindModel, RequireCall, GLOBAL_NAME,
};
use super::string_require::{DiskFacts, DiskModel};
use crate::lines::LineIndex;
use crate::roblox::shared_require::{entries_of, names_of, resolution, SharedIndex};
use crate::roblox::sourcemap::{nodes_of_file, FileStamp, NodeModel, Sourcemap};
use crate::text::{owned, same_text};

verus! {

/// What the file set looked like when a graph was built.
#[derive(Debug, Clone, Copy, PartialEq, Eq)]
pub struct GraphStamp {
    pub sourcemap: Option<FileStamp>,
    pub files: usize,
    pub total_len: u64,
    pub newest_nanos: Option<i128>,
}

/// What the disk says of a file, as far as it says anything.
#[derive(Debug, Clone, Copy, PartialEq, Eq)]
pub struct FileMetadata {
    pub len: u64,
    pub modified_nanos: Option<i128>,
}

/// How long the first `n` files are together; a file the disk says nothing of counts nothing.
pub open spec fn total_len_of(files: Seq<Option<FileMetadata>>, n: int) -> int
    decreases n,
{
    if n <= 0 {
        0
    } else {
        total_len_of(files, n - 1) + match files[n - 1] {
            Some(metadata) => metadata.len as int,
            None => 0,
        }
    }
}

/// When the youngest of the first `n` files was written.
pub open spec fn newest_of(files: Seq<Option<FileMetadata>>, n: int) -> Option<i128>
    decreases n,
{
    if n <= 0 {
        None
    } else {
        let before = newest_of(files, n - 1);
        match files[n - 1] {
            Some(metadata) => match (before, metadata.modified_nanos) {
                (Some(older), Some(here)) => Some(
                    if here > older {
                        here
                    } else {
                        older
                    },
                ),
                (None, here) => here,
                (older, None) => older,
            },
            None => before,
        }
    }
}

proof fn total_len_grows(files: Seq<Option<FileMetadata>>, m: int, n: int)
    requires
        0 <= m <= n <= files.len(),
    ensures
        0 <= total_len_of(files, m) <= total_len_of(files, n),
    decreases n,
{
    if m < n {
        total_len_grows(files, m, n - 1);
    } else if n > 0 {
        total_len_grows(files, n - 1, n - 1);
    }
}

/// What a file set looks like.
pub fn stamp_of(files: &Vec<Option<FileMetadata>>, sourcemap: Option<FileStamp>) -> (r: GraphStamp)
    requires
        total_len_of(files@, files@.len() as int) <= u64::MAX,
    ensures
        r.sourcemap == sourcemap,
        r.files == files@.len(),
        r.total_len == total_len_of(files@, files@.len() as int),
        r.newest_nanos == newest_of(files@, files@.len() as int),
{
    let mut total_len: u64 = 0;
    let mut newest_nanos: Option<i128> = None;
    let mut i: usize = 0;
    while i < files.len()
        invariant
            i <= files@.len(),
            total_len_of(files@, files@.len() as int) <= u64::MAX,
            total_len == total_len_of(files@, i as int),
            newest_nanos == newest_of(files@, i as int),
        decreases files@.len() - i,
    {
        proof {
            total_len_grows(files@, i + 1, files@.len() as int);
        }
        match files[i] {
            Some(metadata) => {
                total_len = total_len + metadata.len;
                newest_nanos = match (newest_nanos, metadata.modified_nanos) {
                    (Some(older), Some(here)) => {
                        if here > older {
                            Some(here)
                        } else {
                            Some(older)
                        }
                    },
                    (None, here) => here,
                    (older, None) => older,
                };
            },
            None => {},
        }
        i = i + 1;
    }
    GraphStamp { sourcemap, files: files.len(), total_len, newest_nanos }
}

fn same_nanos(a: Option<i128>, b: Option<i128>) -> (r: bool)
    ensures
        r == (a == b),
{
    match (a, b) {
        (Some(x), Some(y)) => x == y,
        (None, None) => true,
        _ => false,
    }
}

fn same_file(a: Option<FileStamp>, b: Option<FileStamp>) -> (r: bool)
    ensures
        r == (a == b),
{
    match (a, b) {
        (Some(x), Some(y)) => x.modified_nanos == y.modified_nanos && x.len == y.len,
        (None, None) => true,
        _ => false,
    }
}

impl GraphStamp {
    /// Whether two file sets look the same.
    pub fn same(&self, other: &GraphStamp) -> (r: bool)
        ensures
            r == (*self == *other),
    {
        same_file(self.sourcemap, other.sourcemap) && self.files == other.files && self.total_len
            == other.total_len && same_nanos(self.newest_nanos, other.newest_nanos)
    }
}

/// A file of the project: its project-relative path, its path on disk, and what it holds.
#[derive(Debug)]
pub struct SourceFile {
    pub relative_path: String,
    pub path: String,
    pub source: String,
}

pub struct FileModel {
    pub relative_path: Seq<char>,
    pub path: Seq<char>,
    pub source: Seq<char>,
}

impl DeepView for SourceFile {
    type V = FileModel;

    open spec fn deep_view(&self) -> FileModel {
        FileModel { relative_path: self.relative_path@, path: self.path@, source: self.source@ }
    }
}

/// What a graph is built from.
pub struct BuildModel {
    pub files: Seq<FileModel>,
    pub shared_require: bool,
    pub nodes: Seq<NodeModel>,
    pub disk: DiskModel,
}

/// The project-relative paths of the files.
pub open spec fn file_paths(files: Seq<FileModel>) -> Seq<Seq<char>> {
    files.map_values(|file: FileModel| file.relative_path)
}

/// The last of the first `n` files that has the path.
pub open spec fn file_at(files: Seq<FileModel>, path: Seq<char>, n: int) -> Option<int>
    decreases n,
{
    if n <= 0 {
        None
    } else if files[n - 1].relative_path == path {
        Some(n - 1)
    } else {
        file_at(files, path, n - 1)
    }
}

/// The instance a file is the source of.
pub open spec fn node_of(b: BuildModel, i: int) -> Option<int> {
    let found = nodes_of_file(b.nodes, b.files[i].relative_path);
    if found.len() > 0 {
        Some(found[0])
    } else {
        None
    }
}

/// A file's source with its comments blanked.
pub open spec fn code_of(b: BuildModel, i: int) -> Seq<u8> {
    blanked(encode_utf8(b.files[i].source))
}

/// What a file binds locally.
pub open spec fn bindings_of(b: BuildModel, i: int) -> Seq<(Seq<char>, Seq<char>)> {
    local_bindings_of(decode_utf8(code_of(b, i)))
}

/// The calls of a file. A file that binds `shared` itself has no `shared` calls.
pub open spec fn file_calls(b: BuildModel, i: int) -> Seq<CallModel> {
    let bindings = bindings_of(b, i);
    calls_of(
        code_of(b, i),
        b.shared_require && bound_to(bindings, "shared"@, bindings.len() as int) is None,
    )
}

/// The file a call of file `i` resolves to, or why it resolves to none.
pub open spec fn call_target(b: BuildModel, i: int, call: CallModel) -> Result<
    Seq<char>,
    Seq<char>,
> {
    match call.kind {
        KindModel::Require => require_target(
            b.nodes,
            bindings_of(b, i),
            node_of(b, i),
            b.disk,
            b.files[i].path,
            call.expression,
        ),
        KindModel::Shared(name) => {
            let paths = file_paths(b.files);
            shared_target(
                name,
                match name {
                    Some(said) => if b.shared_require {
                        Some(
                            resolution(
                                entries_of(paths, paths.len() as int),
                                names_of(b.nodes, paths),
                                said,
                                b.files[i].relative_path,
                            ),
                        )
                    } else {
                        None
                    },
                    None => None,
                },
            )
        },
    }
}

/// What a call adds to a module: an edge to another module, nothing where it leads back to the
/// module itself, or a require that could not be resolved.
pub enum Link {
    To(EdgeModel),
    Own,
    Unresolved(UnresolvedModel),
}

pub open spec fn link_of(b: BuildModel, i: int, call: CallModel) -> Link {
    match call_target(b, i, call) {
        Ok(relative) => match file_at(b.files, relative, b.files.len() as int) {
            Some(target) => if target != i {
                Link::To(
                    EdgeModel { target, line: call.line, expression: call.expression },
                )
            } else {
                Link::Own
            },
            None => Link::Unresolved(
                UnresolvedModel {
                    line: call.line,
                    expression: call.expression,
                    reason: "resolves to "@ + relative
                        + ", which is outside the files Biskit scans"@,
                },
            ),
        },
        Err(reason) => Link::Unresolved(
            UnresolvedModel { line: call.line, expression: call.expression, reason },
        ),
    }
}

/// The edges of the first `n` calls.
pub open spec fn edges_in(b: BuildModel, i: int, calls: Seq<CallModel>, n: int) -> Seq<EdgeModel>
    decreases n,
{
    if n <= 0 {
        Seq::empty()
    } else {
        match link_of(b, i, calls[n - 1]) {
            Link::To(edge) => edges_in(b, i, calls, n - 1).push(edge),
            _ => edges_in(b, i, calls, n - 1),
        }
    }
}

/// The unresolved requires of the first `n` calls.
pub open spec fn unresolved_in(b: BuildModel, i: int, calls: Seq<CallModel>, n: int) -> Seq<
    UnresolvedModel,
>
    decreases n,
{
    if n <= 0 {
        Seq::empty()
    } else {
        match link_of(b, i, calls[n - 1]) {
            Link::Unresolved(entry) => unresolved_in(b, i, calls, n - 1).push(entry),
            _ => unresolved_in(b, i, calls, n - 1),
        }
    }
}

/// The edges of a file.
pub open spec fn file_edges(b: BuildModel, i: int) -> Seq<EdgeModel> {
    edges_in(b, i, file_calls(b, i), file_calls(b, i).len() as int)
}

/// The files among the first `n` with an edge to file `t`, in order, each once.
pub open spec fn owners_of(b: BuildModel, t: int, n: int) -> Seq<int>
    decreases n,
{
    if n <= 0 {
        Seq::empty()
    } else if edge_to(file_edges(b, n - 1), t, 0) is Some {
        owners_of(b, t, n - 1).push(n - 1)
    } else {
        owners_of(b, t, n - 1)
    }
}

/// The module of a file.
pub open spec fn built_module(b: BuildModel, i: int) -> ModuleModel {
    ModuleModel {
        relative_path: b.files[i].relative_path,
        instance_path: match node_of(b, i) {
            Some(node) => Some(b.nodes[node].instance_path),
            None => None,
        },
        dependencies: file_edges(b, i),
        dependents: owners_of(b, i, b.files.len() as int),
        unresolved: unresolved_in(b, i, file_calls(b, i), file_calls(b, i).len() as int),
    }
}

/// The graph of a project: its files, the requires between them, and the same requires read
/// backwards.
pub open spec fn built_graph(b: BuildModel) -> Seq<ModuleModel> {
    Seq::new(b.files.len(), |i: int| built_module(b, i))
}

proof fn file_at_is_inside(files: Seq<FileModel>, path: Seq<char>, n: int)
    requires
        n <= files.len(),
    ensures
        file_at(files, path, n) matches Some(i) ==> 0 <= i < n && files[i].relative_path == path,
    decreases n,
{
    if n > 0 && files[n - 1].relative_path != path {
        file_at_is_inside(files, path, n - 1);
    }
}

proof fn edges_lead_inside(b: BuildModel, i: int, calls: Seq<CallModel>, n: int)
    requires
        n <= calls.len(),
    ensures
        forall|e: int|
            0 <= e < edges_in(b, i, calls, n).len() ==> 0 <= (#[trigger] edges_in(
                b,
                i,
                calls,
                n,
            )[e]).target < b.files.len() && edges_in(b, i, calls, n)[e].target != i,
    decreases n,
{
    if n > 0 {
        edges_lead_inside(b, i, calls, n - 1);
        if let Ok(relative) = call_target(b, i, calls[n - 1]) {
            file_at_is_inside(b.files, relative, b.files.len() as int);
        }
        let before = edges_in(b, i, calls, n - 1);
        let after = edges_in(b, i, calls, n);
        assert forall|e: int| 0 <= e < after.len() implies 0 <= (#[trigger] after[e]).target
            < b.files.len() && after[e].target != i by {
            if e < before.len() {
                assert(after[e] == before[e]);
            }
        }
    }
}

proof fn owners_are_files(b: BuildModel, t: int, n: int)
    requires
        0 <= n,
    ensures
        forall|k: int|
            0 <= k < owners_of(b, t, n).len() ==> 0 <= (#[trigger] owners_of(b, t, n)[k]) < n
                && edge_to(file_edges(b, owners_of(b, t, n)[k]), t, 0) is Some,
        forall|j: int, k: int|
            0 <= j < k < owners_of(b, t, n).len() ==> owners_of(b, t, n)[j] < owners_of(b, t, n)[k],
        forall|i: int|
            0 <= i < n && edge_to(file_edges(b, i), t, 0) is Some ==> #[trigger] owners_of(
                b,
                t,
                n,
            ).contains(i),
    decreases n,
{
    if n > 0 {
        owners_are_files(b, t, n - 1);
        let before = owners_of(b, t, n - 1);
        let after = owners_of(b, t, n);
        assert forall|i: int| 0 <= i < n && edge_to(
            file_edges(b, i),
            t,
            0,
        ) is Some implies #[trigger] after.contains(i) by {
            if i < n - 1 {
                assert(before.contains(i));
                let k = choose|k: int| 0 <= k < before.len() && before[k] == i;
                assert(after[k] == i);
            } else {
                assert(after[before.len() as int] == i);
            }
        }
    }
}

/// Every edge of a built graph leads to one of its modules, and none leads back to its own.
pub proof fn built_graph_is_wf(b: BuildModel)
    ensures
        graph_wf(built_graph(b)),
        forall|i: int, e: int|
            0 <= i < b.files.len() && 0 <= e < built_graph(b)[i].dependencies.len() ==> (
            #[trigger] built_graph(b)[i].dependencies[e]).target != i,
{
    let g = built_graph(b);
    assert forall|i: int, e: int| 0 <= i < g.len() && 0 <= e < g[i].dependencies.len() implies 0 <= (
    #[trigger] g[i].dependencies[e]).target < g.len() && g[i].dependencies[e].target != i by {
        edges_lead_inside(b, i, file_calls(b, i), file_calls(b, i).len() as int);
    }
    assert forall|i: int, d: int| 0 <= i < g.len() && 0 <= d < g[i].dependents.len() implies 0 <= (
    #[trigger] g[i].dependents[d]) < g.len() by {
        owners_are_files(b, i, b.files.len() as int);
    }
}

/// The dependents of a module are exactly the modules with an edge to it, each once and in order:
/// the edges read backwards.
pub proof fn dependents_are_edges_read_backwards(b: BuildModel, t: int)
    requires
        0 <= t < b.files.len(),
    ensures
        forall|i: int|
            #[trigger] built_graph(b)[t].dependents.contains(i) <==> 0 <= i < b.files.len()
                && edge_to(built_graph(b)[i].dependencies, t, 0) is Some,
        forall|j: int, k: int|
            0 <= j < k < built_graph(b)[t].dependents.len() ==> built_graph(b)[t].dependents[j]
                < built_graph(b)[t].dependents[k],
{
    owners_are_files(b, t, b.files.len() as int);
    let owners = owners_of(b, t, b.files.len() as int);
    assert forall|i: int| #[trigger] built_graph(b)[t].dependents.contains(i) <==> 0 <= i
        < b.files.len() && edge_to(built_graph(b)[i].dependencies, t, 0) is Some by {
        if owners.contains(i) {
            let k = choose|k: int| 0 <= k < owners.len() && owners[k] == i;
            assert(owners[k] == i);
        }
    }
}

proof fn links_are_kept(b: BuildModel, i: int, calls: Seq<CallModel>, n: int, k: int)
    requires
        0 <= k < n <= calls.len(),
    ensures
        link_of(b, i, calls[k]) matches Link::To(edge) ==> edges_in(b, i, calls, n).contains(edge),
        link_of(b, i, calls[k]) matches Link::Unresolved(entry) ==> unresolved_in(
            b,
            i,
            calls,
            n,
        ).contains(entry),
    decreases n,
{
    let edges = edges_in(b, i, calls, n);
    let unresolved = unresolved_in(b, i, calls, n);
    if k == n - 1 {
        match link_of(b, i, calls[k]) {
            Link::To(edge) => {
                assert(edges[edges.len() - 1] == edge);
            },
            Link::Unresolved(entry) => {
                assert(unresolved[unresolved.len() - 1] == entry);
            },
            Link::Own => {},
        }
    } else {
        links_are_kept(b, i, calls, n - 1, k);
        let edges_before = edges_in(b, i, calls, n - 1);
        let unresolved_before = unresolved_in(b, i, calls, n - 1);
        match link_of(b, i, calls[k]) {
            Link::To(edge) => {
                let at = choose|at: int| 0 <= at < edges_before.len() && edges_before[at] == edge;
                assert(edges[at] == edge);
            },
            Link::Unresolved(entry) => {
                let at = choose|at: int|
                    0 <= at < unresolved_before.len() && unresolved_before[at] == entry;
                assert(unresolved[at] == entry);
            },
            Link::Own => {},
        }
    }
}

/// No require is dropped: each call of a file is an edge of its module, leads back to the module
/// itself, or is among what the module could not resolve, told with its line and as it is written.
pub proof fn no_call_is_dropped(b: BuildModel, i: int, k: int)
    requires
        0 <= i < b.files.len(),
        0 <= k < file_calls(b, i).len(),
    ensures
        ({
            let call = file_calls(b, i)[k];
            let module = built_graph(b)[i];
            match link_of(b, i, call) {
                Link::To(edge) => module.dependencies.contains(edge) && edge.line == call.line
                    && edge.expression == call.expression,
                Link::Own => call_target(b, i, call) matches Ok(relative) && file_at(
                    b.files,
                    relative,
                    b.files.len() as int,
                ) == Some(i),
                Link::Unresolved(entry) => module.unresolved.contains(entry) && entry.line
                    == call.line && entry.expression == call.expression,
            }
        }),
{
    links_are_kept(b, i, file_calls(b, i), file_calls(b, i).len() as int, k);
}

/// Where `shared` calls are not followed, or a file binds `shared` itself, the calls of the file are
/// its `require` calls alone.
pub proof fn shared_calls_are_left_alone(b: BuildModel, i: int)
    requires
        0 <= i < b.files.len(),
        !b.shared_require || bound_to(
            bindings_of(b, i),
            "shared"@,
            bindings_of(b, i).len() as int,
        ) is Some,
    ensures
        file_calls(b, i) == calls_of(code_of(b, i), false),
{
}

fn file_index(files: &Vec<SourceFile>, path: &str) -> (r: Option<usize>)
    ensures
        match r {
            Some(i) => file_at(files.deep_view(), path@, files@.len() as int) == Some(i as int) && i
                < files@.len(),
            None => file_at(files.deep_view(), path@, files@.len() as int) is None,
        },
{
    let ghost all = files.deep_view();
    let mut i: usize = files.len();
    while i > 0
        invariant
            i <= files@.len(),
            all == files.deep_view(),
            file_at(all, path@, files@.len() as int) == file_at(all, path@, i as int),
        decreases i,
    {
        assert(all[i - 1] == files@[i - 1].deep_view());
        if same_text(files[i - 1].relative_path.as_str(), path) {
            return Some(i - 1);
        }
        i = i - 1;
    }
    None
}

/// What a graph is built from, as contracts write it.
pub open spec fn build_model(
    files: &Vec<SourceFile>,
    shared_require: bool,
    sourcemap: &Sourcemap,
    disk: &DiskFacts,
) -> BuildModel {
    BuildModel {
        files: files.deep_view(),
        shared_require,
        nodes: sourcemap@,
        disk: disk.deep_view(),
    }
}

fn resolve_call(
    files: &Vec<SourceFile>,
    owner: usize,
    call: &RequireCall,
    bindings: &Bindings,
    node: Option<usize>,
    shared: Option<&SharedIndex>,
    sourcemap: &Sourcemap,
    disk: &DiskFacts,
    Ghost(b): Ghost<BuildModel>,
) -> (r: Result<String, String>)
    requires
        sourcemap.wf(),
        owner < files@.len(),
        b == build_model(files, shared is Some, sourcemap, disk),
        bindings@ == bindings_of(b, owner as int),
        node_in_range(node, sourcemap@),
        as_position(node) == node_of(b, owner as int),
        shared matches Some(index) ==> index.entries_model() == entries_of(
            file_paths(b.files),
            file_paths(b.files).len() as int,
        ) && index.names_model() == names_of(b.nodes, file_paths(b.files)),
    ensures
        match r {
            Ok(relative) => call_target(b, owner as int, call.deep_view()) == Ok::<
                Seq<char>,
                Seq<char>,
            >(relative@),
            Err(reason) => call_target(b, owner as int, call.deep_view()) == Err::<
                Seq<char>,
                Seq<char>,
            >(reason@),
        },
{
    assert(b.files[owner as int] == files@[owner as int].deep_view());
    match &call.kind {
        CallKind::Require => resolve(
            call.expression.as_str(),
            bindings,
            sourcemap,
            node,
            files[owner].path.as_str(),
            disk,
        ),
        CallKind::Shared(name) => {
            let said: Option<&str> = match name {
                Some(text) => Some(text.as_str()),
                None => None,
            };
            assert(said.deep_view() == name.deep_view());
            resolve_shared(said, shared, files[owner].relative_path.as_str())
        },
    }
}

fn module_of(
    files: &Vec<SourceFile>,
    owner: usize,
    shared: Option<&SharedIndex>,
    sourcemap: &Sourcemap,
    disk: &DiskFacts,
) -> (r: Module)
    requires
        sourcemap.wf(),
        owner < files@.len(),
        shared matches Some(index) ==> index.entries_model() == entries_of(
            file_paths(files.deep_view()),
            file_paths(files.deep_view()).len() as int,
        ) && index.names_model() == names_of(sourcemap@, file_paths(files.deep_view())),
    ensures
        ({
            let b = build_model(files, shared is Some, sourcemap, disk);
            &&& r.relative_path@ == built_module(b, owner as int).relative_path
            &&& r.instance_path.deep_view() == built_module(b, owner as int).instance_path
            &&& r.dependencies.deep_view() == built_module(b, owner as int).dependencies
            &&& r.unresolved.deep_view() == built_module(b, owner as int).unresolved
            &&& r.dependents@.len() == 0
        }),
{
    let ghost b = build_model(files, shared is Some, sourcemap, disk);
    let file = &files[owner];
    assert(b.files[owner as int] == file.deep_view());
    let code = blank_comments(file.source.as_str());
    proof {
        encode_utf8_decode_utf8(code@);
    }
    let index = LineIndex::new(code.as_str());
    let bindings = local_bindings(code.as_str());
    let found = sourcemap.nodes_for_file(file.relative_path.as_str());
    assert(found@.map_values(|v: usize| v as int).len() == found@.len());
    let node: Option<usize> = if found.len() > 0 {
        assert(found@.map_values(|v: usize| v as int)[0] == found@[0] as int);
        Some(found[0])
    } else {
        None
    };
    let scan_shared = shared.is_some() && !bindings.contains_key(GLOBAL_NAME);
    let calls = find_calls(code.as_str(), &index, scan_shared);
    let ghost all = calls.deep_view();
    assert(all == file_calls(b, owner as int));
    let mut dependencies: Vec<Edge> = Vec::new();
    let mut unresolved: Vec<UnresolvedRequire> = Vec::new();
    let mut k: usize = 0;
    assert(dependencies.deep_view() =~= edges_in(b, owner as int, all, 0));
    assert(unresolved.deep_view() =~= unresolved_in(b, owner as int, all, 0));
    while k < calls.len()
        invariant
            k <= calls@.len(),
            all == calls.deep_view(),
            sourcemap.wf(),
            owner < files@.len(),
            b == build_model(files, shared is Some, sourcemap, disk),
            bindings@ == bindings_of(b, owner as int),
            node_in_range(node, sourcemap@),
            as_position(node) == node_of(b, owner as int),
            shared matches Some(index) ==> index.entries_model() == entries_of(
                file_paths(b.files),
                file_paths(b.files).len() as int,
            ) && index.names_model() == names_of(b.nodes, file_paths(b.files)),
            dependencies.deep_view() == edges_in(b, owner as int, all, k as int),
            unresolved.deep_view() == unresolved_in(b, owner as int, all, k as int),
        decreases calls@.len() - k,
    {
        let call = &calls[k];
        assert(all[k as int] == call.deep_view());
        let ghost link = link_of(b, owner as int, all[k as int]);
        let ghost edges_before = dependencies.deep_view();
        let ghost unresolved_before = unresolved.deep_view();
        match resolve_call(
            files,
            owner,
            call,
            &bindings,
            node,
            shared,
            sourcemap,
            disk,
            Ghost(b),
        ) {
            Ok(relative) => {
                match file_index(files, relative.as_str()) {
                    Some(target) => {
                        if target != owner {
                            dependencies.push(
                                Edge {
                                    target,
                                    line: call.line,
                                    expression: call.expression.clone(),
                                },
                            );
                            assert(dependencies.deep_view() =~= edges_before.push(link->To_0));
                        }
                    },
                    None => {
                        let mut reason = owned("resolves to ");
                        reason.append(relative.as_str());
                        reason.append(", which is outside the files Biskit scans");
                        unresolved.push(
                            UnresolvedRequire {
                                line: call.line,
                                expression: call.expression.clone(),
                                reason,
                            },
                        );
                        assert(unresolved.deep_view() =~= unresolved_before.push(
                            link->Unresolved_0,
                        ));
                    },
                }
            },
            Err(reason) => {
                unresolved.push(
                    UnresolvedRequire {
                        line: call.line,
                        expression: call.expression.clone(),
                        reason,
                    },
                );
                assert(unresolved.deep_view() =~= unresolved_before.push(link->Unresolved_0));
            },
        }
        k = k + 1;
    }
    Module {
        relative_path: file.relative_path.clone(),
        instance_path: match node {
            Some(at) => Some(sourcemap.node(at).instance_path.clone()),
            None => None,
        },
        dependencies,
        dependents: Vec::new(),
        unresolved,
    }
}

/// The dependents of module `t` once the first `n` files and the first `e` edges of the next one
/// are read backwards.
spec fn owners_so_far(b: BuildModel, t: int, n: int, e: int) -> Seq<int> {
    if exists|k: int| 0 <= k < e && (#[trigger] file_edges(b, n)[k]).target == t {
        owners_of(b, t, n).push(n)
    } else {
        owners_of(b, t, n)
    }
}

proof fn edge_to_is_any(edges: Seq<EdgeModel>, t: int, from: int)
    requires
        0 <= from,
    ensures
        edge_to(edges, t, from) is Some <==> exists|k: int|
            from <= k < edges.len() && (#[trigger] edges[k]).target == t,
    decreases edges.len() - from,
{
    if from < edges.len() && edges[from].target != t {
        edge_to_is_any(edges, t, from + 1);
    }
}

/// What holds of a module before its dependents are all known.
spec fn is_module_of(module: Module, b: BuildModel, i: int) -> bool {
    &&& module.relative_path@ == built_module(b, i).relative_path
    &&& module.instance_path.deep_view() == built_module(b, i).instance_path
    &&& module.dependencies.deep_view() == built_module(b, i).dependencies
    &&& module.unresolved.deep_view() == built_module(b, i).unresolved
}

/// The dependents of a module, as contracts write them.
spec fn owners_in(module: Module) -> Seq<int> {
    module.dependents@.map_values(|v: usize| v as int)
}

/// A list with an owner at its end.
spec fn ending_with(owners: Seq<int>, owner: int) -> Seq<int> {
    if owners.len() > 0 && owners.last() == owner {
        owners
    } else {
        owners.push(owner)
    }
}

/// Reading one edge backwards puts its owner at the end of the dependents of its target.
proof fn one_edge_backwards(b: BuildModel, t: int, owner: int, e: int)
    requires
        0 <= owner,
        0 <= e < file_edges(b, owner).len(),
    ensures
        owners_so_far(b, t, owner, e + 1) == if file_edges(b, owner)[e].target == t {
            ending_with(owners_so_far(b, t, owner, e), owner)
        } else {
            owners_so_far(b, t, owner, e)
        },
{
    let all = file_edges(b, owner);
    let then = exists|k: int| 0 <= k < e && (#[trigger] all[k]).target == t;
    let now = exists|k: int| 0 <= k < e + 1 && (#[trigger] all[k]).target == t;
    if then {
        let k = choose|k: int| 0 <= k < e && (#[trigger] all[k]).target == t;
        assert(0 <= k < e + 1 && all[k].target == t);
        assert(now);
    }
    if all[e].target == t {
        assert(0 <= e < e + 1 && all[e].target == t);
        assert(now);
        let owners = owners_of(b, t, owner);
        if !then && owners.len() > 0 {
            owners_are_files(b, t, owner);
            assert(owners[owners.len() - 1] < owner);
        }
    } else if now {
        let k = choose|k: int| 0 <= k < e + 1 && (#[trigger] all[k]).target == t;
        assert(0 <= k < e && all[k].target == t);
        assert(then);
    }
}

/// Puts an owner at the end of the dependents of a module, where it is not there yet.
fn add_owner(modules: &mut Vec<Module>, target: usize, owner: usize)
    requires
        target < old(modules)@.len(),
    ensures
        final(modules)@.len() == old(modules)@.len(),
        forall|i: int|
            0 <= i < old(modules)@.len() && i != target ==> #[trigger] final(modules)@[i] == old(
                modules,
            )@[i],
        owners_in(final(modules)@[target as int]) == ending_with(
            owners_in(old(modules)@[target as int]),
            owner as int,
        ),
        forall|b: BuildModel|
            #[trigger] is_module_of(final(modules)@[target as int], b, target as int)
                == is_module_of(old(modules)@[target as int], b, target as int),
{
    let ghost before = owners_in(modules@[target as int]);
    let known: usize = modules[target].dependents.len();
    assert(before.len() == known);
    if known > 0 && modules[target].dependents[known - 1] == owner {
        assert(before.last() == owner);
        return;
    }
    assert(known > 0 ==> before.last() != owner);
    modules[target].dependents.push(owner);
    assert(owners_in(modules@[target as int]) =~= before.push(owner as int));
}

/// Reads the edges of one module backwards.
fn read_edges_backwards(modules: &mut Vec<Module>, owner: usize, Ghost(b): Ghost<BuildModel>)
    requires
        owner < old(modules)@.len(),
        old(modules)@.len() == b.files.len(),
        forall|i: int|
            0 <= i < b.files.len() ==> is_module_of(#[trigger] old(modules)@[i], b, i),
        forall|t: int|
            0 <= t < b.files.len() ==> owners_in(#[trigger] old(modules)@[t]) == owners_of(
                b,
                t,
                owner as int,
            ),
    ensures
        final(modules)@.len() == old(modules)@.len(),
        forall|i: int|
            0 <= i < b.files.len() ==> is_module_of(#[trigger] final(modules)@[i], b, i),
        forall|t: int|
            0 <= t < b.files.len() ==> owners_in(#[trigger] final(modules)@[t]) == owners_of(
                b,
                t,
                owner + 1,
            ),
{
    let count: usize = modules.len();
    let edges: usize = modules[owner].dependencies.len();
    let ghost all = file_edges(b, owner as int);
    proof {
        let calls = file_calls(b, owner as int);
        edges_lead_inside(b, owner as int, calls, calls.len() as int);
        assert(is_module_of(modules@[owner as int], b, owner as int));
        assert(forall|t: int|
            #[trigger] owners_so_far(b, t, owner as int, 0) == owners_of(b, t, owner as int));
    }
    let mut e: usize = 0;
    while e < edges
        invariant
            e <= edges,
            owner < count,
            count == modules@.len(),
            count == b.files.len(),
            all == file_edges(b, owner as int),
            edges == all.len(),
            forall|k: int| 0 <= k < all.len() ==> 0 <= (#[trigger] all[k]).target < count,
            forall|i: int| 0 <= i < count ==> is_module_of(#[trigger] modules@[i], b, i),
            forall|t: int|
                0 <= t < count ==> owners_in(#[trigger] modules@[t]) == owners_so_far(
                    b,
                    t,
                    owner as int,
                    e as int,
                ),
        decreases edges - e,
    {
        let ghost held = modules@;
        proof {
            assert(is_module_of(held[owner as int], b, owner as int));
            assert(held[owner as int].dependencies.deep_view()[e as int] == all[e as int]);
        }
        let target: usize = modules[owner].dependencies[e].target;
        assert(all[e as int].target == target);
        add_owner(modules, target, owner);
        proof {
            assert forall|t: int| 0 <= t < count implies owners_in(#[trigger] modules@[t])
                == owners_so_far(b, t, owner as int, e + 1) by {
                one_edge_backwards(b, t, owner as int, e as int);
                assert(owners_in(held[t]) == owners_so_far(b, t, owner as int, e as int));
            }
            assert forall|i: int| 0 <= i < count implies is_module_of(
                #[trigger] modules@[i],
                b,
                i,
            ) by {
                assert(is_module_of(held[i], b, i));
            }
        }
        e = e + 1;
    }
    proof {
        assert forall|t: int| 0 <= t < count implies owners_in(#[trigger] modules@[t])
            == owners_of(b, t, owner + 1) by {
            edge_to_is_any(all, t, 0);
        }
    }
}

fn read_backwards(modules: &mut Vec<Module>, Ghost(b): Ghost<BuildModel>)
    requires
        old(modules)@.len() == b.files.len(),
        forall|i: int|
            0 <= i < b.files.len() ==> is_module_of(#[trigger] old(modules)@[i], b, i) && old(
                modules,
            )@[i].dependents@.len() == 0,
    ensures
        final(modules).deep_view() == built_graph(b),
{
    let count = modules.len();
    let mut owner: usize = 0;
    proof {
        assert forall|t: int| 0 <= t < count implies owners_in(#[trigger] modules@[t])
            == owners_of(b, t, 0) by {
            assert(owners_in(modules@[t]) =~= owners_of(b, t, 0));
        }
    }
    while owner < count
        invariant
            owner <= count,
            count == modules@.len(),
            count == b.files.len(),
            forall|i: int| 0 <= i < count ==> is_module_of(#[trigger] modules@[i], b, i),
            forall|t: int|
                0 <= t < count ==> owners_in(#[trigger] modules@[t]) == owners_of(
                    b,
                    t,
                    owner as int,
                ),
        decreases count - owner,
    {
        read_edges_backwards(modules, owner, Ghost(b));
        owner = owner + 1;
    }
    proof {
        assert forall|i: int| 0 <= i < count implies modules.deep_view()[i] == built_graph(b)[i] by {
            assert(is_module_of(modules@[i], b, i));
            assert(owners_in(modules@[i]) == owners_of(b, i, count as int));
            assert(modules@[i].deep_view() == built_module(b, i));
        }
        assert(modules.deep_view() =~= built_graph(b));
    }
}

fn shared_index(files: &Vec<SourceFile>, sourcemap: &Sourcemap) -> (r: SharedIndex)
    requires
        sourcemap.wf(),
    ensures
        r.entries_model() == entries_of(
            file_paths(files.deep_view()),
            file_paths(files.deep_view()).len() as int,
        ),
        r.names_model() == names_of(sourcemap@, file_paths(files.deep_view())),
{
    let ghost all = file_paths(files.deep_view());
    let mut paths: Vec<String> = Vec::new();
    let mut i: usize = 0;
    while i < files.len()
        invariant
            i <= files@.len(),
            all == file_paths(files.deep_view()),
            paths.deep_view() == all.take(i as int),
        decreases files@.len() - i,
    {
        let ghost before = paths.deep_view();
        assert(files.deep_view()[i as int] == files@[i as int].deep_view());
        paths.push(files[i].relative_path.clone());
        assert(paths.deep_view() =~= before.push(all[i as int]));
        assert(paths.deep_view() =~= all.take(i + 1));
        i = i + 1;
    }
    assert(all.take(i as int) =~= all);
    SharedIndex::build(&paths, sourcemap)
}

/// Builds the graph of a project.
pub fn build(
    files: &Vec<SourceFile>,
    shared_require: bool,
    sourcemap: &Sourcemap,
    disk: &DiskFacts,
    stamp: GraphStamp,
) -> (r: RequireGraph)
    requires
        sourcemap.wf(),
    ensures
        r@ == built_graph(build_model(files, shared_require, sourcemap, disk)),
        r.stamp == stamp,
        r.wf(),
{
    let ghost b = build_model(files, shared_require, sourcemap, disk);
    let index: Option<SharedIndex> = if shared_require {
        Some(shared_index(files, sourcemap))
    } else {
        None
    };
    let shared: Option<&SharedIndex> = match &index {
        Some(held) => Some(held),
        None => None,
    };
    let mut modules: Vec<Module> = Vec::new();
    let mut owner: usize = 0;
    while owner < files.len()
        invariant
            owner <= files@.len(),
            modules@.len() == owner,
            sourcemap.wf(),
            b == build_model(files, shared_require, sourcemap, disk),
            shared is Some == shared_require,
            shared matches Some(index) ==> index.entries_model() == entries_of(
                file_paths(files.deep_view()),
                file_paths(files.deep_view()).len() as int,
            ) && index.names_model() == names_of(sourcemap@, file_paths(files.deep_view())),
            forall|i: int|
                0 <= i < owner ==> {
                    let module = #[trigger] modules@[i];
                    &&& module.relative_path@ == built_module(b, i).relative_path
                    &&& module.instance_path.deep_view() == built_module(b, i).instance_path
                    &&& module.dependencies.deep_view() == built_module(b, i).dependencies
                    &&& module.unresolved.deep_view() == built_module(b, i).unresolved
                    &&& module.dependents@.len() == 0
                },
        decreases files@.len() - owner,
    {
        modules.push(module_of(files, owner, shared, sourcemap, disk));
        owner = owner + 1;
    }
    read_backwards(&mut modules, Ghost(b));
    proof {
        built_graph_is_wf(b);
    }
    RequireGraph { modules, stamp }
}

/// Decides whether a graph still stands for the files and the sourcemap that a stamp is of.
pub fn is_current(graph: &RequireGraph, stamp: &GraphStamp) -> (b: bool)
    ensures
        b == (graph.stamp == *stamp),
{
    graph.stamp().same(stamp)
}

/// Rebuilds the graph only when the files it was built from have moved.
pub fn build_or_reuse(
    cached: Option<RequireGraph>,
    files: &Vec<SourceFile>,
    shared_require: bool,
    sourcemap: &Sourcemap,
    disk: &DiskFacts,
    stamp: GraphStamp,
) -> (r: RequireGraph)
    requires
        sourcemap.wf(),
    ensures
        cached matches Some(graph) && graph.stamp == stamp ==> Some(r) == cached,
        !(cached matches Some(graph) && graph.stamp == stamp) ==> r@ == built_graph(
            build_model(files, shared_require, sourcemap, disk),
        ) && r.stamp == stamp && r.wf(),
{
    if let Some(graph) = cached {
        if is_current(&graph, &stamp) {
            return graph;
        }
    }
    build(files, shared_require, sourcemap, disk, stamp)
}

} // verus!
