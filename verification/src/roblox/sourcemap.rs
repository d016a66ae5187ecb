//! The instance tree rojo writes.
use vstd::prelude::*;
use super::instance_path::{parse_instance_path, path_segments};
use crate::errors::{hinted, hinted_failure, Failure, FailureModel};
use crate::text::{
    ends_with, has_suffix, join, joined, last_position_before, owned, owned_list, quote, quoted,
    replace_char, replaced_char, rfind_char, rsplit_once_on, same_text, slice_text, to_chars,
};

verus! {

/// When a file was last written, in nanoseconds since the Unix epoch, and how long it is.
#[derive(Debug, Clone, Copy, PartialEq, Eq, Structural)]
pub struct FileStamp {
    pub modified_nanos: i128,
    pub len: u64,
}

/// Children listed when a path resolves partway and then fails, so the caller can correct the
/// segment rather than guess at it again.
pub const SUGGESTED_CHILDREN: usize = 24;

/// `sourcemap.json` as rojo writes it: a tree of instances, each naming the files it was built
/// from.
#[derive(Debug)]
pub struct RawNode {
    pub name: String,
    pub class_name: String,
    pub file_paths: Vec<String>,
    pub children: Vec<RawNode>,
}

/// One instance, flattened into an arena so a node can be walked in either direction.
#[derive(Debug)]
pub struct Node {
    pub name: String,
    pub class_name: String,
    pub parent: Option<usize>,
    pub children: Vec<usize>,
    /// Project-relative, with forward slashes whatever platform wrote the sourcemap.
    pub file_paths: Vec<String>,
    /// Spelled out once at load time because it is what almost every answer reports.
    pub instance_path: String,
}

/// What an answer reports about the sourcemap it came from, so the caller can judge how old it is.
#[derive(Debug)]
pub struct SourcemapReference {
    pub relative_path: String,
    pub modified_epoch_seconds: Option<u64>,
    pub age_seconds: Option<u64>,
    pub instances: usize,
}

/// One instance, in the form the answer reports it.
#[derive(Debug)]
pub struct InstanceAnswer {
    pub instance_path: String,
    pub class_name: String,
    /// Every file the instance was built from, which for a folder is the directory itself.
    pub file_paths: Vec<String>,
    /// The Luau file among them, where there is one. This is the path the symbol tools take.
    pub script_file: Option<String>,
    /// The top-level service it sits under, which is what decides where the code runs.
    pub service: Option<String>,
    pub children: usize,
}

/// The answer to a translation in either direction. A project is free to mount the same directory
/// twice, so it is a list.
#[derive(Debug)]
pub struct ResolveAnswer {
    pub instances: Vec<InstanceAnswer>,
    pub sourcemap: SourcemapReference,
}

/// The instances of a project.
#[derive(Debug)]
pub struct Sourcemap {
    nodes: Vec<Node>,
    relative_path: String,
    stamp: Option<FileStamp>,
}

pub struct NodeModel {
    pub name: Seq<char>,
    pub class_name: Seq<char>,
    pub parent: Option<int>,
    pub children: Seq<int>,
    pub file_paths: Seq<Seq<char>>,
    pub instance_path: Seq<char>,
}

pub struct ReferenceModel {
    pub relative_path: Seq<char>,
    pub modified_epoch_seconds: Option<u64>,
    pub age_seconds: Option<u64>,
    pub instances: int,
}

pub struct InstanceModel {
    pub instance_path: Seq<char>,
    pub class_name: Seq<char>,
    pub file_paths: Seq<Seq<char>>,
    pub script_file: Option<Seq<char>>,
    pub service: Option<Seq<char>>,
    pub children: int,
}

pub struct ResolveModel {
    pub instances: Seq<InstanceModel>,
    pub sourcemap: ReferenceModel,
}

impl DeepView for Node {
    type V = NodeModel;

    open spec fn deep_view(&self) -> NodeModel {
        NodeModel {
            name: self.name@,
            class_name: self.class_name@,
            parent: match self.parent {
                Some(p) => Some(p as int),
                None => None,
            },
            children: self.children@.map_values(|c: usize| c as int),
            file_paths: self.file_paths.deep_view(),
            instance_path: self.instance_path@,
        }
    }
}

impl DeepView for SourcemapReference {
    type V = ReferenceModel;

    open spec fn deep_view(&self) -> ReferenceModel {
        ReferenceModel {
            relative_path: self.relative_path@,
            modified_epoch_seconds: self.modified_epoch_seconds,
            age_seconds: self.age_seconds,
            instances: self.instances as int,
        }
    }
}

impl DeepView for InstanceAnswer {
    type V = InstanceModel;

    open spec fn deep_view(&self) -> InstanceModel {
        InstanceModel {
            instance_path: self.instance_path@,
            class_name: self.class_name@,
            file_paths: self.file_paths.deep_view(),
            script_file: self.script_file.deep_view(),
            service: self.service.deep_view(),
            children: self.children as int,
        }
    }
}

impl DeepView for ResolveAnswer {
    type V = ResolveModel;

    open spec fn deep_view(&self) -> ResolveModel {
        ResolveModel {
            instances: self.instances.deep_view(),
            sourcemap: self.sourcemap.deep_view(),
        }
    }
}

impl View for Sourcemap {
    type V = Seq<NodeModel>;

    closed spec fn view(&self) -> Seq<NodeModel> {
        self.nodes.deep_view()
    }
}

// ---------------------------------------------------------------------------
// Paths

/// A text without the `./` it starts with, however often.
pub open spec fn without_dot_slashes(s: Seq<char>) -> Seq<char>
    decreases s.len(),
{
    if s.len() >= 2 && s[0] == '.' && s[1] == '/' {
        without_dot_slashes(s.skip(2))
    } else {
        s
    }
}

/// A text without the slashes it starts with.
pub open spec fn without_leading_slashes(s: Seq<char>) -> Seq<char>
    decreases s.len(),
{
    if s.len() >= 1 && s[0] == '/' {
        without_leading_slashes(s.skip(1))
    } else {
        s
    }
}

/// A text without the slashes it ends with.
pub open spec fn without_trailing_slashes(s: Seq<char>) -> Seq<char>
    decreases s.len(),
{
    if s.len() >= 1 && s.last() == '/' {
        without_trailing_slashes(s.drop_last())
    } else {
        s
    }
}

/// A path as Biskit spells it: forward slashes, no leading `./`, no slash at either end.
pub open spec fn normalized(path: Seq<char>) -> Seq<char> {
    without_trailing_slashes(
        without_leading_slashes(without_dot_slashes(replaced_char(path, '\\', '/'))),
    )
}

/// Sourcemaps written on Windows carry backslashes; every path Biskit reports uses forward
/// slashes, so the two have to meet somewhere.
pub fn normalize(path: &str) -> (r: String)
    ensures
        r@ == normalized(path@),
{
    let replaced = replace_char(path, '\\', '/');
    let chars = to_chars(replaced.as_str());
    let ghost s = chars@;
    let end: usize = chars.len();
    let mut from: usize = 0;
    assert(s.skip(0) =~= s);
    while from < end && end - from >= 2 && chars[from] == '.' && chars[from + 1] == '/'
        invariant
            from <= end,
            end == chars@.len(),
            s == chars@,
            without_dot_slashes(s) == without_dot_slashes(s.skip(from as int)),
        decreases end - from,
    {
        assert(s.skip(from as int).skip(2) =~= s.skip(from + 2));
        from = from + 2;
    }
    let ghost undotted = s.skip(from as int);
    assert(undotted == without_dot_slashes(s));
    while from < end && chars[from] == '/'
        invariant
            from <= end,
            end == chars@.len(),
            s == chars@,
            without_leading_slashes(undotted) == without_leading_slashes(s.skip(from as int)),
        decreases end - from,
    {
        assert(s.skip(from as int).skip(1) =~= s.skip(from + 1));
        from = from + 1;
    }
    let ghost unslashed = s.skip(from as int);
    assert(unslashed == without_leading_slashes(undotted));
    let mut to: usize = end;
    assert(s.subrange(from as int, to as int) =~= unslashed);
    while to > from && chars[to - 1] == '/'
        invariant
            from <= to <= end,
            end == chars@.len(),
            s == chars@,
            without_trailing_slashes(unslashed) == without_trailing_slashes(
                s.subrange(from as int, to as int),
            ),
        decreases to,
    {
        let ghost here = s.subrange(from as int, to as int);
        assert(here.last() == s[to - 1]);
        assert(here.drop_last() =~= s.subrange(from as int, to - 1));
        to = to - 1;
    }
    slice_text(&chars, from, to)
}

/// The last name of a path: what follows its last slash, once the slashes and the `/.` it ends
/// with are dropped.
pub open spec fn file_name_of(path: Seq<char>) -> Seq<char>
    decreases path.len(),
{
    if path.len() > 0 && path.last() == '/' {
        file_name_of(path.drop_last())
    } else if path.len() > 1 && path.last() == '.' && path[path.len() - 2] == '/' {
        file_name_of(path.take(path.len() - 2))
    } else {
        match last_position_before(path, '/', path.len() as int) {
            Some(i) => path.skip(i + 1),
            None => path,
        }
    }
}

/// Whether a path's extension is `luau` or `lua`. A name that starts with its only dot has no
/// extension.
pub open spec fn names_luau(path: Seq<char>) -> bool {
    let name = file_name_of(path);
    ||| name.len() > 5 && ends_with(name, ".luau"@)
    ||| name.len() > 4 && ends_with(name, ".lua"@)
}

/// Whether a path names a Luau file.
pub fn is_luau_path(path: &str) -> (b: bool)
    ensures
        b == names_luau(path@),
{
    let chars = to_chars(path);
    let mut to: usize = chars.len();
    assert(path@.take(to as int) =~= path@);
    while (to > 0 && chars[to - 1] == '/') || (to > 1 && chars[to - 1] == '.' && chars[to - 2]
        == '/')
        invariant
            to <= chars@.len(),
            chars@ == path@,
            file_name_of(path@) == file_name_of(path@.take(to as int)),
        decreases to,
    {
        let ghost here = path@.take(to as int);
        if chars[to - 1] == '/' {
            assert(here.drop_last() =~= path@.take(to - 1));
            to = to - 1;
        } else {
            assert(here.take(here.len() - 2) =~= path@.take(to - 2));
            to = to - 2;
        }
    }
    let trimmed = to_chars(slice_text(&chars, 0, to).as_str());
    assert(trimmed@ =~= path@.take(to as int));
    let from: usize = match rfind_char(&trimmed, '/') {
        Some(i) => i + 1,
        None => 0,
    };
    let name = slice_text(&trimmed, from, trimmed.len());
    assert(from == 0 ==> trimmed@.subrange(0, trimmed@.len() as int) =~= trimmed@);
    assert(trimmed@.skip(from as int) =~= trimmed@.subrange(from as int, trimmed@.len() as int));
    let len: usize = trimmed.len() - from;
    (len > 5 && has_suffix(name.as_str(), ".luau")) || (len > 4 && has_suffix(
        name.as_str(),
        ".lua",
    ))
}

/// What follows the last slash of a text.
pub open spec fn after_last_slash(path: Seq<char>) -> Seq<char> {
    match last_position_before(path, '/', path.len() as int) {
        Some(i) => path.skip(i + 1),
        None => path,
    }
}

/// The names rojo folds into the instance their directory names.
pub open spec fn names_init(path: Seq<char>) -> bool {
    let name = after_last_slash(path);
    ||| name == "init.luau"@
    ||| name == "init.lua"@
    ||| name == "init.server.luau"@
    ||| name == "init.server.lua"@
    ||| name == "init.client.luau"@
    ||| name == "init.client.lua"@
}

/// A file rojo folds into the instance its directory names.
pub fn is_init_file(path: &str) -> (b: bool)
    ensures
        b == names_init(path@),
{
    let chars = to_chars(path);
    let from: usize = match rfind_char(&chars, '/') {
        Some(i) => i + 1,
        None => 0,
    };
    let name = slice_text(&chars, from, chars.len());
    assert(name@ =~= after_last_slash(path@));
    let name = name.as_str();
    same_text(name, "init.luau") || same_text(name, "init.lua") || same_text(
        name,
        "init.server.luau",
    ) || same_text(name, "init.server.lua") || same_text(name, "init.client.luau") || same_text(
        name,
        "init.client.lua",
    )
}

/// The DataModel is spelled `game` in every Roblox script, whatever the rojo project named it.
pub open spec fn label_of_root(name: Seq<char>, class_name: Seq<char>) -> Seq<char> {
    if class_name == "DataModel"@ {
        "game"@
    } else {
        name
    }
}

/// A project that is not rooted at a DataModel, such as a model or a package, keeps its own name.
fn root_label(name: &str, class_name: &str) -> (r: String)
    ensures
        r@ == label_of_root(name@, class_name@),
{
    if same_text(class_name, "DataModel") {
        owned("game")
    } else {
        owned(name)
    }
}

// ---------------------------------------------------------------------------
// The tree

/// What a node holds apart from the list of its children.
pub struct Row {
    pub name: Seq<char>,
    pub class_name: Seq<char>,
    pub parent: Option<int>,
    pub file_paths: Seq<Seq<char>>,
    pub instance_path: Seq<char>,
}

/// The node of a raw instance.
pub open spec fn row_of(raw: RawNode, parent: Option<int>, instance_path: Seq<char>) -> Row {
    Row {
        name: raw.name@,
        class_name: raw.class_name@,
        parent,
        file_paths: raw.file_paths.deep_view().map_values(|path: Seq<char>| normalized(path)),
        instance_path,
    }
}

/// The path of a child.
pub open spec fn child_path(owner: Seq<char>, name: Seq<char>) -> Seq<char> {
    owner + "."@ + name
}

/// How many instances a raw tree holds.
pub open spec fn tree_size(raw: RawNode) -> int
    decreases raw, 0int,
{
    1 + forest_size(raw.children@)
}

/// How many instances several raw trees hold.
pub open spec fn forest_size(forest: Seq<RawNode>) -> int
    decreases forest, 1int,
{
    if forest.len() == 0 {
        0
    } else {
        tree_size(forest[0]) + forest_size(forest.skip(1))
    }
}

/// The nodes of a raw tree, each instance before its children and the children in the order the
/// sourcemap wrote them. The first node stands at position `base`.
pub open spec fn tree_rows(
    raw: RawNode,
    parent: Option<int>,
    instance_path: Seq<char>,
    base: int,
) -> Seq<Row>
    decreases raw, 0int,
{
    seq![row_of(raw, parent, instance_path)] + forest_rows(
        raw.children@,
        base,
        instance_path,
        base + 1,
    )
}

/// The nodes of the children of the node at `owner`, one tree after another.
pub open spec fn forest_rows(
    forest: Seq<RawNode>,
    owner: int,
    owner_path: Seq<char>,
    base: int,
) -> Seq<Row>
    decreases forest, 1int,
{
    if forest.len() == 0 {
        Seq::empty()
    } else {
        let first = tree_rows(
            forest[0],
            Some(owner),
            child_path(owner_path, forest[0].name@),
            base,
        );
        first + forest_rows(forest.skip(1), owner, owner_path, base + tree_size(forest[0]))
    }
}

/// All the nodes of a sourcemap.
pub open spec fn all_rows(root: RawNode) -> Seq<Row> {
    tree_rows(root, None, label_of_root(root.name@, root.class_name@), 0)
}

/// The nodes among the first `n` whose parent is `i`, in order.
pub open spec fn children_of(nodes: Seq<NodeModel>, i: int, n: int) -> Seq<int>
    decreases n,
{
    if n <= 0 {
        Seq::empty()
    } else if nodes[n - 1].parent == Some(i) {
        children_of(nodes, i, n - 1).push(n - 1)
    } else {
        children_of(nodes, i, n - 1)
    }
}

pub open spec fn row_model(node: NodeModel) -> Row {
    Row {
        name: node.name,
        class_name: node.class_name,
        parent: node.parent,
        file_paths: node.file_paths,
        instance_path: node.instance_path,
    }
}

pub open spec fn rows_model(nodes: Seq<NodeModel>) -> Seq<Row> {
    nodes.map_values(|node: NodeModel| row_model(node))
}

/// What holds of every node: the root alone has no parent, a parent comes before its children,
/// the children are those whose parent it is, and a path is the parent's path and the name.
pub open spec fn node_wf(nodes: Seq<NodeModel>, i: int) -> bool {
    &&& i == 0 <==> nodes[i].parent is None
    &&& nodes[i].parent matches Some(p) ==> 0 <= p < i && nodes[i].instance_path == child_path(
        nodes[p].instance_path,
        nodes[i].name,
    )
    &&& nodes[i].children == children_of(nodes, i, nodes.len() as int)
}

/// A tree of instances with its root first.
pub open spec fn tree_wf(nodes: Seq<NodeModel>) -> bool {
    &&& nodes.len() > 0
    &&& forall|i: int| 0 <= i < nodes.len() ==> #[trigger] node_wf(nodes, i)
}

/// The work still on the stack, top first. `paths` holds the instance paths of the nodes made.
spec fn pending_rows(
    pending: Seq<(RawNode, Option<usize>)>,
    paths: Seq<Seq<char>>,
    base: int,
) -> Seq<Row>
    decreases pending.len(),
{
    if pending.len() == 0 {
        Seq::empty()
    } else {
        let (raw, parent) = pending.last();
        let path = match parent {
            None => label_of_root(raw.name@, raw.class_name@),
            Some(owner) => child_path(paths[owner as int], raw.name@),
        };
        let owner = match parent {
            None => None,
            Some(owner) => Some(owner as int),
        };
        tree_rows(raw, owner, path, base) + pending_rows(
            pending.drop_last(),
            paths,
            base + tree_size(raw),
        )
    }
}

proof fn sizes_match(raw: RawNode, parent: Option<int>, path: Seq<char>, base: int)
    ensures
        tree_rows(raw, parent, path, base).len() == tree_size(raw),
        tree_size(raw) >= 1,
    decreases raw, 0int,
{
    forest_sizes_match(raw.children@, base, path, base + 1);
}

proof fn forest_sizes_match(forest: Seq<RawNode>, owner: int, path: Seq<char>, base: int)
    ensures
        forest_rows(forest, owner, path, base).len() == forest_size(forest),
        forest_size(forest) >= 0,
    decreases forest, 1int,
{
    if forest.len() > 0 {
        sizes_match(forest[0], Some(owner), child_path(path, forest[0].name@), base);
        forest_sizes_match(forest.skip(1), owner, path, base + tree_size(forest[0]));
    }
}

proof fn pending_ignores_later_paths(
    pending: Seq<(RawNode, Option<usize>)>,
    paths: Seq<Seq<char>>,
    more: Seq<Seq<char>>,
    base: int,
)
    requires
        paths.len() <= more.len(),
        forall|k: int| 0 <= k < paths.len() ==> paths[k] == more[k],
        forall|k: int|
            0 <= k < pending.len() ==> ((#[trigger] pending[k]).1 matches Some(p) ==> p
                < paths.len()),
    ensures
        pending_rows(pending, paths, base) == pending_rows(pending, more, base),
    decreases pending.len(),
{
    if pending.len() > 0 {
        assert(pending.last() == pending[pending.len() - 1]);
        assert forall|k: int| 0 <= k < pending.drop_last().len() implies ((
        #[trigger] pending.drop_last()[k]).1 matches Some(p) ==> p < paths.len()) by {
            assert(pending.drop_last()[k] == pending[k]);
        }
        pending_ignores_later_paths(
            pending.drop_last(),
            paths,
            more,
            base + tree_size(pending.last().0),
        );
    }
}

/// Pushing the children in reverse puts their nodes ahead of what was waiting.
proof fn pending_children(
    waiting: Seq<(RawNode, Option<usize>)>,
    stacked: Seq<(RawNode, Option<usize>)>,
    children: Seq<RawNode>,
    owner: usize,
    paths: Seq<Seq<char>>,
    base: int,
)
    requires
        stacked.len() == waiting.len() + children.len(),
        forall|k: int| 0 <= k < waiting.len() ==> stacked[k] == waiting[k],
        forall|k: int|
            0 <= k < children.len() ==> #[trigger] stacked[waiting.len() + k] == (
                children[children.len() - 1 - k],
                Some(owner),
            ),
    ensures
        pending_rows(stacked, paths, base) == forest_rows(
            children,
            owner as int,
            paths[owner as int],
            base,
        ) + pending_rows(waiting, paths, base + forest_size(children)),
    decreases children.len(),
{
    if children.len() == 0 {
        assert(stacked =~= waiting);
        assert(forest_rows(children, owner as int, paths[owner as int], base) + pending_rows(
            waiting,
            paths,
            base,
        ) =~= pending_rows(waiting, paths, base));
    } else {
        let last = stacked.len() - 1;
        assert(stacked[waiting.len() + (children.len() - 1)] == (children[0], Some(owner)));
        assert(stacked.last() == (children[0], Some(owner)));
        let rest = children.skip(1);
        let below = stacked.drop_last();
        assert forall|k: int| 0 <= k < rest.len() implies #[trigger] below[waiting.len() + k] == (
            rest[rest.len() - 1 - k],
            Some(owner),
        ) by {
            assert(stacked[waiting.len() + k] == (children[children.len() - 1 - k], Some(owner)));
        }
        let size = tree_size(children[0]);
        pending_children(waiting, below, rest, owner, paths, base + size);
        let first = tree_rows(
            children[0],
            Some(owner as int),
            child_path(paths[owner as int], children[0].name@),
            base,
        );
        let middle = forest_rows(rest, owner as int, paths[owner as int], base + size);
        let tail = pending_rows(waiting, paths, base + forest_size(children));
        assert(base + size + forest_size(rest) == base + forest_size(children));
        assert(first + (middle + tail) =~= (first + middle) + tail);
    }
}

proof fn children_of_extended(nodes: Seq<NodeModel>, more: Seq<NodeModel>, i: int, n: int)
    requires
        n <= nodes.len(),
        nodes.len() <= more.len(),
        forall|k: int| 0 <= k < nodes.len() ==> (#[trigger] nodes[k]).parent == more[k].parent,
    ensures
        children_of(nodes, i, n) == children_of(more, i, n),
    decreases n,
{
    if n > 0 {
        children_of_extended(nodes, more, i, n - 1);
        assert(nodes[n - 1].parent == more[n - 1].parent);
    }
}

/// The children of a node are nodes that come after it, and their parent is the node.
pub proof fn children_point_back(nodes: Seq<NodeModel>, i: int, n: int)
    requires
        0 <= n <= nodes.len(),
    ensures
        forall|k: int|
            0 <= k < children_of(nodes, i, n).len() ==> {
                let child = #[trigger] children_of(nodes, i, n)[k];
                0 <= child < n && nodes[child].parent == Some(i)
            },
        forall|c: int|
            0 <= c < n && nodes[c].parent == Some(i) ==> #[trigger] children_of(
                nodes,
                i,
                n,
            ).contains(c),
        forall|j: int, k: int|
            0 <= j < k < children_of(nodes, i, n).len() ==> children_of(nodes, i, n)[j]
                < children_of(nodes, i, n)[k],
    decreases n,
{
    if n > 0 {
        children_point_back(nodes, i, n - 1);
        let before = children_of(nodes, i, n - 1);
        let after = children_of(nodes, i, n);
        if nodes[n - 1].parent == Some(i) {
            assert(after[before.len() as int] == n - 1);
            assert forall|c: int| 0 <= c < n && nodes[c].parent == Some(i) implies #[trigger] after.contains(
                c,
            ) by {
                if c < n - 1 {
                    assert(before.contains(c));
                    let k = choose|k: int| 0 <= k < before.len() && before[k] == c;
                    assert(after[k] == c);
                }
            }
        }
    }
}

fn normalize_all(paths: &Vec<String>) -> (r: Vec<String>)
    ensures
        r.deep_view() == paths.deep_view().map_values(|path: Seq<char>| normalized(path)),
{
    let ghost all = paths.deep_view().map_values(|path: Seq<char>| normalized(path));
    let mut r: Vec<String> = Vec::new();
    let mut i: usize = 0;
    while i < paths.len()
        invariant
            i <= paths@.len(),
            all == paths.deep_view().map_values(|path: Seq<char>| normalized(path)),
            r.deep_view() == all.take(i as int),
        decreases paths@.len() - i,
    {
        let ghost before = r.deep_view();
        r.push(normalize(paths[i].as_str()));
        assert(r.deep_view() =~= before.push(all[i as int]));
        assert(r.deep_view() =~= all.take(i + 1));
        i = i + 1;
    }
    assert(all.take(i as int) =~= all);
    r
}

// ---------------------------------------------------------------------------
// Looking things up

/// The first of the nodes listed that has the name, from position `k` of the list on.
pub open spec fn child_named(
    nodes: Seq<NodeModel>,
    children: Seq<int>,
    name: Seq<char>,
    k: int,
) -> Option<int>
    decreases children.len() - k,
{
    if k < 0 || k >= children.len() {
        None
    } else if nodes[children[k]].name == name {
        Some(children[k])
    } else {
        child_named(nodes, children, name, k + 1)
    }
}

/// The first Luau file in a list, from position `k` on.
pub open spec fn first_luau(paths: Seq<Seq<char>>, k: int) -> Option<Seq<char>>
    decreases paths.len() - k,
{
    if k < 0 || k >= paths.len() {
        None
    } else if names_luau(paths[k]) {
        Some(paths[k])
    } else {
        first_luau(paths, k + 1)
    }
}

/// The name of the top-level ancestor of a node, which a top-level node is itself.
pub open spec fn service_name(nodes: Seq<NodeModel>, i: int) -> Option<Seq<char>>
    decreases i,
{
    match nodes[i].parent {
        None => None,
        Some(p) => if p == 0 {
            Some(nodes[i].name)
        } else if 0 < p < i {
            service_name(nodes, p)
        } else {
            None
        },
    }
}

/// A node as the answer reports it.
pub open spec fn described(nodes: Seq<NodeModel>, i: int) -> InstanceModel {
    InstanceModel {
        instance_path: nodes[i].instance_path,
        class_name: nodes[i].class_name,
        file_paths: nodes[i].file_paths,
        script_file: first_luau(nodes[i].file_paths, 0),
        service: service_name(nodes, i),
        children: nodes[i].children.len() as int,
    }
}

/// The node `i` once for each time its files, among the first `n`, name the file.
pub open spec fn mentions(paths: Seq<Seq<char>>, file: Seq<char>, i: int, n: int) -> Seq<int>
    decreases n,
{
    if n <= 0 {
        Seq::empty()
    } else if paths[n - 1] == file {
        mentions(paths, file, i, n - 1).push(i)
    } else {
        mentions(paths, file, i, n - 1)
    }
}

/// The nodes among the first `n` that are built from a file, in order.
pub open spec fn built_from(nodes: Seq<NodeModel>, file: Seq<char>, n: int) -> Seq<int>
    decreases n,
{
    if n <= 0 {
        Seq::empty()
    } else {
        built_from(nodes, file, n - 1) + mentions(
            nodes[n - 1].file_paths,
            file,
            n - 1,
            nodes[n - 1].file_paths.len() as int,
        )
    }
}

/// The nodes a file stands for: those built from it, or else, for an init file, those built from
/// the directory that owns it.
pub open spec fn nodes_of_file(nodes: Seq<NodeModel>, relative_path: Seq<char>) -> Seq<int> {
    let file = normalized(relative_path);
    let direct = built_from(nodes, file, nodes.len() as int);
    if direct.len() > 0 {
        direct
    } else if names_init(file) {
        match rsplit_once_on(file, '/') {
            Some((directory, _)) => built_from(nodes, directory, nodes.len() as int),
            None => Seq::empty(),
        }
    } else {
        Seq::empty()
    }
}

/// Where a walk down by names ends: the node, or the node and the name that failed there.
pub open spec fn descend(nodes: Seq<NodeModel>, at: int, names: Seq<Seq<char>>) -> Result<
    int,
    (int, Seq<char>),
>
    decreases names.len(),
{
    if names.len() == 0 {
        Ok(at)
    } else {
        match child_named(nodes, nodes[at].children, names[0], 0) {
            Some(child) => descend(nodes, child, names.skip(1)),
            None => Err((at, names[0])),
        }
    }
}

/// A path may or may not start at the DataModel, and `game` is the name Roblox code uses for it
/// whatever the rojo project is called.
pub open spec fn below_root(nodes: Seq<NodeModel>, segments: Seq<Seq<char>>) -> Seq<Seq<char>> {
    if segments.len() > 0 && (segments[0] == "game"@ || segments[0] == nodes[0].name) {
        segments.skip(1)
    } else {
        segments
    }
}

/// The names of the children suggested in place of one that is not there.
pub open spec fn suggested_names(nodes: Seq<NodeModel>, at: int) -> Seq<Seq<char>> {
    let children = nodes[at].children;
    let shown = if children.len() < SUGGESTED_CHILDREN {
        children.len() as int
    } else {
        SUGGESTED_CHILDREN as int
    };
    children.take(shown).map_values(|c: int| nodes[c].name)
}

/// What the caller is told of the children of a node.
pub open spec fn children_listing(nodes: Seq<NodeModel>, at: int) -> Seq<char> {
    let names = suggested_names(nodes, at);
    if names.len() == 0 {
        "it has no children"@
    } else {
        "its children are: "@ + joined(names, ", "@)
    }
}

/// The failure of a path whose name `segment` is not among the children of node `at`.
pub open spec fn no_such_child(nodes: Seq<NodeModel>, at: int, segment: Seq<char>) -> FailureModel {
    hinted_failure(
        "no instance named "@ + segment + " under "@ + nodes[at].instance_path,
        children_listing(nodes, at)
            + ". Paths are case-sensitive, and an instance added since the sourcemap was written is not in it."@,
    )
}

/// The node an instance path names, or the failure it meets.
pub open spec fn node_at_path(nodes: Seq<NodeModel>, instance_path: Seq<char>) -> Result<
    int,
    FailureModel,
> {
    let segments = path_segments(instance_path);
    if segments.len() == 0 {
        Err(
            hinted_failure(
                "instance_path names no instance: "@ + quoted(instance_path),
                "an instance path looks like \"game.ReplicatedStorage.Shared.Combat\""@,
            ),
        )
    } else {
        match descend(nodes, 0, below_root(nodes, segments)) {
            Ok(node) => Ok(node),
            Err((at, segment)) => Err(no_such_child(nodes, at, segment)),
        }
    }
}

/// The instances a translation answers with, or the failure it meets.
pub open spec fn resolved_instances(
    nodes: Seq<NodeModel>,
    instance_path: Option<Seq<char>>,
    relative_path: Option<Seq<char>>,
) -> Result<Seq<InstanceModel>, FailureModel> {
    match (instance_path, relative_path) {
        (Some(_), Some(_)) => Err(
            hinted_failure(
                "pass either instance_path or relative_path, not both"@,
                "instance_path translates a DataModel path to files, relative_path translates a file to its DataModel path"@,
            ),
        ),
        (Some(path), None) => match node_at_path(nodes, path) {
            Ok(node) => Ok(seq![described(nodes, node)]),
            Err(failure) => Err(failure),
        },
        (None, Some(relative)) => {
            let found = nodes_of_file(nodes, relative);
            if found.len() == 0 {
                Err(
                    hinted_failure(
                        "no instance in the sourcemap is built from "@ + relative,
                        "the sourcemap only names files the rojo project actually syncs; a file outside the project tree is not in the game at all, and a file added since the sourcemap was written needs it regenerated"@,
                    ),
                )
            } else {
                Ok(found.map_values(|node: int| described(nodes, node)))
            }
        },
        (None, None) => Err(
            hinted_failure(
                "neither instance_path nor relative_path was given"@,
                "pass instance_path to go from the DataModel to files, or relative_path to go the other way"@,
            ),
        ),
    }
}

/// The Luau files among the first `n` of a list.
pub open spec fn luau_among(paths: Seq<Seq<char>>, n: int) -> Seq<Seq<char>>
    decreases n,
{
    if n <= 0 {
        Seq::empty()
    } else if names_luau(paths[n - 1]) {
        luau_among(paths, n - 1).push(paths[n - 1])
    } else {
        luau_among(paths, n - 1)
    }
}

/// The Luau files the first `n` nodes are built from.
pub open spec fn luau_files_of(nodes: Seq<NodeModel>, n: int) -> Seq<Seq<char>>
    decreases n,
{
    if n <= 0 {
        Seq::empty()
    } else {
        luau_files_of(nodes, n - 1) + luau_among(
            nodes[n - 1].file_paths,
            nodes[n - 1].file_paths.len() as int,
        )
    }
}

/// A number of seconds, where it fits.
pub open spec fn seconds_between(from: int, to: int) -> Option<u64> {
    if from <= to && (to - from) / 1_000_000_000 <= u64::MAX {
        Some(((to - from) / 1_000_000_000) as u64)
    } else {
        None
    }
}

pub fn seconds_from(from: i128, to: i128) -> (r: Option<u64>)
    ensures
        r == seconds_between(from as int, to as int),
{
    if from > to {
        return None;
    }
    match to.checked_sub(from) {
        Some(nanos) => {
            let seconds: i128 = nanos / 1_000_000_000;
            if seconds <= u64::MAX as i128 {
                Some(seconds as u64)
            } else {
                None
            }
        },
        None => None,
    }
}

/// What an answer reports of a sourcemap of `instances` instances.
pub open spec fn reference_model(
    relative_path: Seq<char>,
    stamp: Option<FileStamp>,
    instances: int,
    now_nanos: int,
) -> ReferenceModel {
    ReferenceModel {
        relative_path,
        modified_epoch_seconds: match stamp {
            Some(file) => seconds_between(0, file.modified_nanos as int),
            None => None,
        },
        age_seconds: match stamp {
            Some(file) => seconds_between(file.modified_nanos as int, now_nanos),
            None => None,
        },
        instances,
    }
}

impl Sourcemap {
    /// A tree of instances with its root first.
    pub open spec fn wf(&self) -> bool {
        tree_wf(self@)
    }

    /// Where the sourcemap stands in the project.
    pub closed spec fn path_model(&self) -> Seq<char> {
        self.relative_path@
    }

    /// What its file looked like when it was read.
    pub closed spec fn stamp_model(&self) -> Option<FileStamp> {
        self.stamp
    }

    /// Flattens the tree rojo wrote.
    pub fn index(root: RawNode, relative_path: String, stamp: Option<FileStamp>) -> (map: Sourcemap)
        ensures
            map.wf(),
            rows_model(map@) == all_rows(root),
            map.path_model() == relative_path@,
            map.stamp_model() == stamp,
    {
        let ghost whole = all_rows(root);
        let mut nodes: Vec<Node> = Vec::new();
        let mut pending: Vec<(RawNode, Option<usize>)> = Vec::new();
        let ghost mut paths: Seq<Seq<char>> = Seq::empty();
        pending.push((root, None));
        proof {
            let start = pending@;
            assert(start.drop_last() =~= Seq::empty());
            assert(start.last() == (root, None::<usize>));
            assert(pending_rows(start.drop_last(), paths, tree_size(root)) =~= Seq::empty());
            assert(pending_rows(start, paths, 0) =~= whole);
            assert(rows_model(nodes.deep_view()) + whole =~= whole);
        }
        while pending.len() > 0
            invariant
                whole == rows_model(nodes.deep_view()) + pending_rows(
                    pending@,
                    paths,
                    nodes@.len() as int,
                ),
                paths.len() == nodes@.len(),
                forall|k: int| 0 <= k < nodes@.len() ==> paths[k] == (#[trigger] nodes@[k]).instance_path@,
                forall|k: int|
                    0 <= k < pending@.len() ==> ((#[trigger] pending@[k]).1 matches Some(p) ==> p
                        < nodes@.len()),
                forall|k: int|
                    0 <= k < pending@.len() ==> ((#[trigger] pending@[k]).1 is None ==> k == 0
                        && nodes@.len() == 0),
                nodes@.len() == 0 ==> pending@.len() == 1 && pending@[0].1 is None,
                forall|i: int|
                    0 <= i < nodes@.len() ==> #[trigger] node_wf(nodes.deep_view(), i),
            decreases whole.len() - nodes@.len(),
        {
            let ghost before = nodes.deep_view();
            let ghost stack = pending@;
            let (raw, parent) = match pending.pop() {
                Some(entry) => entry,
                None => {
                    proof { assert(false); }
                    return Sourcemap { nodes, relative_path, stamp };
                },
            };
            let ghost waiting = pending@;
            proof {
                assert(stack.last() == stack[stack.len() - 1]);
                assert(waiting =~= stack.drop_last());
            }
            let at: usize = nodes.len();
            let instance_path = match parent {
                None => root_label(raw.name.as_str(), raw.class_name.as_str()),
                Some(owner) => {
                    assert(paths[owner as int] == nodes@[owner as int].instance_path@);
                    let mut path = nodes[owner].instance_path.clone();
                    path.append(".");
                    path.append(raw.name.as_str());
                    path
                },
            };
            let file_paths = normalize_all(&raw.file_paths);
            let ghost path = instance_path@;
            let ghost model_parent = match parent {
                None => None,
                Some(owner) => Some(owner as int),
            };
            let ghost raw_model = raw;
            let ghost rows = tree_rows(raw_model, model_parent, path, at as int);
            proof {
                sizes_match(raw_model, model_parent, path, at as int);
                assert(whole == rows_model(before) + (rows + pending_rows(
                    waiting,
                    paths,
                    at + tree_size(raw_model),
                )));
                assert(whole.len() >= at + rows.len());
            }
            let RawNode { name, class_name, file_paths: _, children } = raw;
            nodes.push(
                Node { name, class_name, parent, children: Vec::new(), file_paths, instance_path },
            );
            let ghost grown = nodes.deep_view();
            proof {
                assert(forall|k: int| 0 <= k < at ==> grown[k] == before[k]);
                assert(row_model(grown[at as int]) == row_of(raw_model, model_parent, path));
                assert(rows_model(grown) =~= rows_model(before).push(
                    row_of(raw_model, model_parent, path),
                ));
            }
            match parent {
                Some(owner) => {
                    let ghost held = nodes@;
                    nodes[owner].children.push(at);
                    proof {
                        let now = nodes.deep_view();
                        assert(nodes@.len() == held.len());
                        assert(forall|k: int| 0 <= k < held.len() && k != owner ==> nodes@[k] == held[k]);
                        assert(now[owner as int].children =~= before[owner as int].children.push(
                            at as int,
                        ));
                        assert(rows_model(now) =~= rows_model(grown));
                    }
                },
                None => {},
            }
            proof {
                let now = nodes.deep_view();
                assert(rows_model(now) == rows_model(grown));
                assert forall|k: int| 0 <= k < now.len() implies (#[trigger] now[k]).parent
                    == grown[k].parent && now[k].instance_path == grown[k].instance_path
                    && now[k].name == grown[k].name by {
                    assert(row_model(now[k]) == rows_model(now)[k]);
                    assert(row_model(grown[k]) == rows_model(grown)[k]);
                }
                assert forall|i: int| 0 <= i < now.len() implies #[trigger] node_wf(now, i) by {
                    if i < at {
                        assert(node_wf(before, i));
                        children_of_extended(before, now, i, at as int);
                        assert(now[i].children == children_of(now, i, at + 1));
                    } else {
                        assert(children_of(now, i, at + 1) =~= Seq::<int>::empty()) by {
                            children_point_back(now, i, at + 1);
                            let c = children_of(now, i, at + 1);
                            if c.len() > 0 {
                                let child = c[0];
                                if child < at {
                                    assert(node_wf(before, child));
                                }
                            }
                        }
                        assert(now[i].children =~= Seq::<int>::empty());
                    }
                }
                let more = paths.push(path);
                pending_ignores_later_paths(waiting, paths, more, at + tree_size(raw_model));
                paths = more;
                assert forall|k: int| 0 <= k < nodes@.len() implies paths[k] == (
                #[trigger] nodes@[k]).instance_path@ by {
                    assert(now[k].instance_path == grown[k].instance_path);
                    if k < at {
                        assert(grown[k] == before[k]);
                    }
                }
            }
            let ghost all_children = children@;
            let mut left = children;
            while left.len() > 0
                invariant
                    left@.len() <= all_children.len(),
                    left@ == all_children.take(left@.len() as int),
                    pending@.len() == waiting.len() + all_children.len() - left@.len(),
                    forall|k: int| 0 <= k < waiting.len() ==> pending@[k] == waiting[k],
                    forall|k: int|
                        0 <= k < all_children.len() - left@.len() ==> #[trigger] pending@[waiting.len()
                            + k] == (all_children[all_children.len() - 1 - k], Some(at)),
                decreases left@.len(),
            {
                let ghost had = left@;
                match left.pop() {
                    Some(child) => {
                        assert(child == all_children[had.len() - 1]);
                        assert(left@ =~= all_children.take(left@.len() as int));
                        pending.push((child, Some(at)));
                    },
                    None => {},
                }
            }
            proof {
                pending_children(waiting, pending@, all_children, at, paths, at + 1);
                let head = row_of(raw_model, model_parent, path);
                let tail = pending_rows(waiting, paths, at + 1 + forest_size(all_children));
                let mid = forest_rows(all_children, at as int, path, at + 1);
                assert(rows_model(before) + ((seq![head] + mid) + tail) =~= rows_model(before).push(
                    head,
                ) + (mid + tail));
                assert forall|k: int| 0 <= k < pending@.len() implies ((
                #[trigger] pending@[k]).1 matches Some(p) ==> p < nodes@.len()) && pending@[k].1 is Some by {
                    if k < waiting.len() {
                        assert(waiting[k] == stack[k]);
                    } else {
                        let j = k - waiting.len();
                        assert(pending@[waiting.len() + j] == (
                            all_children[all_children.len() - 1 - j],
                            Some(at),
                        ));
                    }
                }
            }
        }
        proof {
            assert(pending_rows(pending@, paths, nodes@.len() as int) =~= Seq::empty());
            assert(rows_model(nodes.deep_view()) + Seq::<Row>::empty() =~= rows_model(
                nodes.deep_view(),
            ));
        }
        Sourcemap { nodes, relative_path, stamp }
    }

    /// What an answer reports about this sourcemap, `now_nanos` being the time it is given.
    pub fn reference(&self, now_nanos: i128) -> (r: SourcemapReference)
        ensures
            r.deep_view() == reference_model(
                self.path_model(),
                self.stamp_model(),
                self@.len() as int,
                now_nanos as int,
            ),
    {
        SourcemapReference {
            relative_path: self.relative_path.clone(),
            modified_epoch_seconds: match self.stamp {
                Some(file) => seconds_from(0, file.modified_nanos),
                None => None,
            },
            age_seconds: match self.stamp {
                Some(file) => seconds_from(file.modified_nanos, now_nanos),
                None => None,
            },
            instances: self.nodes.len(),
        }
    }

    /// Size and modification time of the file this was built from, for cache validity checks.
    pub fn stamp(&self) -> (r: Option<FileStamp>)
        ensures
            r == self.stamp_model(),
    {
        self.stamp
    }

    /// The node at a position.
    pub fn node(&self, index: usize) -> (r: &Node)
        requires
            index < self@.len(),
        ensures
            r.deep_view() == self@[index as int],
    {
        &self.nodes[index]
    }

    /// The position of the root.
    pub fn root(&self) -> (r: usize)
        ensures
            r == 0,
    {
        0
    }

    /// The first child of a node that has the name.
    pub fn child(&self, index: usize, name: &str) -> (r: Option<usize>)
        requires
            self.wf(),
            index < self@.len(),
        ensures
            match r {
                Some(c) => child_named(self@, self@[index as int].children, name@, 0) == Some(
                    c as int,
                ) && c < self@.len() && index < c,
                None => child_named(self@, self@[index as int].children, name@, 0) is None,
            },
    {
        let ghost nodes = self@;
        let children = &self.nodes[index].children;
        assert(self.nodes@[index as int].deep_view() == nodes[index as int]);
        assert(node_wf(nodes, index as int));
        proof {
            children_point_back(nodes, index as int, nodes.len() as int);
        }
        let mut k: usize = 0;
        while k < children.len()
            invariant
                k <= children@.len(),
                nodes == self@,
                tree_wf(nodes),
                index < nodes.len(),
                children@.map_values(|c: usize| c as int) == nodes[index as int].children,
                nodes[index as int].children == children_of(
                    nodes,
                    index as int,
                    nodes.len() as int,
                ),
                forall|j: int|
                    0 <= j < nodes[index as int].children.len() ==> {
                        let child = #[trigger] nodes[index as int].children[j];
                        0 <= child < nodes.len() && nodes[child].parent == Some(index as int)
                    },
                child_named(nodes, nodes[index as int].children, name@, 0) == child_named(
                    nodes,
                    nodes[index as int].children,
                    name@,
                    k as int,
                ),
            decreases children@.len() - k,
        {
            let child = children[k];
            assert(child as int == nodes[index as int].children[k as int]);
            assert(self.nodes@[child as int].deep_view() == nodes[child as int]);
            if same_text(self.nodes[child].name.as_str(), name) {
                assert(node_wf(nodes, child as int));
                return Some(child);
            }
            k = k + 1;
        }
        None
    }

    /// The node above a node.
    pub fn parent(&self, index: usize) -> (r: Option<usize>)
        requires
            index < self@.len(),
        ensures
            match r {
                Some(p) => self@[index as int].parent == Some(p as int),
                None => self@[index as int].parent is None,
            },
    {
        assert(self.nodes@[index as int].deep_view() == self@[index as int]);
        self.nodes[index].parent
    }

    /// The first Luau file an instance was built from, which for a script is its source.
    pub fn script_file(&self, index: usize) -> (r: Option<&str>)
        requires
            index < self@.len(),
        ensures
            r.deep_view() == first_luau(self@[index as int].file_paths, 0),
    {
        let paths = &self.nodes[index].file_paths;
        let ghost all = self@[index as int].file_paths;
        assert(self.nodes@[index as int].deep_view() == self@[index as int]);
        let mut k: usize = 0;
        while k < paths.len()
            invariant
                k <= paths@.len(),
                paths.deep_view() == all,
                first_luau(all, 0) == first_luau(all, k as int),
                all == self@[index as int].file_paths,
            decreases paths@.len() - k,
        {
            assert(all[k as int] == paths@[k as int]@);
            if is_luau_path(paths[k].as_str()) {
                return Some(paths[k].as_str());
            }
            k = k + 1;
        }
        None
    }

    /// The name of the top-level service an instance sits under, which is what decides whether
    /// code is server-only, client-only, or replicated.
    pub fn service_of(&self, index: usize) -> (r: Option<&str>)
        requires
            self.wf(),
            index < self@.len(),
        ensures
            r.deep_view() == service_name(self@, index as int),
    {
        let mut current: usize = index;
        loop
            invariant
                self.wf(),
                current < self@.len(),
                service_name(self@, index as int) == service_name(self@, current as int),
            decreases current,
        {
            assert(node_wf(self@, current as int));
            assert(self.nodes@[current as int].deep_view() == self@[current as int]);
            match self.nodes[current].parent {
                None => {
                    return None;
                },
                Some(parent) => {
                    if parent == 0 {
                        return Some(self.nodes[current].name.as_str());
                    }
                    current = parent;
                },
            }
        }
    }

    /// A node as the answer reports it.
    pub fn describe(&self, index: usize) -> (r: InstanceAnswer)
        requires
            self.wf(),
            index < self@.len(),
        ensures
            r.deep_view() == described(self@, index as int),
    {
        let node = self.node(index);
        InstanceAnswer {
            instance_path: node.instance_path.clone(),
            class_name: node.class_name.clone(),
            file_paths: owned_list(&node.file_paths),
            script_file: match self.script_file(index) {
                Some(file) => Some(owned(file)),
                None => None,
            },
            service: match self.service_of(index) {
                Some(name) => Some(owned(name)),
                None => None,
            },
            children: node.children.len(),
        }
    }

    fn nodes_built_from(&self, file: &str) -> (r: Vec<usize>)
        ensures
            r@.map_values(|v: usize| v as int) == built_from(self@, file@, self@.len() as int),
            forall|k: int| 0 <= k < r@.len() ==> r@[k] < self@.len(),
    {
        let ghost nodes = self@;
        let mut found: Vec<usize> = Vec::new();
        let mut i: usize = 0;
        assert(found@.map_values(|v: usize| v as int) =~= built_from(nodes, file@, 0));
        while i < self.nodes.len()
            invariant
                i <= nodes.len(),
                nodes == self@,
                nodes.len() == self.nodes@.len(),
                found@.map_values(|v: usize| v as int) == built_from(nodes, file@, i as int),
                forall|k: int| 0 <= k < found@.len() ==> found@[k] < nodes.len(),
            decreases nodes.len() - i,
        {
            let paths = &self.nodes[i].file_paths;
            let ghost all = nodes[i as int].file_paths;
            assert(self.nodes@[i as int].deep_view() == nodes[i as int]);
            let ghost before = found@.map_values(|v: usize| v as int);
            let mut k: usize = 0;
            assert(before + mentions(all, file@, i as int, 0) =~= before);
            while k < paths.len()
                invariant
                    k <= paths@.len(),
                    i < nodes.len(),
                    paths.deep_view() == all,
                    found@.map_values(|v: usize| v as int) == before + mentions(
                        all,
                        file@,
                        i as int,
                        k as int,
                    ),
                    forall|j: int| 0 <= j < found@.len() ==> found@[j] < nodes.len(),
                decreases paths@.len() - k,
            {
                assert(all[k as int] == paths@[k as int]@);
                if same_text(paths[k].as_str(), file) {
                    let ghost had = found@.map_values(|v: usize| v as int);
                    found.push(i);
                    assert(found@.map_values(|v: usize| v as int) =~= had.push(i as int));
                    assert(had.push(i as int) =~= before + mentions(
                        all,
                        file@,
                        i as int,
                        k as int,
                    ).push(i as int));
                }
                k = k + 1;
            }
            i = i + 1;
        }
        found
    }

    /// Instances built from a project-relative file.
    ///
    /// A file is looked up as written, then as the directory that owns it: rojo names a directory
    /// instance by the directory, and `src/Shared/Combat/init.luau` is the source of the instance
    /// the sourcemap calls `src/Shared/Combat`.
    pub fn nodes_for_file(&self, relative_path: &str) -> (r: Vec<usize>)
        ensures
            r@.map_values(|v: usize| v as int) == nodes_of_file(self@, relative_path@),
            forall|k: int| 0 <= k < r@.len() ==> r@[k] < self@.len(),
    {
        let file = normalize(relative_path);
        let direct = self.nodes_built_from(file.as_str());
        assert(direct@.map_values(|v: usize| v as int).len() == direct@.len());
        if direct.len() > 0 {
            return direct;
        }
        if is_init_file(file.as_str()) {
            match crate::text::rsplit_once(file.as_str(), '/') {
                Some((directory, _)) => {
                    return self.nodes_built_from(directory.as_str());
                },
                None => {},
            }
        }
        let none: Vec<usize> = Vec::new();
        assert(none@.map_values(|v: usize| v as int) =~= Seq::empty());
        none
    }

    fn listing(&self, at: usize) -> (r: String)
        requires
            self.wf(),
            at < self@.len(),
        ensures
            r@ == children_listing(self@, at as int),
    {
        let ghost nodes = self@;
        let ghost all = suggested_names(nodes, at as int);
        let children = &self.nodes[at].children;
        assert(self.nodes@[at as int].deep_view() == nodes[at as int]);
        assert(node_wf(nodes, at as int));
        proof {
            children_point_back(nodes, at as int, nodes.len() as int);
        }
        let mut names: Vec<String> = Vec::new();
        let mut k: usize = 0;
        let shown: usize = if children.len() < SUGGESTED_CHILDREN {
            children.len()
        } else {
            SUGGESTED_CHILDREN
        };
        while k < shown
            invariant
                k <= shown,
                shown <= children@.len(),
                nodes == self@,
                shown == all.len(),
                all == suggested_names(nodes, at as int),
                children@.map_values(|c: usize| c as int) == nodes[at as int].children,
                forall|j: int|
                    0 <= j < nodes[at as int].children.len() ==> 0 <= (
                    #[trigger] nodes[at as int].children[j]) < nodes.len(),
                names.deep_view() == all.take(k as int),
            decreases shown - k,
        {
            let child = children[k];
            assert(child as int == nodes[at as int].children[k as int]);
            assert(self.nodes@[child as int].deep_view() == nodes[child as int]);
            let ghost before = names.deep_view();
            names.push(self.nodes[child].name.clone());
            assert(names.deep_view() =~= before.push(all[k as int]));
            assert(names.deep_view() =~= all.take(k + 1));
            k = k + 1;
        }
        assert(all.take(k as int) =~= all);
        assert(names.deep_view().len() == names@.len());
        if names.len() == 0 {
            owned("it has no children")
        } else {
            let mut listing = owned("its children are: ");
            listing.append(join(&names, ", ").as_str());
            listing
        }
    }

    fn missing_child(&self, at: usize, segment: &str) -> (f: Failure)
        requires
            self.wf(),
            at < self@.len(),
        ensures
            f.deep_view() == no_such_child(self@, at as int, segment@),
    {
        let mut message = owned("no instance named ");
        message.append(segment);
        message.append(" under ");
        assert(self.nodes@[at as int].deep_view() == self@[at as int]);
        message.append(self.nodes[at].instance_path.as_str());
        let mut hint = self.listing(at);
        hint.append(
            ". Paths are case-sensitive, and an instance added since the sourcemap was written is not in it.",
        );
        hinted(message, hint.as_str())
    }

    /// Resolves an instance path written the way Roblox code writes one.
    ///
    /// `game.ReplicatedStorage.Shared.Combat`, `ReplicatedStorage.Shared.Combat`, and
    /// `game:GetService("ReplicatedStorage").Shared.Combat` all name the same instance.
    pub fn resolve_instance_path(&self, instance_path: &str) -> (r: Result<usize, Failure>)
        requires
            self.wf(),
        ensures
            match r {
                Ok(node) => node_at_path(self@, instance_path@) == Ok::<int, FailureModel>(
                    node as int,
                ) && node < self@.len(),
                Err(failure) => node_at_path(self@, instance_path@) == Err::<int, FailureModel>(
                    failure.deep_view(),
                ),
            },
    {
        let segments = parse_instance_path(instance_path);
        let ghost names = segments.deep_view();
        let ghost nodes = self@;
        assert(names.len() == segments@.len());
        if segments.len() == 0 {
            let mut message = owned("instance_path names no instance: ");
            message.append(quote(instance_path).as_str());
            return Err(
                hinted(
                    message,
                    "an instance path looks like \"game.ReplicatedStorage.Shared.Combat\"",
                ),
            );
        }
        assert(self.nodes@[0].deep_view() == nodes[0]);
        let mut k: usize = 0;
        if same_text(segments[0].as_str(), "game") || same_text(
            segments[0].as_str(),
            self.nodes[0].name.as_str(),
        ) {
            k = 1;
        }
        let mut current: usize = 0;
        assert(names.skip(0) =~= names);
        while k < segments.len()
            invariant
                self.wf(),
                nodes == self@,
                current < nodes.len(),
                k <= segments@.len(),
                names == segments.deep_view(),
                names.len() > 0,
                names == path_segments(instance_path@),
                descend(nodes, 0, below_root(nodes, names)) == descend(
                    nodes,
                    current as int,
                    names.skip(k as int),
                ),
            decreases segments@.len() - k,
        {
            let segment = segments[k].as_str();
            assert(names.skip(k as int)[0] == segment@);
            assert(names.skip(k as int).skip(1) =~= names.skip(k + 1));
            match self.child(current, segment) {
                Some(child) => {
                    current = child;
                },
                None => {
                    return Err(self.missing_child(current, segment));
                },
            }
            k = k + 1;
        }
        Ok(current)
    }

    /// Translates in whichever direction the caller asked for.
    pub fn resolve(
        &self,
        instance_path: Option<&str>,
        relative_path: Option<&str>,
        now_nanos: i128,
    ) -> (r: Result<ResolveAnswer, Failure>)
        requires
            self.wf(),
        ensures
            match r {
                Ok(answer) => resolved_instances(
                    self@,
                    instance_path.deep_view(),
                    relative_path.deep_view(),
                ) == Ok::<Seq<InstanceModel>, FailureModel>(answer.deep_view().instances)
                    && answer.deep_view().sourcemap == reference_model(
                    self.path_model(),
                    self.stamp_model(),
                    self@.len() as int,
                    now_nanos as int,
                ),
                Err(failure) => resolved_instances(
                    self@,
                    instance_path.deep_view(),
                    relative_path.deep_view(),
                ) == Err::<Seq<InstanceModel>, FailureModel>(failure.deep_view()),
            },
    {
        let mut instances: Vec<InstanceAnswer> = Vec::new();
        match (instance_path, relative_path) {
            (Some(_), Some(_)) => {
                return Err(
                    hinted(
                        owned("pass either instance_path or relative_path, not both"),
                        "instance_path translates a DataModel path to files, relative_path translates a file to its DataModel path",
                    ),
                );
            },
            (Some(path), None) => {
                match self.resolve_instance_path(path) {
                    Ok(node) => {
                        instances.push(self.describe(node));
                        assert(instances.deep_view() =~= seq![described(self@, node as int)]);
                    },
                    Err(failure) => {
                        return Err(failure);
                    },
                }
            },
            (None, Some(relative)) => {
                let found = self.nodes_for_file(relative);
                let ghost all = nodes_of_file(self@, relative@);
                let ghost answers = all.map_values(|node: int| described(self@, node));
                assert(found@.map_values(|v: usize| v as int).len() == found@.len());
                if found.len() == 0 {
                    let mut message = owned("no instance in the sourcemap is built from ");
                    message.append(relative);
                    return Err(
                        hinted(
                            message,
                            "the sourcemap only names files the rojo project actually syncs; a file outside the project tree is not in the game at all, and a file added since the sourcemap was written needs it regenerated",
                        ),
                    );
                }
                let mut k: usize = 0;
                while k < found.len()
                    invariant
                        self.wf(),
                        k <= found@.len(),
                        found@.map_values(|v: usize| v as int) == all,
                        forall|j: int| 0 <= j < found@.len() ==> found@[j] < self@.len(),
                        answers == all.map_values(|node: int| described(self@, node)),
                        instances.deep_view() == answers.take(k as int),
                    decreases found@.len() - k,
                {
                    let ghost before = instances.deep_view();
                    assert(all[k as int] == found@[k as int] as int);
                    instances.push(self.describe(found[k]));
                    assert(instances.deep_view() =~= before.push(answers[k as int]));
                    assert(instances.deep_view() =~= answers.take(k + 1));
                    k = k + 1;
                }
                assert(answers.take(k as int) =~= answers);
            },
            (None, None) => {
                return Err(
                    hinted(
                        owned("neither instance_path nor relative_path was given"),
                        "pass instance_path to go from the DataModel to files, or relative_path to go the other way",
                    ),
                );
            },
        }
        Ok(ResolveAnswer { instances, sourcemap: self.reference(now_nanos) })
    }

    /// Every Luau file the sourcemap names, in the order of the instances built from them.
    pub fn luau_files(&self) -> (r: Vec<String>)
        ensures
            r.deep_view() == luau_files_of(self@, self@.len() as int),
    {
        let ghost nodes = self@;
        let mut found: Vec<String> = Vec::new();
        let mut i: usize = 0;
        assert(found.deep_view() =~= luau_files_of(nodes, 0));
        while i < self.nodes.len()
            invariant
                i <= nodes.len(),
                nodes == self@,
                nodes.len() == self.nodes@.len(),
                found.deep_view() == luau_files_of(nodes, i as int),
            decreases nodes.len() - i,
        {
            let paths = &self.nodes[i].file_paths;
            let ghost all = nodes[i as int].file_paths;
            assert(self.nodes@[i as int].deep_view() == nodes[i as int]);
            let ghost before = found.deep_view();
            let mut k: usize = 0;
            assert(before + luau_among(all, 0) =~= before);
            while k < paths.len()
                invariant
                    k <= paths@.len(),
                    paths.deep_view() == all,
                    found.deep_view() == before + luau_among(all, k as int),
                decreases paths@.len() - k,
            {
                assert(all[k as int] == paths@[k as int]@);
                if is_luau_path(paths[k].as_str()) {
                    let ghost had = found.deep_view();
                    found.push(paths[k].clone());
                    assert(found.deep_view() =~= had.push(all[k as int]));
                    assert(had.push(all[k as int]) =~= before + luau_among(all, k as int).push(
                        all[k as int],
                    ));
                }
                k = k + 1;
            }
            i = i + 1;
        }
        found
    }
}

} // verus!
