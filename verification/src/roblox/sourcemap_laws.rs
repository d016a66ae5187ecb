//! What holds of every sourcemap.
use vstd::prelude::*;
use super::instance_path::{path_segments, segments_from};
use super::lexing::{identifier_end, identifier_end_moves, is_identifier_char};
use super::require_graph::resolve_laws::{is_first_child, the_first_child_is_found};
use super::sourcemap::{
    all_rows, below_root, built_from, child_named, child_path, children_of, children_point_back, descend, described, first_luau, names_luau, resolved_instances, InstanceModel,
    forest_rows, forest_size, label_of_root, mentions, names_init, node_at_path, node_wf,
    nodes_of_file, normalized, row_model, row_of, rows_model, service_name, tree_rows, tree_size,
    tree_wf, without_dot_slashes, without_leading_slashes, without_trailing_slashes, NodeModel,
    RawNode, Row,
};
use crate::errors::FailureModel;
use crate::text::{replaced_char, rsplit_once_on};

verus! {

spec fn free_of(s: Seq<char>, bad: char) -> bool {
    forall|k: int| 0 <= k < s.len() ==> #[trigger] s[k] != bad
}

proof fn stripping_keeps_characters(s: Seq<char>, bad: char)
    requires
        free_of(s, bad),
    ensures
        free_of(without_dot_slashes(s), bad),
        free_of(without_leading_slashes(s), bad),
        free_of(without_trailing_slashes(s), bad),
    decreases s.len(),
{
    if s.len() >= 2 && s[0] == '.' && s[1] == '/' {
        assert(free_of(s.skip(2), bad));
        stripping_keeps_characters(s.skip(2), bad);
        assert(without_dot_slashes(s) == without_dot_slashes(s.skip(2)));
    }
    if s.len() >= 1 && s[0] == '/' {
        assert(free_of(s.skip(1), bad));
        stripping_keeps_characters(s.skip(1), bad);
        assert(without_leading_slashes(s) == without_leading_slashes(s.skip(1)));
    }
    if s.len() >= 1 && s.last() == '/' {
        assert(free_of(s.drop_last(), bad));
        stripping_keeps_characters(s.drop_last(), bad);
        assert(without_trailing_slashes(s) == without_trailing_slashes(s.drop_last()));
    }
}

proof fn leading_slashes_go(s: Seq<char>)
    ensures
        without_leading_slashes(s).len() > 0 ==> without_leading_slashes(s)[0] != '/',
    decreases s.len(),
{
    if s.len() >= 1 && s[0] == '/' {
        leading_slashes_go(s.skip(1));
    }
}

proof fn trailing_slashes_go(s: Seq<char>)
    ensures
        without_trailing_slashes(s).len() > 0 ==> without_trailing_slashes(s).last() != '/'
            && without_trailing_slashes(s)[0] == s[0],
    decreases s.len(),
{
    if s.len() >= 1 && s.last() == '/' {
        trailing_slashes_go(s.drop_last());
    }
}

/// However a path was written, it is spelled with forward slashes and none at either end.
pub proof fn normalized_paths_use_forward_slashes(path: Seq<char>)
    ensures
        !normalized(path).contains('\\'),
        normalized(path).len() > 0 ==> normalized(path)[0] != '/' && normalized(path).last() != '/',
{
    let replaced = replaced_char(path, '\\', '/');
    stripping_keeps_characters(replaced, '\\');
    let undotted = without_dot_slashes(replaced);
    stripping_keeps_characters(undotted, '\\');
    let unslashed = without_leading_slashes(undotted);
    stripping_keeps_characters(unslashed, '\\');
    leading_slashes_go(undotted);
    trailing_slashes_go(unslashed);
}

proof fn mentions_are_mentions(paths: Seq<Seq<char>>, file: Seq<char>, i: int, n: int)
    requires
        0 <= n <= paths.len(),
    ensures
        forall|k: int|
            0 <= k < mentions(paths, file, i, n).len() ==> mentions(paths, file, i, n)[k] == i,
        mentions(paths, file, i, n).len() > 0 <==> exists|p: int|
            0 <= p < n && #[trigger] paths[p] == file,
    decreases n,
{
    if n > 0 {
        mentions_are_mentions(paths, file, i, n - 1);
        if paths[n - 1] == file {
            assert(mentions(paths, file, i, n)[mentions(paths, file, i, n - 1).len() as int] == i);
        }
    }
}

proof fn built_from_is_exact(nodes: Seq<NodeModel>, file: Seq<char>, n: int)
    requires
        0 <= n <= nodes.len(),
    ensures
        forall|i: int|
            #[trigger] built_from(nodes, file, n).contains(i) <==> 0 <= i < n
                && nodes[i].file_paths.contains(file),
    decreases n,
{
    if n > 0 {
        built_from_is_exact(nodes, file, n - 1);
        let before = built_from(nodes, file, n - 1);
        let paths = nodes[n - 1].file_paths;
        let here = mentions(paths, file, n - 1, paths.len() as int);
        let after = built_from(nodes, file, n);
        mentions_are_mentions(paths, file, n - 1, paths.len() as int);
        assert forall|i: int| #[trigger] after.contains(i) <==> 0 <= i < n
            && nodes[i].file_paths.contains(file) by {
            assert(before.contains(i) <==> 0 <= i < n - 1 && nodes[i].file_paths.contains(file));
            if after.contains(i) {
                let k = choose|k: int| 0 <= k < after.len() && after[k] == i;
                if k < before.len() {
                    assert(before[k] == i);
                    assert(before.contains(i));
                } else {
                    assert(here[k - before.len()] == i);
                }
            }
            if 0 <= i < n && nodes[i].file_paths.contains(file) {
                if i < n - 1 {
                    let k = choose|k: int| 0 <= k < before.len() && before[k] == i;
                    assert(after[k] == i);
                } else {
                    let p = choose|p: int| 0 <= p < paths.len() && paths[p] == file;
                    assert(paths[p] == file);
                    assert(here[0] == i);
                    assert(after[before.len() as int] == i);
                }
            }
        }
    }
}

/// A file leads back to exactly the instances that name it, whatever separators it was written
/// with; only where no instance names it does an init file stand for its directory.
pub proof fn files_lead_back_to_their_instances(nodes: Seq<NodeModel>, relative_path: Seq<char>)
    ensures
        (exists|i: int|
            0 <= i < nodes.len() && (#[trigger] nodes[i]).file_paths.contains(
                normalized(relative_path),
            )) ==> forall|i: int|
            #[trigger] nodes_of_file(nodes, relative_path).contains(i) <==> 0 <= i < nodes.len()
                && nodes[i].file_paths.contains(normalized(relative_path)),
        forall|i: int|
            #[trigger] nodes_of_file(nodes, relative_path).contains(i) ==> 0 <= i < nodes.len() && (
            nodes[i].file_paths.contains(normalized(relative_path)) || (names_init(
                normalized(relative_path),
            ) && rsplit_once_on(normalized(relative_path), '/') is Some
                && nodes[i].file_paths.contains(
                (rsplit_once_on(normalized(relative_path), '/')->0).0,
            ))),
{
    let file = normalized(relative_path);
    let direct = built_from(nodes, file, nodes.len() as int);
    built_from_is_exact(nodes, file, nodes.len() as int);
    match rsplit_once_on(file, '/') {
        Some((directory, _)) => built_from_is_exact(nodes, directory, nodes.len() as int),
        None => {},
    }
    if exists|i: int| 0 <= i < nodes.len() && (#[trigger] nodes[i]).file_paths.contains(file) {
        let i = choose|i: int|
            0 <= i < nodes.len() && (#[trigger] nodes[i]).file_paths.contains(file);
        assert(direct.contains(i));
        assert(direct.len() > 0);
    } else if direct.len() > 0 {
        assert(direct.contains(direct[0]));
    }
}

/// A path may leave out the DataModel it starts at: with and without `game` in front, it names
/// the same instance.
pub proof fn game_may_be_left_out(nodes: Seq<NodeModel>, with: Seq<char>, without: Seq<char>)
    requires
        path_segments(with) == seq!["game"@] + path_segments(without),
        path_segments(without).len() > 0,
        path_segments(without)[0] != "game"@,
        path_segments(without)[0] != nodes[0].name,
    ensures
        node_at_path(nodes, with) == node_at_path(nodes, without),
{
    let segments = path_segments(with);
    assert(segments[0] == "game"@);
    assert(segments.skip(1) =~= path_segments(without));
}

proof fn child_named_is_a_child(nodes: Seq<NodeModel>, children: Seq<int>, name: Seq<char>, k: int)
    requires
        0 <= k,
    ensures
        child_named(nodes, children, name, k) matches Some(c) ==> children.contains(c)
            && nodes[c].name == name,
    decreases children.len() - k,
{
    if k < children.len() && nodes[children[k]].name != name {
        child_named_is_a_child(nodes, children, name, k + 1);
    }
}

/// Going down from an instance and up again comes back to it.
pub proof fn a_child_has_its_owner_as_parent(nodes: Seq<NodeModel>, i: int, name: Seq<char>)
    requires
        tree_wf(nodes),
        0 <= i < nodes.len(),
    ensures
        child_named(nodes, nodes[i].children, name, 0) matches Some(c) ==> i < c < nodes.len()
            && nodes[c].parent == Some(i) && nodes[c].name == name,
{
    assert(node_wf(nodes, i));
    children_point_back(nodes, i, nodes.len() as int);
    child_named_is_a_child(nodes, nodes[i].children, name, 0);
    if let Some(c) = child_named(nodes, nodes[i].children, name, 0) {
        let k = choose|k: int| 0 <= k < nodes[i].children.len() && nodes[i].children[k] == c;
        assert(nodes[c].parent == Some(i));
        assert(node_wf(nodes, c));
    }
}

/// Every instance but the root sits under a service, and the root under none.
pub proof fn every_instance_below_the_root_has_a_service(nodes: Seq<NodeModel>, i: int)
    requires
        tree_wf(nodes),
        0 <= i < nodes.len(),
    ensures
        service_name(nodes, i) is Some <==> i != 0,
        forall|p: int|
            nodes[i].parent == Some(p) && p != 0 ==> service_name(nodes, i) == #[trigger] service_name(
                nodes,
                p,
            ),
    decreases i,
{
    assert(node_wf(nodes, i));
    if let Some(p) = nodes[i].parent {
        if p != 0 {
            every_instance_below_the_root_has_a_service(nodes, p);
        }
    }
}

/// The DataModel is spelled `game` whatever the project is called, and it has no parent.
pub proof fn the_data_model_is_spelled_game(root: RawNode)
    requires
        root.class_name@ == "DataModel"@,
    ensures
        all_rows(root)[0].instance_path == "game"@,
        all_rows(root)[0].parent is None,
{
}

// ---------------------------------------------------------------------------
// The tree and its index

/// The instance of a raw tree that stands at position `k`, each instance before its children.
pub open spec fn instance_at(raw: RawNode, k: int) -> RawNode
    decreases raw, 0int,
{
    if k <= 0 {
        raw
    } else {
        instance_among(raw.children@, k - 1)
    }
}

/// The instance that stands at position `k` of several raw trees, one tree after another.
pub open spec fn instance_among(forest: Seq<RawNode>, k: int) -> RawNode
    decreases forest, 1int,
{
    if forest.len() == 0 {
        arbitrary()
    } else if k < tree_size(forest[0]) {
        instance_at(forest[0], k)
    } else {
        instance_among(forest.skip(1), k - tree_size(forest[0]))
    }
}

/// Where the children of the instance at `at` stand: the first right behind it, and each other behind
/// the tree of the one before.
pub open spec fn child_positions(children: Seq<RawNode>, at: int) -> Seq<int> {
    Seq::new(children.len(), |j: int| at + 1 + forest_size(children.take(j)))
}

/// The positions of the rows whose parent is `owner`, where the first row stands at `base`.
spec fn positions_under(rows: Seq<Row>, base: int, owner: int) -> Seq<int>
    decreases rows.len(),
{
    if rows.len() == 0 {
        Seq::empty()
    } else {
        let before = positions_under(rows.drop_last(), base, owner);
        if rows.last().parent == Some(owner) {
            before.push(base + rows.len() - 1)
        } else {
            before
        }
    }
}

proof fn positions_under_both(a: Seq<Row>, b: Seq<Row>, base: int, owner: int)
    ensures
        positions_under(a + b, base, owner) == positions_under(a, base, owner) + positions_under(
            b,
            base + a.len(),
            owner,
        ),
    decreases b.len(),
{
    let first = positions_under(a, base, owner);
    if b.len() == 0 {
        assert(a + b =~= a);
        assert(first + positions_under(b, base + a.len(), owner) =~= first);
    } else {
        positions_under_both(a, b.drop_last(), base, owner);
        assert((a + b).drop_last() =~= a + b.drop_last());
        assert((a + b).last() == b.last());
        assert(positions_under(a + b, base, owner) =~= first + positions_under(
            b,
            base + a.len(),
            owner,
        ));
    }
}

proof fn no_positions_under(rows: Seq<Row>, base: int, owner: int)
    requires
        forall|k: int| 0 <= k < rows.len() ==> (#[trigger] rows[k]).parent != Some(owner),
    ensures
        positions_under(rows, base, owner) == Seq::<int>::empty(),
    decreases rows.len(),
{
    if rows.len() > 0 {
        assert forall|k: int| 0 <= k < rows.drop_last().len() implies (
        #[trigger] rows.drop_last()[k]).parent != Some(owner) by {
            assert(rows.drop_last()[k] == rows[k]);
        }
        no_positions_under(rows.drop_last(), base, owner);
        assert(rows.last() == rows[rows.len() - 1]);
    }
}

/// A tree has as many rows as instances, its first row has the parent given, and below that every
/// parent stands in the tree.
proof fn rows_of_a_tree(raw: RawNode, parent: Option<int>, path: Seq<char>, base: int)
    ensures
        tree_size(raw) >= 1,
        tree_rows(raw, parent, path, base).len() == tree_size(raw),
        tree_rows(raw, parent, path, base)[0] == row_of(raw, parent, path),
        forall|k: int|
            1 <= k < tree_size(raw) ==> ((#[trigger] tree_rows(raw, parent, path, base)[k]).parent
                matches Some(p) && base <= p < base + tree_size(raw)),
    decreases raw, 0int,
{
    let below = forest_rows(raw.children@, base, path, base + 1);
    rows_of_a_forest(raw.children@, base, path, base + 1);
    let all = tree_rows(raw, parent, path, base);
    assert forall|k: int| 1 <= k < tree_size(raw) implies ((#[trigger] all[k]).parent matches Some(
        p,
    ) && base <= p < base + tree_size(raw)) by {
        assert(all[k] == below[k - 1]);
    }
}

proof fn rows_of_a_forest(forest: Seq<RawNode>, owner: int, path: Seq<char>, base: int)
    ensures
        forest_size(forest) >= 0,
        forest_rows(forest, owner, path, base).len() == forest_size(forest),
        forall|k: int|
            0 <= k < forest_size(forest) ==> ((#[trigger] forest_rows(
                forest,
                owner,
                path,
                base,
            )[k]).parent matches Some(p) && (p == owner || base <= p < base + forest_size(forest))),
    decreases forest, 1int,
{
    if forest.len() > 0 {
        let below = child_path(path, forest[0].name@);
        let first = tree_rows(forest[0], Some(owner), below, base);
        let size = tree_size(forest[0]);
        let rest = forest_rows(forest.skip(1), owner, path, base + size);
        rows_of_a_tree(forest[0], Some(owner), below, base);
        rows_of_a_forest(forest.skip(1), owner, path, base + size);
        let all = forest_rows(forest, owner, path, base);
        assert(all == first + rest);
        assert forall|k: int| 0 <= k < forest_size(forest) implies ((
        #[trigger] all[k]).parent matches Some(p) && (p == owner || base <= p < base + forest_size(
            forest,
        ))) by {
            if k < size {
                assert(all[k] == first[k]);
            } else {
                assert(all[k] == rest[k - size]);
            }
        }
    }
}

/// The trees of a forest start at the positions of its children.
proof fn roots_of_a_forest(forest: Seq<RawNode>, owner: int, path: Seq<char>, base: int)
    requires
        owner < base,
    ensures
        positions_under(forest_rows(forest, owner, path, base), base, owner) == child_positions(
            forest,
            base - 1,
        ),
    decreases forest.len(),
{
    let wanted = child_positions(forest, base - 1);
    if forest.len() == 0 {
        assert(wanted =~= Seq::empty());
    } else {
        let below = child_path(path, forest[0].name@);
        let first = tree_rows(forest[0], Some(owner), below, base);
        let size = tree_size(forest[0]);
        let rest = forest_rows(forest.skip(1), owner, path, base + size);
        rows_of_a_tree(forest[0], Some(owner), below, base);
        roots_of_a_forest(forest.skip(1), owner, path, base + size);
        let top = seq![first[0]];
        let under = first.skip(1);
        assert(first =~= top + under);
        assert forall|k: int| 0 <= k < under.len() implies (#[trigger] under[k]).parent != Some(
            owner,
        ) by {
            assert(under[k] == first[k + 1]);
        }
        no_positions_under(under, base + 1, owner);
        positions_under_both(top, under, base, owner);
        positions_under_both(first, rest, base, owner);
        assert(top.drop_last() =~= Seq::empty());
        assert(positions_under(top.drop_last(), base, owner) =~= Seq::empty());
        assert(positions_under(top, base, owner) =~= seq![base]);
        assert(positions_under(first, base, owner) =~= seq![base]);
        let more = child_positions(forest.skip(1), base + size - 1);
        assert forall|j: int| 0 <= j < wanted.len() implies #[trigger] wanted[j] == (seq![base]
            + more)[j] by {
            if j == 0 {
                assert(forest.take(0) =~= Seq::empty());
            } else {
                assert(forest.take(j)[0] == forest[0]);
                assert(forest.take(j).skip(1) =~= forest.skip(1).take(j - 1));
            }
        }
        assert(wanted =~= seq![base] + more);
    }
}

/// In a tree, the rows whose parent is at `at` stand where the children of the instance there do.
proof fn children_in_a_tree(
    raw: RawNode,
    parent: Option<int>,
    path: Seq<char>,
    base: int,
    at: int,
)
    requires
        parent matches Some(p) ==> p < base,
        base <= at < base + tree_size(raw),
    ensures
        positions_under(tree_rows(raw, parent, path, base), base, at) == child_positions(
            instance_at(raw, at - base).children@,
            at,
        ),
    decreases raw, 0int,
{
    let top = seq![row_of(raw, parent, path)];
    let below = forest_rows(raw.children@, base, path, base + 1);
    positions_under_both(top, below, base, at);
    no_positions_under(top, base, at);
    assert(positions_under(top, base, at) + positions_under(below, base + 1, at)
        =~= positions_under(below, base + 1, at));
    if at == base {
        roots_of_a_forest(raw.children@, base, path, base + 1);
    } else {
        children_in_a_forest(raw.children@, base, path, base + 1, at);
    }
}

proof fn children_in_a_forest(
    forest: Seq<RawNode>,
    owner: int,
    path: Seq<char>,
    base: int,
    at: int,
)
    requires
        owner < base,
        base <= at < base + forest_size(forest),
    ensures
        positions_under(forest_rows(forest, owner, path, base), base, at) == child_positions(
            instance_among(forest, at - base).children@,
            at,
        ),
    decreases forest, 1int,
{
    if forest.len() > 0 {
        let below = child_path(path, forest[0].name@);
        let first = tree_rows(forest[0], Some(owner), below, base);
        let size = tree_size(forest[0]);
        let rest = forest_rows(forest.skip(1), owner, path, base + size);
        rows_of_a_tree(forest[0], Some(owner), below, base);
        rows_of_a_forest(forest.skip(1), owner, path, base + size);
        positions_under_both(first, rest, base, at);
        let here = positions_under(first, base, at);
        let there = positions_under(rest, base + size, at);
        if at < base + size {
            children_in_a_tree(forest[0], Some(owner), below, base, at);
            no_positions_under(rest, base + size, at);
            assert(here + there =~= here);
        } else {
            assert forall|k: int| 0 <= k < first.len() implies (#[trigger] first[k]).parent != Some(
                at,
            ) by {}
            no_positions_under(first, base, at);
            children_in_a_forest(forest.skip(1), owner, path, base + size, at);
            assert(here + there =~= there);
        }
    }
}

/// What stands in a tree at a position is written from the instance there.
proof fn rows_tell_the_instances(
    raw: RawNode,
    parent: Option<int>,
    path: Seq<char>,
    base: int,
    k: int,
)
    requires
        0 <= k < tree_size(raw),
    ensures
        ({
            let row = tree_rows(raw, parent, path, base)[k];
            row == row_of(instance_at(raw, k), row.parent, row.instance_path)
        }),
    decreases raw, 0int,
{
    rows_of_a_tree(raw, parent, path, base);
    if k > 0 {
        rows_tell_the_instances_among(raw.children@, base, path, base + 1, k - 1);
        assert(tree_rows(raw, parent, path, base)[k] == forest_rows(
            raw.children@,
            base,
            path,
            base + 1,
        )[k - 1]);
    }
}

proof fn rows_tell_the_instances_among(
    forest: Seq<RawNode>,
    owner: int,
    path: Seq<char>,
    base: int,
    k: int,
)
    requires
        0 <= k < forest_size(forest),
    ensures
        ({
            let row = forest_rows(forest, owner, path, base)[k];
            row == row_of(instance_among(forest, k), row.parent, row.instance_path)
        }),
    decreases forest, 1int,
{
    if forest.len() > 0 {
        let below = child_path(path, forest[0].name@);
        let size = tree_size(forest[0]);
        rows_of_a_tree(forest[0], Some(owner), below, base);
        rows_of_a_forest(forest, owner, path, base);
        if k < size {
            rows_tell_the_instances(forest[0], Some(owner), below, base, k);
        } else {
            rows_tell_the_instances_among(forest.skip(1), owner, path, base + size, k - size);
        }
    }
}

/// The tree of an instance stands in one piece, from the position of the instance on.
proof fn a_tree_stands_in_one_piece(raw: RawNode, k: int, j: int)
    requires
        0 <= k < tree_size(raw),
        0 <= j < tree_size(instance_at(raw, k)),
    ensures
        k + j < tree_size(raw),
        instance_at(raw, k + j) == instance_at(instance_at(raw, k), j),
    decreases raw, 0int,
{
    if k > 0 {
        a_forest_stands_in_one_piece(raw.children@, k - 1, j);
    }
}

proof fn a_forest_stands_in_one_piece(forest: Seq<RawNode>, k: int, j: int)
    requires
        0 <= k < forest_size(forest),
        0 <= j < tree_size(instance_among(forest, k)),
    ensures
        k + j < forest_size(forest),
        instance_among(forest, k + j) == instance_at(instance_among(forest, k), j),
    decreases forest, 1int,
{
    if forest.len() > 0 {
        let size = tree_size(forest[0]);
        rows_of_a_forest(forest.skip(1), 0, Seq::empty(), 0);
        if k < size {
            a_tree_stands_in_one_piece(forest[0], k, j);
        } else {
            a_forest_stands_in_one_piece(forest.skip(1), k - size, j);
        }
    }
}

/// The `j`th tree of a forest stands behind those before it.
proof fn a_tree_has_its_place(forest: Seq<RawNode>, j: int)
    requires
        0 <= j < forest.len(),
    ensures
        0 <= forest_size(forest.take(j)) < forest_size(forest),
        instance_among(forest, forest_size(forest.take(j))) == forest[j],
    decreases forest.len(),
{
    rows_of_a_tree(forest[0], None, Seq::empty(), 0);
    rows_of_a_forest(forest.skip(1), 0, Seq::empty(), 0);
    if j == 0 {
        assert(forest.take(0) =~= Seq::empty());
        assert(forest_size(forest.take(0)) == 0);
        assert(instance_among(forest, 0) == instance_at(forest[0], 0));
    } else {
        assert(forest.take(j)[0] == forest[0]);
        assert(forest.take(j).skip(1) =~= forest.skip(1).take(j - 1));
        a_tree_has_its_place(forest.skip(1), j - 1);
        let before = forest_size(forest.skip(1).take(j - 1));
        assert(forest_size(forest.take(j)) == tree_size(forest[0]) + before);
        assert(instance_among(forest, tree_size(forest[0]) + before) == instance_among(
            forest.skip(1),
            before,
        ));
    }
}

proof fn positions_are_children(nodes: Seq<NodeModel>, i: int, n: int)
    requires
        0 <= n <= nodes.len(),
    ensures
        children_of(nodes, i, n) == positions_under(rows_model(nodes).take(n), 0, i),
    decreases n,
{
    let rows = rows_model(nodes).take(n);
    if n > 0 {
        positions_are_children(nodes, i, n - 1);
        assert(rows.drop_last() =~= rows_model(nodes).take(n - 1));
        assert(rows.last() == row_model(nodes[n - 1]));
    }
}

/// The nodes of a sourcemap are the instances of its tree, one for one: as many, each with the name,
/// the class and the files it was written with, and with its children in the order they were written
/// in. The root comes first, spelled `game` where it is a DataModel and by its name where it is not.
pub proof fn an_index_is_its_tree(nodes: Seq<NodeModel>, root: RawNode, i: int)
    requires
        tree_wf(nodes),
        rows_model(nodes) == all_rows(root),
        0 <= i < nodes.len(),
    ensures
        nodes.len() == tree_size(root),
        nodes[0].parent is None,
        nodes[0].instance_path == label_of_root(root.name@, root.class_name@),
        row_model(nodes[i]) == row_of(
            instance_at(root, i),
            nodes[i].parent,
            nodes[i].instance_path,
        ),
        nodes[i].children == child_positions(instance_at(root, i).children@, i),
        forall|j: int|
            0 <= j < nodes[i].children.len() ==> instance_at(
                root,
                #[trigger] nodes[i].children[j],
            ) == instance_at(root, i).children@[j],
{
    let path = label_of_root(root.name@, root.class_name@);
    let here = instance_at(root, i);
    rows_of_a_tree(root, None, path, 0);
    assert(rows_model(nodes).len() == nodes.len());
    assert(node_wf(nodes, 0));
    assert(rows_model(nodes)[0] == row_model(nodes[0]));
    assert(rows_model(nodes)[i] == row_model(nodes[i]));
    rows_tell_the_instances(root, None, path, 0, i);
    assert(node_wf(nodes, i));
    positions_are_children(nodes, i, nodes.len() as int);
    assert(rows_model(nodes).take(nodes.len() as int) =~= all_rows(root));
    children_in_a_tree(root, None, path, 0, i);
    assert forall|j: int| 0 <= j < nodes[i].children.len() implies instance_at(
        root,
        #[trigger] nodes[i].children[j],
    ) == here.children@[j] by {
        a_tree_has_its_place(here.children@, j);
        a_tree_stands_in_one_piece(root, i, 1 + forest_size(here.children@.take(j)));
    }
}

/// Every instance but the root is listed once among the children of its parent, which stands before
/// it, and among those of no other.
pub proof fn every_instance_is_listed_once(nodes: Seq<NodeModel>, i: int)
    requires
        tree_wf(nodes),
        0 < i < nodes.len(),
    ensures
        nodes[i].parent matches Some(p) && {
            &&& 0 <= p < i
            &&& nodes[i].instance_path == nodes[p].instance_path + "."@ + nodes[i].name
            &&& nodes[p].children.contains(i)
            &&& nodes[p].children.no_duplicates()
            &&& forall|q: int|
                0 <= q < nodes.len() && (#[trigger] nodes[q]).children.contains(i) ==> q == p
        },
{
    assert(node_wf(nodes, i));
    let p = nodes[i].parent->0;
    assert(node_wf(nodes, p));
    children_point_back(nodes, p, nodes.len() as int);
    assert forall|q: int|
        0 <= q < nodes.len() && (#[trigger] nodes[q]).children.contains(i) implies q == p by {
        assert(node_wf(nodes, q));
        children_point_back(nodes, q, nodes.len() as int);
        let k = choose|k: int| 0 <= k < nodes[q].children.len() && nodes[q].children[k] == i;
        assert(nodes[children_of(nodes, q, nodes.len() as int)[k]].parent == Some(q));
    }
}

// ---------------------------------------------------------------------------
// From an instance to its path and back

/// Whether a text is an identifier: a character or more, each of which may stand in one.
pub open spec fn is_identifier(name: Seq<char>) -> bool {
    &&& name.len() > 0
    &&& forall|k: int| 0 <= k < name.len() ==> is_identifier_char(#[trigger] name[k])
}

/// Whether no other child of the same parent has the name of a node.
pub open spec fn has_its_own_name(nodes: Seq<NodeModel>, i: int) -> bool {
    forall|j: int|
        0 <= j < nodes.len() && j != i && (#[trigger] nodes[j]).parent == nodes[i].parent
            ==> nodes[j].name != nodes[i].name
}

/// Whether a node can be told by its path: its name and those above it are identifiers, and none is
/// shared with a sibling.
pub open spec fn is_told_by_its_path(nodes: Seq<NodeModel>, i: int) -> bool
    decreases i,
{
    &&& is_identifier(nodes[i].name)
    &&& match nodes[i].parent {
        Some(p) => has_its_own_name(nodes, i) && 0 <= p < i && is_told_by_its_path(nodes, p),
        None => true,
    }
}

/// Whether a text is made of the characters of identifiers, and dots.
spec fn is_dotted(text: Seq<char>) -> bool {
    forall|k: int| 0 <= k < text.len() ==> (is_identifier_char(#[trigger] text[k]) || text[k] == '.')
}

proof fn identifier_ends_before_a_dot(text: Seq<char>, name: Seq<char>, k: int)
    requires
        is_dotted(text),
        0 <= k <= text.len(),
    ensures
        identifier_end(text + "."@ + name, k) == identifier_end(text, k),
    decreases text.len() - k,
{
    reveal_strlit(".");
    let whole = text + "."@ + name;
    if k < text.len() {
        assert(whole[k] == text[k]);
        identifier_ends_before_a_dot(text, name, k + 1);
    } else {
        assert(whole[k] == '.');
    }
}

proof fn identifier_ends_with_the_text(text: Seq<char>, name: Seq<char>, k: int)
    requires
        is_identifier(name),
        0 <= k <= name.len(),
    ensures
        identifier_end(text + "."@ + name, text.len() + 1 + k) == text.len() + 1 + name.len(),
    decreases name.len() - k,
{
    reveal_strlit(".");
    if k < name.len() {
        assert((text + "."@ + name)[text.len() + 1 + k] == name[k]);
        identifier_ends_with_the_text(text, name, k + 1);
    }
}

/// A name behind a dot is one segment more.
proof fn one_segment_more(text: Seq<char>, name: Seq<char>, k: int)
    requires
        is_dotted(text),
        is_identifier(name),
        0 <= k <= text.len(),
    ensures
        segments_from(text + "."@ + name, k) == segments_from(text, k).push(name),
    decreases text.len() - k,
{
    reveal_strlit(".");
    let whole = text + "."@ + name;
    if k == text.len() {
        let from = text.len() + 1;
        identifier_ends_with_the_text(text, name, 0);
        assert(whole[k] == '.');
        assert(whole[from as int] == name[0]);
        assert(is_identifier_char(name[0]));
        assert(whole.subrange(from as int, whole.len() as int) =~= name);
        assert(segments_from(whole, whole.len() as int) =~= Seq::empty());
        assert(segments_from(whole, from as int) =~= seq![name]);
        assert(segments_from(text, k).push(name) =~= seq![name]);
    } else {
        assert(whole[k] == text[k]);
        if text[k] == '.' {
            one_segment_more(text, name, k + 1);
        } else {
            assert(is_identifier_char(text[k]));
            identifier_ends_before_a_dot(text, name, k);
            identifier_end_moves(text, k);
            let end = identifier_end(text, k);
            assert(end > k) by {
                identifier_end_moves(text, k + 1);
            }
            one_segment_more(text, name, end);
            assert(whole.subrange(k, end) =~= text.subrange(k, end));
            assert(segments_from(whole, k) =~= segments_from(text, k).push(name));
        }
    }
}

proof fn an_identifier_is_one_segment(name: Seq<char>)
    requires
        is_identifier(name),
    ensures
        path_segments(name) == seq![name],
{
    whole_identifier(name, 0);
    assert(is_identifier_char(name[0]));
    assert(name.subrange(0, name.len() as int) =~= name);
    assert(segments_from(name, name.len() as int) =~= Seq::empty());
    assert(path_segments(name) =~= seq![name]);
}

proof fn whole_identifier(name: Seq<char>, k: int)
    requires
        is_identifier(name),
        0 <= k <= name.len(),
    ensures
        identifier_end(name, k) == name.len(),
    decreases name.len() - k,
{
    if k < name.len() {
        assert(is_identifier_char(name[k]));
        whole_identifier(name, k + 1);
    }
}

/// The names from below the root to a node.
spec fn names_to(nodes: Seq<NodeModel>, i: int) -> Seq<Seq<char>>
    decreases i,
{
    match nodes[i].parent {
        Some(p) => if 0 <= p < i {
            names_to(nodes, p).push(nodes[i].name)
        } else {
            Seq::empty()
        },
        None => Seq::empty(),
    }
}

proof fn a_path_tells_its_names(nodes: Seq<NodeModel>, i: int)
    requires
        tree_wf(nodes),
        nodes[0].instance_path == "game"@ || nodes[0].instance_path == nodes[0].name,
        0 <= i < nodes.len(),
        is_told_by_its_path(nodes, i),
    ensures
        is_dotted(nodes[i].instance_path),
        path_segments(nodes[i].instance_path) == seq![nodes[0].instance_path] + names_to(nodes, i),
    decreases i,
{
    reveal_strlit("game");
    reveal_strlit(".");
    assert(node_wf(nodes, i));
    match nodes[i].parent {
        None => {
            assert(is_identifier("game"@));
            an_identifier_is_one_segment(nodes[0].instance_path);
            assert(seq![nodes[0].instance_path] + names_to(nodes, i)
                =~= seq![nodes[0].instance_path]);
        },
        Some(p) => {
            a_path_tells_its_names(nodes, p);
            let above = nodes[p].instance_path;
            let name = nodes[i].name;
            one_segment_more(above, name, 0);
            assert((seq![nodes[0].instance_path] + names_to(nodes, p)).push(name) =~= seq![
                nodes[0].instance_path,
            ] + names_to(nodes, i));
            let path = nodes[i].instance_path;
            assert forall|k: int| 0 <= k < path.len() implies (is_identifier_char(
                #[trigger] path[k],
            ) || path[k] == '.') by {
                if k < above.len() {
                    assert(path[k] == above[k]);
                } else if k > above.len() {
                    assert(path[k] == name[k - above.len() - 1]);
                }
            }
        },
    }
}

proof fn one_step_further(nodes: Seq<NodeModel>, at: int, names: Seq<Seq<char>>, name: Seq<char>)
    ensures
        descend(nodes, at, names) matches Ok(there) ==> descend(nodes, at, names.push(name)) == (
        match child_named(nodes, nodes[there].children, name, 0) {
            Some(child) => Ok(child),
            None => Err((there, name)),
        }),
    decreases names.len(),
{
    let more = names.push(name);
    if names.len() == 0 {
        assert(more.skip(1) =~= Seq::empty());
        match child_named(nodes, nodes[at].children, name, 0) {
            Some(child) => {
                assert(descend(nodes, child, more.skip(1)) == Ok::<int, (int, Seq<char>)>(child));
            },
            None => {},
        }
    } else {
        assert(more[0] == names[0]);
        assert(more.skip(1) =~= names.skip(1).push(name));
        match child_named(nodes, nodes[at].children, names[0], 0) {
            Some(child) => {
                one_step_further(nodes, child, names.skip(1), name);
            },
            None => {},
        }
    }
}

proof fn the_one_of_its_name_is_found(nodes: Seq<NodeModel>, children: Seq<int>, i: int, k: int, at: int)
    requires
        0 <= k <= at < children.len(),
        children[at] == i,
        forall|j: int|
            0 <= j < children.len() && children[j] != i ==> nodes[#[trigger] children[j]].name
                != nodes[i].name,
    ensures
        child_named(nodes, children, nodes[i].name, k) == Some(i),
    decreases at - k,
{
    if children[k] != i {
        the_one_of_its_name_is_found(nodes, children, i, k + 1, at);
    }
}

proof fn names_lead_down(nodes: Seq<NodeModel>, i: int)
    requires
        tree_wf(nodes),
        0 <= i < nodes.len(),
        is_told_by_its_path(nodes, i),
    ensures
        descend(nodes, 0, names_to(nodes, i)) == Ok::<int, (int, Seq<char>)>(i),
    decreases i,
{
    assert(node_wf(nodes, i));
    if i > 0 {
        let p = nodes[i].parent->0;
        names_lead_down(nodes, p);
        one_step_further(nodes, 0, names_to(nodes, p), nodes[i].name);
        assert(node_wf(nodes, p));
        children_point_back(nodes, p, nodes.len() as int);
        let children = nodes[p].children;
        assert(children.contains(i));
        let at = choose|k: int| 0 <= k < children.len() && children[k] == i;
        assert forall|j: int| 0 <= j < children.len() && children[j] != i implies nodes[
            #[trigger] children[j]
        ].name != nodes[i].name by {
            let child = children_of(nodes, p, nodes.len() as int)[j];
            assert(nodes[child].parent == Some(p));
        }
        the_one_of_its_name_is_found(nodes, children, i, 0, at);
    }
}

/// The path of an instance leads back to it, where the names on the way are identifiers that no
/// sibling shares.
pub proof fn an_instance_path_leads_back(nodes: Seq<NodeModel>, root: RawNode, i: int)
    requires
        tree_wf(nodes),
        rows_model(nodes) == all_rows(root),
        0 <= i < nodes.len(),
        is_told_by_its_path(nodes, i),
    ensures
        node_at_path(nodes, nodes[i].instance_path) == Ok::<int, FailureModel>(i),
{
    an_index_is_its_tree(nodes, root, 0);
    a_path_tells_its_names(nodes, i);
    names_lead_down(nodes, i);
    let segments = path_segments(nodes[i].instance_path);
    assert(segments[0] == nodes[0].instance_path);
    assert(segments.skip(1) =~= names_to(nodes, i));
}

// ---------------------------------------------------------------------------
// Answers

/// Whether an answer tells an instance: its path, its class, the files it is built from, how many
/// children it has, the first Luau file among its files, and the name of the ancestor below the root.
pub open spec fn tells(answer: InstanceModel, nodes: Seq<NodeModel>, i: int) -> bool {
    &&& answer.instance_path == nodes[i].instance_path
    &&& answer.class_name == nodes[i].class_name
    &&& answer.file_paths == nodes[i].file_paths
    &&& answer.children == nodes[i].children.len()
    &&& match answer.script_file {
        Some(file) => exists|k: int|
            {
                &&& 0 <= k < nodes[i].file_paths.len()
                &&& #[trigger] nodes[i].file_paths[k] == file
                &&& names_luau(file)
                &&& forall|j: int| 0 <= j < k ==> !names_luau(#[trigger] nodes[i].file_paths[j])
            },
        None => forall|j: int|
            0 <= j < nodes[i].file_paths.len() ==> !names_luau(#[trigger] nodes[i].file_paths[j]),
    }
    &&& is_service_of(answer.service, nodes, i)
}

/// Whether a name is that of the ancestor of a node below the root, which the root has none of.
pub open spec fn is_service_of(service: Option<Seq<char>>, nodes: Seq<NodeModel>, i: int) -> bool {
    match service {
        Some(name) => exists|top: int|
            {
                &&& 0 <= top < nodes.len()
                &&& nodes[top].name == name
                &&& nodes[top].parent == Some(0int)
                &&& #[trigger] stands_under(nodes, i, top)
            },
        None => nodes[i].parent is None,
    }
}

/// Whether a node is another or one of those above it.
pub open spec fn stands_under(nodes: Seq<NodeModel>, i: int, top: int) -> bool
    decreases i,
{
    i == top || match nodes[i].parent {
        Some(p) => 0 <= p < i && stands_under(nodes, p, top),
        None => false,
    }
}

pub proof fn a_node_has_its_service(nodes: Seq<NodeModel>, i: int)
    requires
        tree_wf(nodes),
        0 <= i < nodes.len(),
    ensures
        is_service_of(service_name(nodes, i), nodes, i),
    decreases i,
{
    assert(node_wf(nodes, i));
    if let Some(p) = nodes[i].parent {
        if p == 0 {
            assert(stands_under(nodes, i, i));
        } else {
            a_node_has_its_service(nodes, p);
            assert(node_wf(nodes, p));
            if service_name(nodes, p) is Some {
                let top = choose|top: int|
                    {
                        &&& 0 <= top < nodes.len()
                        &&& nodes[top].name == service_name(nodes, p)->0
                        &&& nodes[top].parent == Some(0int)
                        &&& #[trigger] stands_under(nodes, p, top)
                    };
                assert(stands_under(nodes, i, top));
            }
        }
    }
}

proof fn the_script_is_the_first_luau_file(paths: Seq<Seq<char>>, k: int)
    requires
        0 <= k <= paths.len(),
        forall|j: int| 0 <= j < k ==> !names_luau(#[trigger] paths[j]),
    ensures
        match first_luau(paths, k) {
            Some(file) => exists|i: int|
                {
                    &&& 0 <= i < paths.len()
                    &&& #[trigger] paths[i] == file
                    &&& names_luau(file)
                    &&& forall|j: int| 0 <= j < i ==> !names_luau(#[trigger] paths[j])
                },
            None => forall|j: int| 0 <= j < paths.len() ==> !names_luau(#[trigger] paths[j]),
        },
    decreases paths.len() - k,
{
    if k < paths.len() {
        if names_luau(paths[k]) {
            assert(paths[k] == paths[k]);
        } else {
            the_script_is_the_first_luau_file(paths, k + 1);
        }
    }
}

proof fn a_description_tells(nodes: Seq<NodeModel>, i: int)
    requires
        tree_wf(nodes),
        0 <= i < nodes.len(),
    ensures
        tells(described(nodes, i), nodes, i),
{
    the_script_is_the_first_luau_file(nodes[i].file_paths, 0);
    a_node_has_its_service(nodes, i);
}

/// Whether an answer tells an instance that is built from a file.
pub open spec fn tells_one_of(answer: InstanceModel, nodes: Seq<NodeModel>, file: Seq<char>) -> bool {
    exists|i: int|
        {
            &&& 0 <= i < nodes.len()
            &&& nodes[i].file_paths.contains(file)
            &&& #[trigger] tells(answer, nodes, i)
        }
}

/// Whether one of the answers tells an instance.
pub open spec fn is_told_among(found: Seq<InstanceModel>, nodes: Seq<NodeModel>, i: int) -> bool {
    exists|k: int| 0 <= k < found.len() && tells(#[trigger] found[k], nodes, i)
}

/// A file is answered with the instances that are built from it, each told as it is and none left out.
/// Where none is built from it, an init file is answered with those built from its directory; any other
/// file is refused.
pub proof fn a_file_is_answered_with_its_instances(nodes: Seq<NodeModel>, relative_path: Seq<char>)
    requires
        tree_wf(nodes),
    ensures
        ({
            let file = normalized(relative_path);
            let asked = exists|i: int|
                0 <= i < nodes.len() && (#[trigger] nodes[i]).file_paths.contains(file);
            let named = if asked {
                Some(file)
            } else if names_init(file) && rsplit_once_on(file, '/') is Some {
                Some((rsplit_once_on(file, '/')->0).0)
            } else {
                None
            };
            match resolved_instances(nodes, None, Some(relative_path)) {
                Ok(found) => {
                    &&& named is Some
                    &&& found.len() > 0
                    &&& forall|k: int|
                        0 <= k < found.len() ==> tells_one_of(#[trigger] found[k], nodes, named->0)
                    &&& forall|i: int|
                        0 <= i < nodes.len() && (#[trigger] nodes[i]).file_paths.contains(named->0)
                            ==> is_told_among(found, nodes, i)
                },
                Err(_) => named matches Some(name) ==> forall|i: int|
                    0 <= i < nodes.len() ==> !(#[trigger] nodes[i]).file_paths.contains(name),
            }
        }),
{
    let file = normalized(relative_path);
    let direct = built_from(nodes, file, nodes.len() as int);
    let nodes_found = nodes_of_file(nodes, relative_path);
    built_from_is_exact(nodes, file, nodes.len() as int);
    if exists|i: int| 0 <= i < nodes.len() && (#[trigger] nodes[i]).file_paths.contains(file) {
        let i = choose|i: int|
            0 <= i < nodes.len() && (#[trigger] nodes[i]).file_paths.contains(file);
        assert(direct.contains(i));
        assert(direct.len() > 0);
        files_are_told(nodes, file, nodes_found);
    } else {
        if direct.len() > 0 {
            assert(direct.contains(direct[0]));
        }
        if names_init(file) && rsplit_once_on(file, '/') is Some {
            let directory = (rsplit_once_on(file, '/')->0).0;
            built_from_is_exact(nodes, directory, nodes.len() as int);
            assert(nodes_found == built_from(nodes, directory, nodes.len() as int));
            files_are_told(nodes, directory, nodes_found);
            if nodes_found.len() == 0 {
                assert forall|i: int| 0 <= i < nodes.len() implies !(
                #[trigger] nodes[i]).file_paths.contains(directory) by {
                    assert(!nodes_found.contains(i));
                }
            }
        }
    }
}

proof fn files_are_told(nodes: Seq<NodeModel>, name: Seq<char>, positions: Seq<int>)
    requires
        tree_wf(nodes),
        forall|i: int|
            #[trigger] positions.contains(i) <==> 0 <= i < nodes.len()
                && nodes[i].file_paths.contains(name),
    ensures
        ({
            let found = positions.map_values(|node: int| described(nodes, node));
            &&& forall|k: int|
                0 <= k < found.len() ==> tells_one_of(#[trigger] found[k], nodes, name)
            &&& forall|i: int|
                0 <= i < nodes.len() && (#[trigger] nodes[i]).file_paths.contains(name)
                    ==> is_told_among(found, nodes, i)
        }),
{
    let found = positions.map_values(|node: int| described(nodes, node));
    assert forall|k: int| 0 <= k < found.len() implies tells_one_of(
        #[trigger] found[k],
        nodes,
        name,
    ) by {
        let i = positions[k];
        assert(positions.contains(i));
        a_description_tells(nodes, i);
        assert(tells(found[k], nodes, i));
    }
    assert forall|i: int|
        0 <= i < nodes.len() && (#[trigger] nodes[i]).file_paths.contains(
            name,
        ) implies is_told_among(found, nodes, i) by {
        assert(positions.contains(i));
        let k = choose|k: int| 0 <= k < positions.len() && positions[k] == i;
        a_description_tells(nodes, i);
        assert(tells(found[k], nodes, i));
    }
}

/// The path of an instance is answered with that instance and no other, where the names on the way are
/// identifiers that no sibling shares; and each of its files, asked back, is answered with a list that
/// holds the same answer again. A file is asked back as it is told only where it is told as paths are
/// spelled.
pub proof fn an_instance_and_its_files_lead_to_each_other(
    nodes: Seq<NodeModel>,
    root: RawNode,
    i: int,
    f: int,
)
    requires
        tree_wf(nodes),
        rows_model(nodes) == all_rows(root),
        0 <= i < nodes.len(),
        is_told_by_its_path(nodes, i),
        0 <= f < nodes[i].file_paths.len() ==> normalized(nodes[i].file_paths[f])
            == nodes[i].file_paths[f],
    ensures
        resolved_instances(nodes, Some(nodes[i].instance_path), None) matches Ok(found) && {
            &&& found.len() == 1
            &&& tells(found[0], nodes, i)
            &&& 0 <= f < found[0].file_paths.len() ==> (resolved_instances(
                nodes,
                None,
                Some(found[0].file_paths[f]),
            ) matches Ok(back) && back.contains(found[0]))
        },
{
    an_instance_path_leads_back(nodes, root, i);
    a_description_tells(nodes, i);
    let found = seq![described(nodes, i)];
    assert(resolved_instances(nodes, Some(nodes[i].instance_path), None) == Ok::<
        Seq<InstanceModel>,
        FailureModel,
    >(found));
    if 0 <= f < nodes[i].file_paths.len() {
        let file = nodes[i].file_paths[f];
        files_lead_back_to_their_instances(nodes, file);
        assert(nodes[i].file_paths.contains(file));
        let positions = nodes_of_file(nodes, file);
        assert(positions.contains(i));
        let k = choose|k: int| 0 <= k < positions.len() && positions[k] == i;
        let back = positions.map_values(|node: int| described(nodes, node));
        assert(back[k] == found[0]);
        assert(back.contains(found[0]));
    }
}

/// Whether positions lead down from the root by names: each is the first child of the one before that
/// has the next name.
pub open spec fn leads_down(nodes: Seq<NodeModel>, down: Seq<int>, names: Seq<Seq<char>>) -> bool {
    &&& down.len() == names.len() + 1
    &&& down[0] == 0
    &&& forall|k: int|
        0 <= k < names.len() ==> is_first_child(nodes, #[trigger] down[k], names[k], down[k + 1])
}

proof fn descending_goes_by_first_children(nodes: Seq<NodeModel>, at: int, names: Seq<Seq<char>>) -> (
    down: Seq<int>)
    requires
        descend(nodes, at, names) is Ok,
    ensures
        down.len() == names.len() + 1,
        down[0] == at,
        down.last() == descend(nodes, at, names)->Ok_0,
        forall|k: int|
            0 <= k < names.len() ==> is_first_child(
                nodes,
                #[trigger] down[k],
                names[k],
                down[k + 1],
            ),
    decreases names.len(),
{
    if names.len() == 0 {
        seq![at]
    } else {
        the_first_child_is_found(nodes, at, names[0], 0);
        let child = child_named(nodes, nodes[at].children, names[0], 0)->0;
        let rest = descending_goes_by_first_children(nodes, child, names.skip(1));
        let down = seq![at] + rest;
        assert forall|k: int| 0 <= k < names.len() implies is_first_child(
            nodes,
            #[trigger] down[k],
            names[k],
            down[k + 1],
        ) by {
            if k > 0 {
                assert(down[k] == rest[k - 1]);
                assert(names.skip(1)[k - 1] == names[k]);
                assert(down[k + 1] == rest[k]);
            }
        }
        assert(down.last() == rest.last());
        down
    }
}

proof fn a_way_down_is_found(nodes: Seq<NodeModel>, down: Seq<int>, names: Seq<Seq<char>>)
    requires
        down.len() == names.len() + 1,
        forall|k: int|
            0 <= k < names.len() ==> is_first_child(
                nodes,
                #[trigger] down[k],
                names[k],
                down[k + 1],
            ),
    ensures
        descend(nodes, down[0], names) == Ok::<int, (int, Seq<char>)>(down.last()),
    decreases names.len(),
{
    if names.len() > 0 {
        assert(is_first_child(nodes, down[0], names[0], down[1]));
        one_first_child(nodes, down[0], names[0], down[1], 0);
        let rest = down.skip(1);
        assert forall|k: int| 0 <= k < names.skip(1).len() implies is_first_child(
            nodes,
            #[trigger] rest[k],
            names.skip(1)[k],
            rest[k + 1],
        ) by {
            assert(rest[k] == down[k + 1]);
        }
        a_way_down_is_found(nodes, rest, names.skip(1));
        assert(rest.last() == down.last());
    }
}

proof fn one_first_child(nodes: Seq<NodeModel>, at: int, name: Seq<char>, child: int, k: int)
    requires
        0 <= k <= nodes[at].children.len(),
        is_first_child(nodes, at, name, child),
        forall|j: int| 0 <= j < k ==> nodes[#[trigger] nodes[at].children[j]].name != name,
    ensures
        child_named(nodes, nodes[at].children, name, k) == Some(child),
    decreases nodes[at].children.len() - k,
{
    let first = choose|first: int|
        {
            &&& 0 <= first < nodes[at].children.len()
            &&& #[trigger] nodes[at].children[first] == child
            &&& nodes[child].name == name
            &&& forall|j: int|
                0 <= j < first ==> nodes[#[trigger] nodes[at].children[j]].name != name
        };
    assert(nodes[nodes[at].children[first]].name == name);
    assert(k <= first);
    if k < first {
        assert(nodes[nodes[at].children[k]].name != name);
        one_first_child(nodes, at, name, child, k + 1);
    }
}

/// Whether an answer tells the instance that names lead down to.
pub open spec fn tells_what_names_lead_to(
    answer: InstanceModel,
    nodes: Seq<NodeModel>,
    names: Seq<Seq<char>>,
) -> bool {
    exists|down: Seq<int>|
        #[trigger] leads_down(nodes, down, names) && tells(answer, nodes, down.last())
}

/// Whether no instance stands where names lead.
pub open spec fn names_lead_nowhere(nodes: Seq<NodeModel>, names: Seq<Seq<char>>) -> bool {
    forall|down: Seq<int>| !#[trigger] leads_down(nodes, down, names)
}

/// A path is answered with one instance: the one its names lead down to from the root, by the first
/// child of each name, once `game` or the name of the root is left out in front. Where no names lead
/// down like that, and where there is no name at all, it is refused.
pub proof fn a_path_is_answered_with_what_it_leads_to(nodes: Seq<NodeModel>, path: Seq<char>)
    requires
        tree_wf(nodes),
    ensures
        ({
            let segments = path_segments(path);
            let names = if segments.len() > 0 && (segments[0] == "game"@ || segments[0]
                == nodes[0].name) {
                segments.skip(1)
            } else {
                segments
            };
            match resolved_instances(nodes, Some(path), None) {
                Ok(found) => {
                    &&& segments.len() > 0
                    &&& found.len() == 1
                    &&& tells_what_names_lead_to(found[0], nodes, names)
                },
                Err(_) => segments.len() == 0 || names_lead_nowhere(nodes, names),
            }
        }),
{
    let segments = path_segments(path);
    let names = below_root(nodes, segments);
    if segments.len() > 0 {
        if descend(nodes, 0, names) is Ok {
            let down = descending_goes_by_first_children(nodes, 0, names);
            assert(leads_down(nodes, down, names));
            a_way_stays_inside(nodes, down, names, names.len() as int);
            a_description_tells(nodes, down.last());
        } else {
            assert forall|down: Seq<int>| !#[trigger] leads_down(nodes, down, names) by {
                if leads_down(nodes, down, names) {
                    a_way_down_is_found(nodes, down, names);
                }
            }
        }
    }
}

proof fn a_way_stays_inside(nodes: Seq<NodeModel>, down: Seq<int>, names: Seq<Seq<char>>, n: int)
    requires
        tree_wf(nodes),
        leads_down(nodes, down, names),
        0 <= n <= names.len(),
    ensures
        0 <= down[n] < nodes.len(),
    decreases n,
{
    if n > 0 {
        a_way_stays_inside(nodes, down, names, n - 1);
        let at = down[n - 1];
        assert(is_first_child(nodes, at, names[n - 1], down[n - 1 + 1]));
        assert(node_wf(nodes, at));
        children_point_back(nodes, at, nodes.len() as int);
        let k = choose|k: int|
            {
                &&& 0 <= k < nodes[at].children.len()
                &&& #[trigger] nodes[at].children[k] == down[n]
                &&& nodes[down[n]].name == names[n - 1]
                &&& forall|j: int|
                    0 <= j < k ==> nodes[#[trigger] nodes[at].children[j]].name != names[n - 1]
            };
        assert(children_of(nodes, at, nodes.len() as int)[k] == down[n]);
    }
}

/// A question says one of the two: with both a path and a file, or with neither, it is refused.
pub proof fn one_side_is_asked(nodes: Seq<NodeModel>, path: Seq<char>, file: Seq<char>)
    ensures
        resolved_instances(nodes, Some(path), Some(file)) is Err,
        resolved_instances(nodes, None, None) is Err,
{
}

} // verus!
