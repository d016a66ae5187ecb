//! How instances and files are named.
use vstd::prelude::*;
use super::sourcemap::{
    after_last_slash, all_rows, file_name_of, luau_among, luau_files_of, names_init, names_luau,
    node_wf, normalized, reference_model, row_model, rows_model, tree_wf, without_dot_slashes,
    without_leading_slashes, without_trailing_slashes, FileStamp, NodeModel, RawNode,
};
use super::sourcemap_laws::{an_index_is_its_tree, instance_at};
use crate::text::{ends_with, last_position_before, replaced_char};
use crate::text_laws::{a_suffix_comes_off, a_text_is_split_at_the_last, free_of};

verus! {

/// A node tells of its instance what the tree says of it: its name, its class and its files, spelled as
/// Biskit spells paths. Its path is that of its parent, a dot, and its name.
pub proof fn a_node_tells_its_instance(nodes: Seq<NodeModel>, root: RawNode, i: int)
    requires
        tree_wf(nodes),
        rows_model(nodes) == all_rows(root),
        0 <= i < nodes.len(),
    ensures
        ({
            let raw = instance_at(root, i);
            &&& nodes[i].name == raw.name@
            &&& nodes[i].class_name == raw.class_name@
            &&& nodes[i].file_paths.len() == raw.file_paths@.len()
            &&& forall|k: int|
                0 <= k < raw.file_paths@.len() ==> nodes[i].file_paths[k] == normalized(
                    (#[trigger] raw.file_paths@[k])@,
                )
        }),
        match nodes[i].parent {
            Some(p) => 0 <= p < i && nodes[i].instance_path == nodes[p].instance_path.push('.')
                + nodes[i].name,
            None => i == 0 && nodes[i].instance_path == if root.class_name@ == "DataModel"@ {
                "game"@
            } else {
                root.name@
            },
        },
{
    an_index_is_its_tree(nodes, root, i);
    assert(node_wf(nodes, i));
    assert(node_wf(nodes, 0));
    let raw = instance_at(root, i);
    assert forall|k: int| 0 <= k < raw.file_paths@.len() implies nodes[i].file_paths[k]
        == normalized((#[trigger] raw.file_paths@[k])@) by {
        assert(raw.file_paths.deep_view()[k] == raw.file_paths@[k]@);
        assert(row_model(nodes[i]).file_paths == nodes[i].file_paths);
    }
    reveal_strlit(".");
    if let Some(p) = nodes[i].parent {
        assert(nodes[p].instance_path + "."@ + nodes[i].name =~= nodes[p].instance_path.push('.')
            + nodes[i].name);
    }
}

// ---------------------------------------------------------------------------
// Paths

/// Whether a path is spelled as Biskit spells it already.
pub open spec fn is_spelled_plainly(path: Seq<char>) -> bool {
    &&& free_of(path, '\\')
    &&& path.len() > 0
    &&& path[0] != '/'
    &&& path.last() != '/'
    &&& !(path.len() > 1 && path[0] == '.' && path[1] == '/')
}

/// A path that is spelled plainly is kept. Backslashes are slashes, `./` and a slash before it do not count,
/// and neither does one behind it, unless the path is a dot.
pub proof fn every_spelling_of_a_path_is_one(path: Seq<char>)
    requires
        is_spelled_plainly(path),
    ensures
        normalized(path) == path,
        normalized(seq!['.', '/'] + path) == path,
        normalized(seq!['/'] + path) == path,
        path != seq!['.'] ==> normalized(path.push('/')) == path,
        normalized(replaced_char(path, '/', '\\')) == path,
{
    assert(replaced_char(path, '\\', '/') =~= path);
    assert(without_dot_slashes(path) == path);
    assert(without_leading_slashes(path) == path);
    assert(without_trailing_slashes(path) == path);
    let dotted = seq!['.', '/'] + path;
    assert(replaced_char(dotted, '\\', '/') =~= dotted) by {
        assert forall|k: int| 0 <= k < dotted.len() implies #[trigger] dotted[k] != '\\' by {
            if k >= 2 {
                assert(dotted[k] == path[k - 2]);
            }
        }
    }
    assert(dotted.skip(2) =~= path);
    assert(dotted[0] == '.' && dotted[1] == '/');
    let rooted = seq!['/'] + path;
    assert(replaced_char(rooted, '\\', '/') =~= rooted) by {
        assert forall|k: int| 0 <= k < rooted.len() implies #[trigger] rooted[k] != '\\' by {
            if k >= 1 {
                assert(rooted[k] == path[k - 1]);
            }
        }
    }
    assert(rooted[0] == '/');
    assert(rooted.skip(1) =~= path);
    let closed = path.push('/');
    assert(replaced_char(closed, '\\', '/') =~= closed) by {
        assert forall|k: int| 0 <= k < closed.len() implies #[trigger] closed[k] != '\\' by {
            if k < path.len() {
                assert(closed[k] == path[k]);
            }
        }
    }
    assert(closed[0] == path[0]);
    if path.len() > 1 {
        assert(closed[1] == path[1]);
    }
    assert(without_leading_slashes(closed) == closed);
    assert(closed.drop_last() =~= path);
    assert(closed.last() == '/');
    if path != seq!['.'] {
        closed_keeps_its_start(path);
    }
    let back = replaced_char(path, '/', '\\');
    assert(replaced_char(back, '\\', '/') =~= path) by {
        assert forall|k: int| 0 <= k < path.len() implies replaced_char(back, '\\', '/')[k]
            == path[k] by {
            assert(path[k] != '\\');
        }
    }
}

proof fn closed_keeps_its_start(path: Seq<char>)
    requires
        is_spelled_plainly(path),
        path != seq!['.'],
    ensures
        without_dot_slashes(path.push('/')) == path.push('/'),
{
    let closed = path.push('/');
    assert(closed[0] == path[0]);
    if path.len() > 1 {
        assert(closed[1] == path[1]);
    } else if path[0] == '.' {
        assert(path =~= seq!['.']);
    }
}

/// Whether a text is a name a file can have: no slash in it, and neither nothing nor a dot.
pub open spec fn is_file_name(name: Seq<char>) -> bool {
    free_of(name, '/') && name.len() > 0 && name != seq!['.']
}

proof fn a_name_has_no_slash(name: Seq<char>, to: int)
    requires
        free_of(name, '/'),
        0 <= to <= name.len(),
    ensures
        last_position_before(name, '/', to) is None,
    decreases to,
{
    if to > 0 {
        assert(name[to - 1] != '/');
        a_name_has_no_slash(name, to - 1);
    }
}

/// A file is a Luau file by its name alone: something, and one of the two extensions behind it. It is
/// folded into its directory by its name alone too.
pub proof fn a_luau_file_is_known_by_its_extension(directory: Seq<char>, name: Seq<char>)
    requires
        is_file_name(name),
    ensures
        names_luau(directory.push('/') + name) == names_luau(name),
        names_init(directory.push('/') + name) == names_init(name),
        names_luau(name) <==> {
            ||| name.len() > 5 && exists|stem: Seq<char>| name == #[trigger] (stem + ".luau"@)
            ||| name.len() > 4 && exists|stem: Seq<char>| name == #[trigger] (stem + ".lua"@)
        },
        names_init(name) <==> exists|role: Seq<char>, ending: Seq<char>|
            {
                &&& name == #[trigger] ("init"@ + role + ending)
                &&& role.len() == 0 || role == ".server"@ || role == ".client"@
                &&& ending == ".luau"@ || ending == ".lua"@
            },
{
    let path = directory.push('/') + name;
    let at = directory.len() as int;
    assert(name[name.len() - 1] != '/');
    assert(path.last() == name.last());
    assert(name.last() == name[name.len() - 1]);
    if path.last() == '.' && path.len() > 1 && path[path.len() - 2] == '/' {
        if name.len() > 1 {
            assert(path[path.len() - 2] == name[name.len() - 2]);
        } else {
            assert(name =~= seq!['.']);
        }
        assert(false);
    }
    a_text_is_split_at_the_last(directory, '/', name);
    the_last_slash_stands_there(path, at, path.len() as int);
    assert(path.skip(at + 1) =~= name);
    assert(file_name_of(path) == name);
    assert(after_last_slash(path) == name);
    if name.len() > 1 && name.last() == '.' {
        assert(name[name.len() - 2] != '/');
    }
    a_name_has_no_slash(name, name.len() as int);
    assert(file_name_of(name) == name);
    assert(after_last_slash(name) == name);
    an_ending_is_a_stem_and_more(name, ".luau"@);
    an_ending_is_a_stem_and_more(name, ".lua"@);
    the_folded_names(name);
}

proof fn the_last_slash_stands_there(path: Seq<char>, at: int, to: int)
    requires
        0 <= at < to <= path.len(),
        path[at] == '/',
        forall|k: int| at < k < path.len() ==> #[trigger] path[k] != '/',
    ensures
        last_position_before(path, '/', to) == Some(at),
    decreases to,
{
    if to - 1 > at {
        assert(path[to - 1] != '/');
        the_last_slash_stands_there(path, at, to - 1);
    }
}

proof fn an_ending_is_a_stem_and_more(name: Seq<char>, ending: Seq<char>)
    ensures
        ends_with(name, ending) <==> exists|stem: Seq<char>| name == #[trigger] (stem + ending),
{
    if ends_with(name, ending) {
        let stem = name.take(name.len() - ending.len());
        assert(name =~= stem + ending) by {
            assert(name.subrange(name.len() - ending.len(), name.len() as int) == ending);
            assert forall|k: int| 0 <= k < ending.len() implies ending[k] == name[name.len()
                - ending.len() + k] by {
                assert(name.subrange(name.len() - ending.len(), name.len() as int)[k] == ending[k]);
            }
        }
    }
    if exists|stem: Seq<char>| name == #[trigger] (stem + ending) {
        let stem = choose|stem: Seq<char>| name == #[trigger] (stem + ending);
        a_suffix_comes_off(stem, ending);
    }
}

proof fn the_folded_names(name: Seq<char>)
    ensures
        ({
            ||| name == "init.luau"@
            ||| name == "init.lua"@
            ||| name == "init.server.luau"@
            ||| name == "init.server.lua"@
            ||| name == "init.client.luau"@
            ||| name == "init.client.lua"@
        }) <==> exists|role: Seq<char>, ending: Seq<char>|
            {
                &&& name == #[trigger] ("init"@ + role + ending)
                &&& role.len() == 0 || role == ".server"@ || role == ".client"@
                &&& ending == ".luau"@ || ending == ".lua"@
            },
{
    reveal_strlit("init");
    reveal_strlit(".server");
    reveal_strlit(".client");
    reveal_strlit(".luau");
    reveal_strlit(".lua");
    reveal_strlit("init.luau");
    reveal_strlit("init.lua");
    reveal_strlit("init.server.luau");
    reveal_strlit("init.server.lua");
    reveal_strlit("init.client.luau");
    reveal_strlit("init.client.lua");
    let none = Seq::<char>::empty();
    assert("init"@ + none + ".luau"@ =~= "init.luau"@);
    assert("init"@ + none + ".lua"@ =~= "init.lua"@);
    assert("init"@ + ".server"@ + ".luau"@ =~= "init.server.luau"@);
    assert("init"@ + ".server"@ + ".lua"@ =~= "init.server.lua"@);
    assert("init"@ + ".client"@ + ".luau"@ =~= "init.client.luau"@);
    assert("init"@ + ".client"@ + ".lua"@ =~= "init.client.lua"@);
    assert forall|role: Seq<char>| #[trigger] role.len() == 0 implies role == none by {
        assert(role =~= none);
    }
}

/// The Luau files of a sourcemap are those that its instances are built from and that are Luau files.
pub proof fn the_luau_files_are_those_of_the_instances(
    nodes: Seq<NodeModel>,
    n: int,
    path: Seq<char>,
)
    requires
        0 <= n <= nodes.len(),
    ensures
        luau_files_of(nodes, n).contains(path) <==> names_luau(path) && exists|i: int|
            0 <= i < n && (#[trigger] nodes[i]).file_paths.contains(path),
    decreases n,
{
    if n > 0 {
        the_luau_files_are_those_of_the_instances(nodes, n - 1, path);
        let paths = nodes[n - 1].file_paths;
        let before = luau_files_of(nodes, n - 1);
        let added = luau_among(paths, paths.len() as int);
        let now = luau_files_of(nodes, n);
        luau_files_are_kept(paths, paths.len() as int, path);
        assert(paths.take(paths.len() as int) =~= paths);
        if before.contains(path) {
            let k = choose|k: int| 0 <= k < before.len() && before[k] == path;
            assert(now[k] == path);
        }
        if added.contains(path) {
            let k = choose|k: int| 0 <= k < added.len() && added[k] == path;
            assert(now[before.len() + k] == path);
        }
        if now.contains(path) {
            let k = choose|k: int| 0 <= k < now.len() && now[k] == path;
            if k < before.len() {
                assert(before[k] == path);
            } else {
                assert(added[k - before.len()] == path);
            }
        }
        assert(nodes[n - 1].file_paths == paths);
    }
}

proof fn luau_files_are_kept(paths: Seq<Seq<char>>, n: int, path: Seq<char>)
    requires
        0 <= n <= paths.len(),
    ensures
        luau_among(paths, n).contains(path) <==> names_luau(path) && paths.take(n).contains(path),
    decreases n,
{
    if n > 0 {
        luau_files_are_kept(paths, n - 1, path);
        let before = luau_among(paths, n - 1);
        let now = luau_among(paths, n);
        let fewer = paths.take(n - 1);
        let more = paths.take(n);
        assert(more =~= fewer.push(paths[n - 1]));
        if fewer.contains(path) {
            let k = choose|k: int| 0 <= k < fewer.len() && fewer[k] == path;
            assert(more[k] == path);
        }
        if more.contains(path) {
            let k = choose|k: int| 0 <= k < more.len() && more[k] == path;
            if k < n - 1 {
                assert(fewer[k] == path);
            }
        }
        assert(more[n - 1] == paths[n - 1]);
        if before.contains(path) {
            let k = choose|k: int| 0 <= k < before.len() && before[k] == path;
            assert(now[k] == path);
        }
        if now.contains(path) {
            let k = choose|k: int| 0 <= k < now.len() && now[k] == path;
            if k < before.len() {
                assert(before[k] == path);
            }
        }
        if names_luau(paths[n - 1]) {
            assert(now[before.len() as int] == paths[n - 1]);
        }
    }
}

/// A sourcemap is told with its age, in whole seconds, where the disk says when it was written.
pub proof fn a_sourcemap_is_told_with_its_age(
    path: Seq<char>,
    stamp: Option<FileStamp>,
    instances: int,
    now: int,
)
    ensures
        ({
            let told = reference_model(path, stamp, instances, now);
            &&& told.relative_path == path
            &&& told.instances == instances
            &&& match told.age_seconds {
                Some(age) => stamp matches Some(file) && age * 1_000_000_000 <= now
                    - file.modified_nanos < (age + 1) * 1_000_000_000,
                None => stamp matches Some(file) ==> now < file.modified_nanos || now
                    - file.modified_nanos > u64::MAX * 1_000_000_000,
            }
            &&& match told.modified_epoch_seconds {
                Some(at) => stamp matches Some(file) && at * 1_000_000_000 <= file.modified_nanos
                    < (at + 1) * 1_000_000_000,
                None => stamp matches Some(file) ==> file.modified_nanos < 0 || file.modified_nanos
                    > u64::MAX * 1_000_000_000,
            }
        }),
{
}

} // verus!
