//! What holds of every lookup of a `shared` name.
use vstd::prelude::*;
use super::require_graph::scan::bound_to;
use super::shared_require::{
    before_last_slash, candidates, ends_on_boundary, entries_of, key_of, lineage, module_name_of,
    names_of, nearest, nearness, needle_of, resolution, score, scored_name, scoring, shared_prefix,
    top_score, top_score_is_top, without_luau, EntryModel, ResolutionModel,
};
use super::sourcemap::{after_last_slash, node_wf, nodes_of_file, tree_wf, NodeModel};
use super::sourcemap_laws::files_lead_back_to_their_instances;
use crate::picking::{one_more_is_picked, rises};
use crate::text::{
    ascii_lowercase, ends_with, joined, last_position_before, replaced_char, sorted_texts,
    sorting_orders_the_same_texts, split_on, texts_in_order, without_suffix,
};
use crate::text_laws::{a_suffix_comes_off, free_of};

verus! {

// ---------------------------------------------------------------------------
// Names of files

proof fn the_last_slash(before: Seq<char>, last: Seq<char>)
    requires
        free_of(last, '/'),
    ensures
        after_last_slash(before.push('/') + last) == last,
        before_last_slash(before.push('/') + last) == before,
        after_last_slash(last) == last,
        before_last_slash(last) == Seq::<char>::empty(),
{
    let whole = before.push('/') + last;
    let at = before.len() as int;
    slash_is_last(whole, at, whole.len() as int);
    assert(whole.skip(at + 1) =~= last);
    assert(whole.take(at) =~= before);
    no_slash(last, last.len() as int);
}

proof fn slash_is_last(s: Seq<char>, at: int, to: int)
    requires
        0 <= at < to <= s.len(),
        s[at] == '/',
        forall|k: int| at < k < to ==> #[trigger] s[k] != '/',
    ensures
        last_position_before(s, '/', to) == Some(at),
    decreases to,
{
    if to - 1 > at {
        assert(s[to - 1] != '/');
        slash_is_last(s, at, to - 1);
    }
}

proof fn no_slash(s: Seq<char>, to: int)
    requires
        free_of(s, '/'),
        0 <= to <= s.len(),
    ensures
        last_position_before(s, '/', to) is None,
    decreases to,
{
    if to > 0 {
        assert(s[to - 1] != '/');
        no_slash(s, to - 1);
    }
}

proof fn an_extension_comes_off(bare: Seq<char>)
    ensures
        without_luau(bare + ".luau"@) == Some(bare),
        without_luau(bare + ".lua"@) == Some(bare),
{
    reveal_strlit(".luau");
    reveal_strlit(".lua");
    a_suffix_comes_off(bare, ".luau"@);
    a_suffix_comes_off(bare, ".lua"@);
    let short = bare + ".lua"@;
    assert(!ends_with(short, ".luau"@)) by {
        if ends_with(short, ".luau"@) {
            let tail = short.subrange(short.len() - 5, short.len() as int);
            assert(tail[4] == short[short.len() - 1]);
            assert(short[short.len() - 1] == 'a');
            assert(".luau"@[4] == 'u');
        }
    }
}

/// A Luau file is looked up by its name without the extension, whatever its case, and by its path; an
/// init file by the name and the path of its directory. The path is given up to the last slash, or as
/// nothing where there is none.
pub proof fn a_file_is_looked_up_by_its_name(
    directory: Option<Seq<char>>,
    stem: Seq<char>,
    extension: Seq<char>,
)
    requires
        extension == ".luau"@ || extension == ".lua"@,
        free_of(stem, '/'),
        stem.len() > 0,
    ensures
        ({
            let bare = match directory {
                Some(above) => above.push('/') + stem,
                None => stem,
            };
            &&& ascii_lowercase(stem) != "init"@ ==> key_of(bare + extension) == Some(
                (ascii_lowercase(stem), ascii_lowercase(bare)),
            )
            &&& key_of(bare + "/init"@ + extension) == Some(
                (ascii_lowercase(stem), ascii_lowercase(bare)),
            )
        }),
{
    reveal_strlit("/init");
    reveal_strlit("init");
    let bare = match directory {
        Some(above) => above.push('/') + stem,
        None => stem,
    };
    an_extension_comes_off(bare);
    match directory {
        Some(above) => the_last_slash(above, stem),
        None => the_last_slash(Seq::empty(), stem),
    }
    let folded = bare + "/init"@;
    assert(folded =~= bare.push('/') + "init"@);
    the_last_slash(bare, "init"@);
    assert(ascii_lowercase("init"@) =~= "init"@);
    an_extension_comes_off(folded);
    assert(bare + "/init"@ + extension =~= folded + extension);
}

/// A name may be written in any case, with either slash, and with its extension.
pub proof fn a_name_is_looked_up_plainly(name: Seq<char>)
    requires
        name.len() > 0,
        !ends_with(replaced_char(ascii_lowercase(name), '\\', '/'), ".luau"@),
        !ends_with(replaced_char(ascii_lowercase(name), '\\', '/'), ".lua"@),
    ensures
        needle_of(name) == replaced_char(ascii_lowercase(name), '\\', '/'),
        needle_of(name + ".luau"@) == needle_of(name),
        needle_of(name + ".lua"@) == needle_of(name),
{
    reveal_strlit(".luau");
    reveal_strlit(".lua");
    let plain = replaced_char(ascii_lowercase(name), '\\', '/');
    let long = replaced_char(ascii_lowercase(name + ".luau"@), '\\', '/');
    let short = replaced_char(ascii_lowercase(name + ".lua"@), '\\', '/');
    assert(long =~= plain + ".luau"@);
    assert(short =~= plain + ".lua"@);
    a_suffix_comes_off(plain, ".luau"@);
    a_suffix_comes_off(plain, ".lua"@);
    an_extension_comes_off(plain);
    assert(long.take(long.len() - 5) =~= plain);
    assert(short.take(short.len() - 4) =~= plain);
    assert(!ends_with(short, ".luau"@)) by {
        if ends_with(short, ".luau"@) {
            assert(without_suffix(short, ".luau"@) is Some);
            let tail = short.subrange(short.len() - 5, short.len() as int);
            assert(tail[4] == short[short.len() - 1]);
            assert(short[short.len() - 1] == 'a');
            assert(".luau"@[4] == 'u');
        }
    }
}

// ---------------------------------------------------------------------------
// Nearness

/// How near two names are is how many leading segments they share, and no more.
pub proof fn nearness_counts_shared_segments(left: Seq<char>, right: Seq<char>)
    ensures
        ({
            let a = split_on(replaced_char(left, '\\', '/'), '/');
            let b = split_on(replaced_char(right, '\\', '/'), '/');
            let n = nearness(left, right);
            &&& 0 <= n <= a.len()
            &&& n <= b.len()
            &&& forall|k: int| 0 <= k < n ==> #[trigger] a[k] == b[k]
            &&& n < a.len() && n < b.len() ==> a[n] != b[n]
        }),
{
    let a = split_on(replaced_char(left, '\\', '/'), '/');
    let b = split_on(replaced_char(right, '\\', '/'), '/');
    shared_prefix_is_shared(a, b);
}

proof fn shared_prefix_is_shared(a: Seq<Seq<char>>, b: Seq<Seq<char>>)
    ensures
        ({
            let n = shared_prefix(a, b);
            &&& 0 <= n <= a.len()
            &&& n <= b.len()
            &&& forall|k: int| 0 <= k < n ==> #[trigger] a[k] == b[k]
            &&& n < a.len() && n < b.len() ==> a[n] != b[n]
        }),
    decreases a.len(),
{
    if a.len() > 0 && b.len() > 0 && a[0] == b[0] {
        shared_prefix_is_shared(a.skip(1), b.skip(1));
        let n = shared_prefix(a.skip(1), b.skip(1));
        assert forall|k: int| 0 <= k < n + 1 implies #[trigger] a[k] == b[k] by {
            if k > 0 {
                assert(a.skip(1)[k - 1] == b.skip(1)[k - 1]);
            }
        }
    }
}

// ---------------------------------------------------------------------------
// Lookups

/// Whether a file carries a name: its own name is the last segment of it, and where the name has
/// slashes, its path ends with all of it, at a slash.
pub open spec fn carries(path: Seq<char>, wanted: Seq<char>) -> bool {
    key_of(path) matches Some((key, key_path)) && key == after_last_slash(wanted) && (
    wanted.contains('/') ==> key_path == wanted || exists|above: Seq<char>|
        key_path == #[trigger] above.push('/') + wanted)
}

proof fn a_boundary_is_a_slash(path: Seq<char>, suffix: Seq<char>)
    ensures
        ends_on_boundary(path, suffix) <==> path == suffix || exists|above: Seq<char>|
            path == #[trigger] above.push('/') + suffix,
{
    if path != suffix && ends_on_boundary(path, suffix) {
        let above = path.take(path.len() - suffix.len() - 1);
        assert(path =~= above.push('/') + suffix) by {
            assert(path.subrange(path.len() - suffix.len(), path.len() as int) == suffix);
            assert forall|k: int| 0 <= k < path.len() implies path[k] == (above.push('/')
                + suffix)[k] by {
                if k >= path.len() - suffix.len() {
                    assert(path.subrange(path.len() - suffix.len(), path.len() as int)[k - (
                    path.len() - suffix.len())] == path[k]);
                }
            }
        }
        assert(path == above.push('/') + suffix);
    }
    if exists|above: Seq<char>| path == #[trigger] above.push('/') + suffix {
        let above = choose|above: Seq<char>| path == #[trigger] above.push('/') + suffix;
        assert(path[above.len() as int] == '/');
        assert(path.subrange(above.len() as int + 1, path.len() as int) =~= suffix);
    }
}

proof fn candidates_of_a_prefix(
    entries: Seq<EntryModel>,
    last: EntryModel,
    wanted: Seq<char>,
    requiring: Seq<char>,
    n: int,
)
    requires
        0 <= n <= entries.len(),
    ensures
        candidates(entries.push(last), wanted, requiring, n) == candidates(
            entries,
            wanted,
            requiring,
            n,
        ),
    decreases n,
{
    if n > 0 {
        candidates_of_a_prefix(entries, last, wanted, requiring, n - 1);
    }
}

/// Whether what is found is what stands at some of the first `n` positions of a list.
spec fn found_at(found: Seq<Seq<char>>, all: Seq<Seq<char>>, at: Seq<int>, n: int) -> bool {
    &&& found.len() == at.len()
    &&& forall|k: int|
        0 <= k < at.len() ==> 0 <= #[trigger] at[k] < n && found[k] == all[at[k]]
}

/// Where the files stand that carry a name and are not the one that asks.
proof fn the_files_that_carry_it(
    paths: Seq<Seq<char>>,
    wanted: Seq<char>,
    requiring: Seq<char>,
    n: int,
) -> (at: Seq<int>)
    requires
        0 <= n <= paths.len(),
    ensures
        rises(at),
        forall|i: int|
            #[trigger] at.contains(i) <==> 0 <= i < n && carries(paths[i], wanted) && paths[i]
                != requiring,
        found_at(
            candidates(entries_of(paths, n), wanted, requiring, entries_of(paths, n).len() as int),
            paths,
            at,
            n,
        ),
    decreases n,
{
    if n == 0 {
        Seq::empty()
    } else {
        let had = the_files_that_carry_it(paths, wanted, requiring, n - 1);
        let before = entries_of(paths, n - 1);
        let earlier = candidates(before, wanted, requiring, before.len() as int);
        let entries = entries_of(paths, n);
        let found = candidates(entries, wanted, requiring, entries.len() as int);
        let path = paths[n - 1];
        match key_of(path) {
            Some((key, key_path)) => {
                let entry = EntryModel { relative_path: path, key, key_path };
                candidates_of_a_prefix(before, entry, wanted, requiring, before.len() as int);
                a_boundary_is_a_slash(key_path, wanted);
                assert(entries == before.push(entry));
                if carries(path, wanted) && path != requiring {
                    one_more_is_picked(had, n - 1);
                    assert(found == earlier.push(path));
                    had.push(n - 1)
                } else {
                    assert(found == earlier);
                    had
                }
            },
            None => {
                assert(entries == before);
                had
            },
        }
    }
}

proof fn the_nearest_of_them(
    names: Seq<(Seq<char>, Seq<char>)>,
    found: Seq<Seq<char>>,
    requiring: Seq<char>,
    top: int,
    n: int,
) -> (at: Seq<int>)
    requires
        0 <= n <= found.len(),
    ensures
        rises(at),
        forall|i: int|
            #[trigger] at.contains(i) <==> 0 <= i < n && score(names, found[i], requiring) == top,
        found_at(scoring(names, found, requiring, top, n), found, at, n),
    decreases n,
{
    if n == 0 {
        Seq::empty()
    } else {
        let had = the_nearest_of_them(names, found, requiring, top, n - 1);
        if score(names, found[n - 1], requiring) == top {
            one_more_is_picked(had, n - 1);
            had.push(n - 1)
        } else {
            had
        }
    }
}

/// Whether a file can be meant by a name where another asks.
pub open spec fn can_be_meant(
    paths: Seq<Seq<char>>,
    name: Seq<char>,
    requiring: Seq<char>,
    i: int,
) -> bool {
    0 <= i < paths.len() && carries(paths[i], needle_of(name)) && paths[i] != requiring
}

/// A name finds the file that can be meant by it and is nearer than every other that can; where none can
/// be meant, or the name is empty, it finds nothing; and where no single one is nearest, all that are
/// nearest are told, in order.
pub proof fn a_name_finds_the_nearest_file_that_carries_it(
    nodes: Seq<NodeModel>,
    paths: Seq<Seq<char>>,
    name: Seq<char>,
    requiring: Seq<char>,
)
    ensures
        ({
            let names = names_of(nodes, paths);
            match resolution(
                entries_of(paths, paths.len() as int),
                names,
                name,
                requiring,
            ) {
                ResolutionModel::Found(path) => exists|i: int|
                    {
                        &&& #[trigger] can_be_meant(paths, name, requiring, i)
                        &&& paths[i] == path
                        &&& name.len() > 0
                        &&& forall|j: int|
                            #[trigger] can_be_meant(paths, name, requiring, j) && j != i ==> score(
                                names,
                                paths[j],
                                requiring,
                            ) < score(names, paths[i], requiring)
                    },
                ResolutionModel::NotFound => name.len() == 0 || forall|i: int|
                    !#[trigger] can_be_meant(paths, name, requiring, i),
                ResolutionModel::Ambiguous(told) => exists|i: int, j: int|
                    {
                        &&& i < j
                        &&& #[trigger] is_nearest(names, paths, name, requiring, i)
                        &&& #[trigger] is_nearest(names, paths, name, requiring, j)
                        &&& texts_in_order(told)
                        &&& forall|k: int|
                            #[trigger] is_nearest(names, paths, name, requiring, k)
                                ==> told.contains(paths[k])
                    },
            }
        }),
{
    let names = names_of(nodes, paths);
    let entries = entries_of(paths, paths.len() as int);
    let wanted = needle_of(name);
    let found = candidates(entries, wanted, requiring, entries.len() as int);
    let at = the_files_that_carry_it(paths, wanted, requiring, paths.len() as int);
    assert forall|i: int| #[trigger] can_be_meant(paths, name, requiring, i) <==> at.contains(i) by {}
    if name.len() > 0 && found.len() > 0 {
        let n = found.len() as int;
        top_score_is_top(names, found, requiring, n);
        let top = top_score(names, found, requiring, n);
        let best = the_nearest_of_them(names, found, requiring, top, n);
        let p = choose|p: int| 0 <= p < n && score(names, #[trigger] found[p], requiring) == top;
        assert(best.contains(p));
        if n == 1 {
            assert(at.contains(at[0]));
            assert(found[0] == paths[at[0]]);
            assert forall|j: int| #[trigger] can_be_meant(paths, name, requiring, j) && j
                != at[0] implies false by {
                assert(at.contains(j));
            }
            assert(can_be_meant(paths, name, requiring, at[0]));
        } else if best.len() == 1 {
            let b = best[0];
            assert(best.contains(b));
            assert(at.contains(at[b]));
            assert(found[b] == paths[at[b]]);
            assert(nearest(names, found, requiring)[0] == found[b]);
            assert forall|j: int| #[trigger] can_be_meant(paths, name, requiring, j) && j
                != at[b] implies score(names, paths[j], requiring) < score(
                names,
                paths[at[b]],
                requiring,
            ) by {
                assert(at.contains(j));
                let m = choose|m: int| 0 <= m < at.len() && at[m] == j;
                assert(found[m] == paths[j]);
                assert(score(names, found[m], requiring) <= top);
                if score(names, found[m], requiring) == top {
                    assert(best.contains(m));
                }
            }
            assert(can_be_meant(paths, name, requiring, at[b]));
        } else {
            let tied = nearest(names, found, requiring);
            assert(best.len() == tied.len());
            assert(best.len() > 0) by {
                assert(best.contains(p));
            }
            assert(best[0] < best[1]);
            assert(0 <= best[0] < n && 0 <= best[1] < n) by {
                assert(tied[0] == found[best[0]]);
                assert(tied[1] == found[best[1]]);
            }
            assert forall|k: int| 0 <= k < best.len() implies is_nearest(
                names,
                paths,
                name,
                requiring,
                at[#[trigger] best[k]],
            ) by {
                let b = best[k];
                assert(best.contains(b));
                assert(at.contains(at[b]));
                assert(found[b] == paths[at[b]]);
                assert forall|j: int| #[trigger] can_be_meant(
                    paths,
                    name,
                    requiring,
                    j,
                ) implies score(names, paths[j], requiring) <= score(
                    names,
                    paths[at[b]],
                    requiring,
                ) by {
                    assert(at.contains(j));
                    let m = choose|m: int| 0 <= m < at.len() && at[m] == j;
                    assert(found[m] == paths[j]);
                }
                assert(can_be_meant(paths, name, requiring, at[b]));
            }
            assert(is_nearest(names, paths, name, requiring, at[best[0]]));
            assert(is_nearest(names, paths, name, requiring, at[best[1]]));
            sorting_orders_the_same_texts(tied);
            let told = sorted_texts(tied);
            assert forall|k: int| #[trigger] is_nearest(
                names,
                paths,
                name,
                requiring,
                k,
            ) implies told.contains(paths[k]) by {
                assert(at.contains(k));
                let m = choose|m: int| 0 <= m < at.len() && at[m] == k;
                assert(found[m] == paths[k]);
                let b = best[0];
                assert(can_be_meant(paths, name, requiring, at[b]));
                assert(found[b] == paths[at[b]]);
                assert(best.contains(b));
                assert(score(names, found[m], requiring) == top);
                assert(best.contains(m));
                let q = choose|q: int| 0 <= q < best.len() && best[q] == m;
                assert(tied[q] == paths[k]);
                held_through_sorting(tied, told, q);
            }
        }
    } else if found.len() == 0 {
        assert forall|i: int| !#[trigger] can_be_meant(paths, name, requiring, i) by {
            assert(!at.contains(i));
        }
    }
}

proof fn held_through_sorting(tied: Seq<Seq<char>>, told: Seq<Seq<char>>, q: int)
    requires
        0 <= q < tied.len(),
        told.to_multiset() == tied.to_multiset(),
    ensures
        told.contains(tied[q]),
{
    broadcast use vstd::seq_lib::group_to_multiset_ensures;

    assert(tied.contains(tied[q]));
    assert(tied.to_multiset().count(tied[q]) > 0);
    assert(told.to_multiset().count(tied[q]) > 0);
}

/// Whether a file can be meant and no other that can is nearer.
pub open spec fn is_nearest(
    names: Seq<(Seq<char>, Seq<char>)>,
    paths: Seq<Seq<char>>,
    name: Seq<char>,
    requiring: Seq<char>,
    i: int,
) -> bool {
    can_be_meant(paths, name, requiring, i) && forall|j: int|
        #[trigger] can_be_meant(paths, name, requiring, j) ==> score(names, paths[j], requiring)
            <= score(names, paths[i], requiring)
}

// ---------------------------------------------------------------------------
// Names that are scored

proof fn a_lineage_spells_the_path(nodes: Seq<NodeModel>, i: int)
    requires
        tree_wf(nodes),
        0 <= i < nodes.len(),
    ensures
        lineage(nodes, i).len() > 0,
        joined(lineage(nodes, i), "."@) == nodes[i].instance_path,
    decreases i,
{
    assert(node_wf(nodes, i));
    if let Some(p) = nodes[i].parent {
        a_lineage_spells_the_path(nodes, p);
        let names = lineage(nodes, i);
        assert(names.drop_last() =~= lineage(nodes, p));
        assert(names.last() == nodes[i].name);
    }
}

/// A file that an instance is built from is scored by the names of that instance and of those it stands
/// in, from the root down: they spell its path, with slashes between them. Any other file is scored by its
/// own path.
pub proof fn a_file_is_scored_by_its_instance(
    nodes: Seq<NodeModel>,
    paths: Seq<Seq<char>>,
    path: Seq<char>,
)
    requires
        tree_wf(nodes),
    ensures
        !paths.contains(path) ==> scored_name(names_of(nodes, paths), path) == path,
        paths.contains(path) && nodes_of_file(nodes, path).len() == 0 ==> scored_name(
            names_of(nodes, paths),
            path,
        ) == path,
        paths.contains(path) && nodes_of_file(nodes, path).len() > 0 ==> exists|
            names: Seq<Seq<char>>,
        |
            {
                &&& #[trigger] joined(names, "/"@) == scored_name(names_of(nodes, paths), path)
                &&& joined(names, "."@) == nodes[nodes_of_file(nodes, path)[0]].instance_path
                &&& names.len() > 0
                &&& nodes[nodes_of_file(nodes, path)[0]].parent is Some ==> names.last()
                    == nodes[nodes_of_file(nodes, path)[0]].name
            },
{
    let names = names_of(nodes, paths);
    a_bound_name_is_its_own(nodes, paths, path, paths.len() as int);
    if paths.contains(path) && nodes_of_file(nodes, path).len() > 0 {
        let i = nodes_of_file(nodes, path)[0];
        files_lead_back_to_their_instances(nodes, path);
        assert(nodes_of_file(nodes, path).contains(i));
        a_lineage_spells_the_path(nodes, i);
        assert(node_wf(nodes, i));
        assert(joined(lineage(nodes, i), "/"@) == scored_name(names, path));
    }
}

proof fn a_bound_name_is_its_own(
    nodes: Seq<NodeModel>,
    paths: Seq<Seq<char>>,
    path: Seq<char>,
    n: int,
)
    requires
        0 <= n <= paths.len(),
        forall|k: int| n <= k < paths.len() ==> #[trigger] paths[k] != path,
    ensures
        bound_to(names_of(nodes, paths), path, n) == if paths.contains(path) {
            Some(module_name_of(nodes, path))
        } else {
            None
        },
    decreases n,
{
    if n > 0 {
        let names = names_of(nodes, paths);
        assert(names[n - 1] == (paths[n - 1], module_name_of(nodes, paths[n - 1])));
        if paths[n - 1] == path {
            assert(paths.contains(path));
        } else {
            a_bound_name_is_its_own(nodes, paths, path, n - 1);
        }
    }
}

} // verus!
