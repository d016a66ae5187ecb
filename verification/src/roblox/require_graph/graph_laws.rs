//! What holds of every answer about the graph.
use vstd::prelude::*;
use vstd::set_lib::{lemma_int_range, lemma_len_subset, set_int_range};
use super::Direction;
use super::building::{
    built_graph, built_graph_is_wf, dependents_are_edges_read_backwards, BuildModel,
};
use super::graph::{
    all_reported, answered_walk, edge_to, expand, follow_all, graph_answer, graph_wf, hop_back,
    hops_from, limited_pairs, module_at, module_found, pairs_of_graph, reported, walk_from,
    walk_on, EdgeModel, Hop, ModuleModel, ReachedModel, Route, WalkState,
};
use super::walk_laws::{
    a_smaller_limit_cuts_the_end, distance_is, linked, reaches, routed, sourced,
    walk_keeps_to_its_limit, walk_reports_shallowest_routes, within,
};
use crate::roblox::sourcemap::{normalized, ReferenceModel};

verus! {

/// Whether a module has a require of another.
pub open spec fn requires_module(g: Seq<ModuleModel>, from: int, to: int) -> bool {
    exists|e: int|
        0 <= e < g[from].dependencies.len() && (#[trigger] g[from].dependencies[e]).target == to
}

/// Whether a graph is closed and can be read from both ends: every require leads to one of its modules,
/// and the dependents of a module are the modules that require it, each once.
pub open spec fn is_two_way(g: Seq<ModuleModel>) -> bool {
    &&& graph_wf(g)
    &&& forall|t: int|
        0 <= t < g.len() ==> (#[trigger] g[t]).dependents.no_duplicates() && forall|i: int|
            g[t].dependents.contains(i) <==> 0 <= i < g.len() && #[trigger] requires_module(g, i, t)
}

proof fn an_edge_is_found(edges: Seq<EdgeModel>, target: int, from: int)
    requires
        0 <= from <= edges.len(),
    ensures
        match edge_to(edges, target, from) {
            Some(edge) => edge.target == target && edges.contains(edge),
            None => forall|e: int| from <= e < edges.len() ==> (#[trigger] edges[e]).target != target,
        },
    decreases edges.len() - from,
{
    if from < edges.len() && edges[from].target != target {
        an_edge_is_found(edges, target, from + 1);
    }
}

proof fn a_require_has_its_edge(g: Seq<ModuleModel>, from: int, to: int)
    ensures
        requires_module(g, from, to) <==> edge_to(g[from].dependencies, to, 0) is Some,
{
    an_edge_is_found(g[from].dependencies, to, 0);
    if let Some(edge) = edge_to(g[from].dependencies, to, 0) {
        let edges = g[from].dependencies;
        let e = choose|e: int| 0 <= e < edges.len() && edges[e] == edge;
        assert(g[from].dependencies[e].target == to);
    }
}

/// The graph that is built of a project can be read from both ends.
pub proof fn a_built_graph_is_two_way(b: BuildModel)
    ensures
        is_two_way(built_graph(b)),
{
    let g = built_graph(b);
    built_graph_is_wf(b);
    assert forall|t: int| 0 <= t < g.len() implies (#[trigger] g[t]).dependents.no_duplicates()
        && forall|i: int|
        g[t].dependents.contains(i) <==> 0 <= i < g.len() && #[trigger] requires_module(g, i, t) by {
        dependents_are_edges_read_backwards(b, t);
        assert forall|i: int| g[t].dependents.contains(i) <==> 0 <= i < g.len()
            && #[trigger] requires_module(g, i, t) by {
            a_require_has_its_edge(g, i, t);
        }
    }
}

/// A walk follows requires: towards the dependencies from a module to those it requires, towards the
/// dependents from a module to those that require it.
pub proof fn a_walk_follows_requires(g: Seq<ModuleModel>, from: int, to: int)
    requires
        is_two_way(g),
        0 <= from < g.len(),
    ensures
        linked(g, Direction::Dependencies, from, to) <==> requires_module(g, from, to),
        linked(g, Direction::Dependents, from, to) <==> 0 <= to < g.len() && requires_module(
            g,
            to,
            from,
        ),
{
    let ahead = hops_from(g, from, Direction::Dependencies);
    let back = hops_from(g, from, Direction::Dependents);
    if linked(g, Direction::Dependencies, from, to) {
        let h = choose|h: int| 0 <= h < ahead.len() && (#[trigger] ahead[h]).target == to;
        assert(g[from].dependencies[h].target == to);
    }
    if requires_module(g, from, to) {
        let e = choose|e: int|
            0 <= e < g[from].dependencies.len() && (#[trigger] g[from].dependencies[e]).target == to;
        assert(ahead[e].target == to);
    }
    assert forall|h: int| 0 <= h < back.len() implies (#[trigger] back[h]).target
        == g[from].dependents[h] by {
        assert(back[h] == hop_back(g, from, g[from].dependents[h]));
    }
    if linked(g, Direction::Dependents, from, to) {
        let h = choose|h: int| 0 <= h < back.len() && (#[trigger] back[h]).target == to;
        assert(g[from].dependents[h] == to);
        assert(g[from].dependents.contains(to));
    }
    if 0 <= to < g.len() && requires_module(g, to, from) {
        assert(g[from].dependents.contains(to));
        let h = choose|h: int| 0 <= h < g[from].dependents.len() && g[from].dependents[h] == to;
        assert(back[h].target == to);
    }
}

// ---------------------------------------------------------------------------
// A limit that is large enough leaves nothing out

spec fn all_inside(routes: Seq<Route>, n: int) -> bool {
    forall|i: int| 0 <= i < routes.len() ==> 0 <= (#[trigger] routes[i]).target < n
}

spec fn stays_inside(st: WalkState, n: int) -> bool {
    all_inside(st.routes, n) && forall|i: int|
        0 <= i < st.next.len() ==> 0 <= #[trigger] st.next[i] < n
}

proof fn follow_all_inside(
    st: WalkState,
    depth: int,
    from: int,
    hops: Seq<Hop>,
    limit: int,
    n: int,
)
    requires
        stays_inside(st, n),
        forall|h: int| 0 <= h < hops.len() ==> 0 <= (#[trigger] hops[h]).target < n,
    ensures
        stays_inside(follow_all(st, depth, from, hops, limit), n),
    decreases hops.len(),
{
    if hops.len() > 0 {
        let shorter = hops.drop_last();
        assert forall|h: int| 0 <= h < shorter.len() implies 0 <= (#[trigger] shorter[h]).target
            < n by {
            assert(shorter[h] == hops[h]);
        }
        follow_all_inside(st, depth, from, shorter, limit, n);
        assert(hops.last() == hops[hops.len() - 1]);
    }
}

proof fn hops_stay_inside(g: Seq<ModuleModel>, from: int, direction: Direction)
    requires
        graph_wf(g),
        0 <= from < g.len(),
    ensures
        forall|h: int|
            0 <= h < hops_from(g, from, direction).len() ==> 0 <= (#[trigger] hops_from(
                g,
                from,
                direction,
            )[h]).target < g.len(),
{
    let hops = hops_from(g, from, direction);
    assert forall|h: int| 0 <= h < hops.len() implies 0 <= (#[trigger] hops[h]).target < g.len() by {
        match direction {
            Direction::Dependencies => {
                assert(hops[h].target == g[from].dependencies[h].target);
            },
            Direction::Dependents => {
                assert(hops[h] == hop_back(g, from, g[from].dependents[h]));
                assert(hops[h].target == g[from].dependents[h]);
            },
        }
    }
}

proof fn expand_inside(
    g: Seq<ModuleModel>,
    direction: Direction,
    st: WalkState,
    depth: int,
    frontier: Seq<int>,
    limit: int,
)
    requires
        graph_wf(g),
        stays_inside(st, g.len() as int),
        forall|i: int| 0 <= i < frontier.len() ==> 0 <= #[trigger] frontier[i] < g.len(),
    ensures
        stays_inside(expand(g, direction, st, depth, frontier, limit), g.len() as int),
    decreases frontier.len(),
{
    if frontier.len() > 0 {
        let shorter = frontier.drop_last();
        assert forall|i: int| 0 <= i < shorter.len() implies 0 <= #[trigger] shorter[i]
            < g.len() by {
            assert(shorter[i] == frontier[i]);
        }
        expand_inside(g, direction, st, depth, shorter, limit);
        assert(frontier.last() == frontier[frontier.len() - 1]);
        let before = expand(g, direction, st, depth, shorter, limit);
        hops_stay_inside(g, frontier.last(), direction);
        follow_all_inside(
            before,
            depth,
            frontier.last(),
            hops_from(g, frontier.last(), direction),
            limit,
            g.len() as int,
        );
    }
}

proof fn walk_on_inside(
    g: Seq<ModuleModel>,
    direction: Direction,
    st: WalkState,
    depth: int,
    last: int,
    limit: int,
)
    requires
        graph_wf(g),
        stays_inside(st, g.len() as int),
    ensures
        stays_inside(walk_on(g, direction, st, depth, last, limit), g.len() as int),
    decreases last + 1 - depth,
{
    if depth <= last {
        let first = WalkState { next: Seq::empty(), ..st };
        expand_inside(g, direction, first, depth, st.next, limit);
        let after = expand(g, direction, first, depth, st.next, limit);
        if after.next.len() > 0 {
            walk_on_inside(g, direction, after, depth + 1, last, limit);
        }
    }
}

/// A walk that may report as many modules as there are leaves none out, and whatever it reports is a
/// module.
pub proof fn room_for_all_leaves_none_out(
    g: Seq<ModuleModel>,
    start: int,
    direction: Direction,
    depth: int,
    limit: int,
)
    requires
        graph_wf(g),
        0 <= start < g.len(),
        0 <= limit,
    ensures
        g.len() <= limit ==> !walk_from(g, start, direction, depth, limit).truncated,
        forall|i: int|
            0 <= i < walk_from(g, start, direction, depth, limit).routes.len() ==> 0 <= (
            #[trigger] walk_from(g, start, direction, depth, limit).routes[i]).target < g.len(),
{
    let st = WalkState {
        seen: set![start],
        routes: Seq::empty(),
        next: seq![start],
        truncated: false,
    };
    let last = if depth < 1 {
        1
    } else {
        depth
    };
    walk_on_inside(g, direction, st, 1, last, limit);
    walk_keeps_to_its_limit(g, start, direction, depth, limit);
    let routes = walk_from(g, start, direction, depth, limit).routes;
    let seen = Seq::new(routes.len(), |i: int| routes[i].target).push(start);
    assert(seen.no_duplicates()) by {
        assert forall|i: int, j: int| 0 <= i < seen.len() && 0 <= j < seen.len() && i != j implies seen[i]
            != seen[j] by {
            if i < routes.len() && j < routes.len() {
                if i < j {
                    assert(routes[i].target != routes[j].target);
                } else {
                    assert(routes[j].target != routes[i].target);
                }
            } else if i < routes.len() {
                assert(routes[i].target != start);
            } else {
                assert(routes[j].target != start);
            }
        }
    }
    seen.unique_seq_to_set();
    let all = set_int_range(0, g.len() as int);
    lemma_int_range(0, g.len() as int);
    assert(seen.to_set().subset_of(all)) by {
        assert forall|x: int| seen.to_set().contains(x) implies all.contains(x) by {
            let i = choose|i: int| 0 <= i < seen.len() && seen[i] == x;
            if i < routes.len() {
                assert(0 <= routes[i].target < g.len());
            }
        }
    }
    lemma_len_subset(seen.to_set(), all);
}

// ---------------------------------------------------------------------------
// Answers

/// Whether an entry of an answer tells a module that stands a number of requires away from another: the
/// module, how far it is, and a require on a shortest way to it, with the file that require is written in
/// where that is not the first of the way.
pub open spec fn tells_module(
    entry: ReachedModel,
    g: Seq<ModuleModel>,
    direction: Direction,
    start: int,
    t: int,
) -> bool {
    &&& entry.relative_path == g[t].relative_path
    &&& entry.instance_path == g[t].instance_path
    &&& entry.depth >= 1
    &&& distance_is(g, direction, start, t, entry.depth as int)
    &&& exists|from: int|
        {
            &&& #[trigger] distance_is(g, direction, start, from, entry.depth - 1)
            &&& entry.from == (if entry.depth > 1 {
                Some(g[from].relative_path)
            } else {
                None
            })
            &&& match direction {
                Direction::Dependencies => is_told_require(entry, g, from, t),
                Direction::Dependents => is_told_require(entry, g, t, from),
            }
        }
}

/// Whether an entry tells a require of one module in another.
pub open spec fn is_told_require(entry: ReachedModel, g: Seq<ModuleModel>, owner: int, to: int) -> bool {
    exists|e: int|
        {
            &&& 0 <= e < g[owner].dependencies.len()
            &&& (#[trigger] g[owner].dependencies[e]).target == to
            &&& entry.line == Some(g[owner].dependencies[e].line)
            &&& entry.via == Some(g[owner].dependencies[e].expression)
        }
}

/// Whether entries tell exactly the modules within a number of requires of another, that one apart, each
/// once.
pub open spec fn report_all(
    entries: Seq<ReachedModel>,
    g: Seq<ModuleModel>,
    direction: Direction,
    start: int,
    depth: int,
) -> bool {
    exists|modules: Seq<int>| #[trigger] reports(entries, modules, g, direction, start, depth)
}

/// Whether entries tell the modules listed, and these are exactly those within a number of requires of
/// another.
pub open spec fn reports(
    entries: Seq<ReachedModel>,
    modules: Seq<int>,
    g: Seq<ModuleModel>,
    direction: Direction,
    start: int,
    depth: int,
) -> bool {
    &&& modules.len() == entries.len()
    &&& modules.no_duplicates()
    &&& forall|k: int|
        0 <= k < modules.len() ==> tells_module(
            entries[k],
            g,
            direction,
            start,
            #[trigger] modules[k],
        )
    &&& forall|t: int|
        #[trigger] modules.contains(t) <==> t != start && within(g, direction, start, t, depth)
}

proof fn a_way_stays_among_modules(
    g: Seq<ModuleModel>,
    direction: Direction,
    start: int,
    t: int,
    n: int,
)
    requires
        graph_wf(g),
        0 <= start < g.len(),
        reaches(g, direction, start, t, n),
    ensures
        0 <= t < g.len(),
    decreases n,
{
    if n > 0 {
        let mid = choose|mid: int|
            reaches(g, direction, start, mid, n - 1) && #[trigger] linked(g, direction, mid, t);
        a_way_stays_among_modules(g, direction, start, mid, n - 1);
        hops_stay_inside(g, mid, direction);
    }
}

proof fn a_route_tells_its_module(
    g: Seq<ModuleModel>,
    direction: Direction,
    start: int,
    route: Route,
)
    requires
        is_two_way(g),
        0 <= start < g.len(),
        1 <= route.depth <= u32::MAX,
        distance_is(g, direction, start, route.target, route.depth),
        distance_is(g, direction, start, route.from, route.depth - 1),
        sourced(g, direction, route),
    ensures
        tells_module(reported(g, route), g, direction, start, route.target),
{
    let entry = reported(g, route);
    let hops = hops_from(g, route.from, direction);
    a_way_stays_among_modules(g, direction, start, route.from, route.depth - 1);
    a_way_stays_among_modules(g, direction, start, route.target, route.depth);
    let h = choose|h: int| 0 <= h < hops.len() && hops[h] == route.hop;
    match direction {
        Direction::Dependencies => {
            let edge = g[route.from].dependencies[h];
            assert(edge.target == route.target);
            assert(is_told_require(entry, g, route.from, route.target));
        },
        Direction::Dependents => {
            assert(hops[h] == hop_back(g, route.from, g[route.from].dependents[h]));
            assert(g[route.from].dependents.contains(route.target)) by {
                assert(g[route.from].dependents[h] == route.target);
            }
            a_require_has_its_edge(g, route.target, route.from);
            let edges = g[route.target].dependencies;
            an_edge_is_found(edges, route.from, 0);
            let edge = edge_to(edges, route.from, 0)->0;
            let e = choose|e: int| 0 <= e < edges.len() && edges[e] == edge;
            assert(g[route.target].dependencies[e].target == route.from);
            assert(is_told_require(entry, g, route.target, route.from));
        },
    }
    assert(distance_is(g, direction, start, route.from, entry.depth - 1));
}

/// What a walk that leaves nothing out reports, told module by module. With room for every module, none
/// is left out.
pub proof fn a_walk_reports_the_modules_in_reach(
    g: Seq<ModuleModel>,
    start: int,
    direction: Direction,
    depth: int,
    limit: int,
)
    requires
        is_two_way(g),
        0 <= start < g.len(),
        0 <= limit,
        g.len() <= limit || !walk_from(g, start, direction, depth, limit).truncated,
        1 <= depth <= u32::MAX,
    ensures
        report_all(
            all_reported(g, walk_from(g, start, direction, depth, limit).routes),
            g,
            direction,
            start,
            depth,
        ),
{
    room_for_all_leaves_none_out(g, start, direction, depth, limit);
    walk_reports_shallowest_routes(g, start, direction, depth, limit);
    let routes = walk_from(g, start, direction, depth, limit).routes;
    let entries = all_reported(g, routes);
    let modules = Seq::new(routes.len(), |k: int| routes[k].target);
    assert(modules.no_duplicates()) by {
        assert forall|i: int, j: int|
            0 <= i < modules.len() && 0 <= j < modules.len() && i != j implies modules[i]
            != modules[j] by {
            if i < j {
                assert(routes[i].target != routes[j].target);
            } else {
                assert(routes[j].target != routes[i].target);
            }
        }
    }
    assert forall|k: int| 0 <= k < modules.len() implies tells_module(
        entries[k],
        g,
        direction,
        start,
        #[trigger] modules[k],
    ) by {
        let route = routes[k];
        a_route_tells_its_module(g, direction, start, route);
        assert(entries[k] == reported(g, route));
    }
    assert forall|t: int| #[trigger] modules.contains(t) <==> t != start && within(
        g,
        direction,
        start,
        t,
        depth,
    ) by {
        assert(routed(routes, 0, t) <==> t != start && within(g, direction, start, t, depth));
        if modules.contains(t) {
            let k = choose|k: int| 0 <= k < modules.len() && modules[k] == t;
            assert(routes[k].target == t);
        }
        if routed(routes, 0, t) {
            let k = choose|k: int| 0 <= k < routes.len() && (#[trigger] routes[k]).target == t;
            assert(modules[k] == t);
        }
    }
    assert(reports(entries, modules, g, direction, start, depth));
}

/// A path names the last module that has it, however its slashes are written, and no module where none
/// has it.
pub proof fn a_path_names_its_module(g: Seq<ModuleModel>, path: Seq<char>, n: int)
    requires
        0 <= n <= g.len(),
        forall|j: int| n <= j < g.len() ==> (#[trigger] g[j]).relative_path != normalized(path),
    ensures
        module_found(g, path) == module_at(g, normalized(path), n),
        match module_found(g, path) {
            Some(t) => {
                &&& 0 <= t < g.len()
                &&& g[t].relative_path == normalized(path)
                &&& forall|j: int|
                    t < j < g.len() ==> (#[trigger] g[j]).relative_path != normalized(path)
            },
            None => forall|j: int|
                0 <= j < g.len() ==> (#[trigger] g[j]).relative_path != normalized(path),
        },
    decreases n, g.len() - n,
{
    the_last_of_a_path(g, normalized(path), g.len() as int);
    none_is_past(g, normalized(path), n, g.len() as int);
}

proof fn none_is_past(g: Seq<ModuleModel>, path: Seq<char>, n: int, m: int)
    requires
        0 <= n <= m <= g.len(),
        forall|j: int| n <= j < g.len() ==> (#[trigger] g[j]).relative_path != path,
    ensures
        module_at(g, path, m) == module_at(g, path, n),
    decreases m,
{
    if n < m {
        none_is_past(g, path, n, m - 1);
    }
}

proof fn the_last_of_a_path(g: Seq<ModuleModel>, path: Seq<char>, n: int)
    requires
        0 <= n <= g.len(),
        forall|j: int| n <= j < g.len() ==> (#[trigger] g[j]).relative_path != path,
    ensures
        match module_at(g, path, n) {
            Some(t) => {
                &&& 0 <= t < g.len()
                &&& g[t].relative_path == path
                &&& forall|j: int| t < j < g.len() ==> (#[trigger] g[j]).relative_path != path
            },
            None => forall|j: int| 0 <= j < g.len() ==> (#[trigger] g[j]).relative_path != path,
        },
    decreases n,
{
    if n > 0 && g[n - 1].relative_path != path {
        the_last_of_a_path(g, path, n - 1);
    }
}

/// A question about a file of the graph is answered with that module: in each direction that is asked
/// for, and in no other, the modules within as many requires as asked; with its own unresolved requires
/// where they are asked for. A question about any other file is refused. Where there is room for every
/// module, nothing is left out; where there is not, the ends of the lists are cut off.
pub proof fn a_question_about_a_file_is_answered(
    g: Seq<ModuleModel>,
    path: Seq<char>,
    asked: Seq<Direction>,
    depth: int,
    with_cycles: bool,
    with_unresolved: bool,
    limit: int,
    sourcemap: ReferenceModel,
)
    requires
        is_two_way(g),
        1 <= depth <= u32::MAX,
        0 <= limit,
    ensures
        match graph_answer(
            g,
            Some(path),
            asked,
            depth,
            with_cycles,
            with_unresolved,
            limit,
            sourcemap,
        ) {
            Ok(answer) => exists|t: int|
                {
                    &&& 0 <= t < g.len()
                    &&& (#[trigger] g[t]).relative_path == normalized(path)
                    &&& answer.relative_path == Some(g[t].relative_path)
                    &&& answer.instance_path == g[t].instance_path
                    &&& answer.modules_scanned == g.len()
                    &&& is_walk_answer(
                        answer.dependencies,
                        g,
                        t,
                        asked,
                        Direction::Dependencies,
                        depth,
                        limit,
                    )
                    &&& is_walk_answer(
                        answer.dependents,
                        g,
                        t,
                        asked,
                        Direction::Dependents,
                        depth,
                        limit,
                    )
                    &&& answer.cycles is Some <==> with_cycles
                    &&& answer.sourcemap == sourcemap
                    &&& !answer.truncated ==> {
                        &&& answer.dependencies matches Some(all) ==> report_all(
                            all,
                            g,
                            Direction::Dependencies,
                            t,
                            depth,
                        )
                        &&& answer.dependents matches Some(all) ==> report_all(
                            all,
                            g,
                            Direction::Dependents,
                            t,
                            depth,
                        )
                    }
                    &&& answer.truncated && !with_cycles ==> (answer.dependencies matches Some(all)
                        && all.len() == limit) || (answer.dependents matches Some(all) && all.len()
                        == limit)
                    &&& answer.unresolved.len() == (if with_unresolved {
                        g[t].unresolved.len()
                    } else {
                        0
                    })
                    &&& forall|k: int|
                        0 <= k < answer.unresolved.len() ==> {
                            let entry = #[trigger] answer.unresolved[k];
                            &&& entry.relative_path == g[t].relative_path
                            &&& entry.line == g[t].unresolved[k].line
                            &&& entry.expression == g[t].unresolved[k].expression
                            &&& entry.reason == g[t].unresolved[k].reason
                        }
                },
            Err(_) => forall|j: int|
                0 <= j < g.len() ==> (#[trigger] g[j]).relative_path != normalized(path),
        },
{
    a_path_names_its_module(g, path, g.len() as int);
    if let Some(t) = module_found(g, path) {
        a_walk_is_answered(g, t, asked, Direction::Dependencies, depth, limit);
        a_walk_is_answered(g, t, asked, Direction::Dependents, depth, limit);
        if !walk_from(g, t, Direction::Dependencies, depth, limit).truncated {
            a_walk_reports_the_modules_in_reach(g, t, Direction::Dependencies, depth, limit);
        }
        if !walk_from(g, t, Direction::Dependents, depth, limit).truncated {
            a_walk_reports_the_modules_in_reach(g, t, Direction::Dependents, depth, limit);
        }
        walk_keeps_to_its_limit(g, t, Direction::Dependencies, depth, limit);
        walk_keeps_to_its_limit(g, t, Direction::Dependents, depth, limit);
        assert(g[t].relative_path == normalized(path));
    }
}

/// Whether a list answers a walk in one direction: there is one exactly where the direction is asked for,
/// and it is what a list of the modules in reach begins with, as far as there is room.
pub open spec fn is_walk_answer(
    answer: Option<Seq<ReachedModel>>,
    g: Seq<ModuleModel>,
    start: int,
    asked: Seq<Direction>,
    direction: Direction,
    depth: int,
    limit: int,
) -> bool {
    match answer {
        Some(entries) => asked.contains(direction) && is_cut_report(
            entries,
            g,
            direction,
            start,
            depth,
            limit,
        ),
        None => !asked.contains(direction),
    }
}

/// Whether entries are the first of a list that tells exactly the modules in reach: all of it, or as many
/// as there is room for.
pub open spec fn is_cut_report(
    entries: Seq<ReachedModel>,
    g: Seq<ModuleModel>,
    direction: Direction,
    start: int,
    depth: int,
    limit: int,
) -> bool {
    exists|all: Seq<ReachedModel>|
        {
            &&& #[trigger] report_all(all, g, direction, start, depth)
            &&& entries == if all.len() <= limit {
                all
            } else {
                all.take(limit)
            }
        }
}

pub proof fn a_cut_walk_reports_what_comes_first(
    g: Seq<ModuleModel>,
    start: int,
    direction: Direction,
    depth: int,
    limit: int,
)
    requires
        is_two_way(g),
        0 <= start < g.len(),
        1 <= depth <= u32::MAX,
        0 <= limit,
    ensures
        is_cut_report(
            all_reported(g, walk_from(g, start, direction, depth, limit).routes),
            g,
            direction,
            start,
            depth,
            limit,
        ),
{
    let more = if limit < g.len() {
        g.len() as int
    } else {
        limit
    };
    a_walk_reports_the_modules_in_reach(g, start, direction, depth, more);
    a_smaller_limit_cuts_the_end(g, start, direction, depth, limit, more);
    let few = walk_from(g, start, direction, depth, limit).routes;
    let many = walk_from(g, start, direction, depth, more).routes;
    let all = all_reported(g, many);
    let entries = all_reported(g, few);
    if many.len() > limit {
        assert(entries =~= all.take(limit));
    }
    assert(report_all(all, g, direction, start, depth));
}

proof fn a_walk_is_answered(
    g: Seq<ModuleModel>,
    start: int,
    asked: Seq<Direction>,
    direction: Direction,
    depth: int,
    limit: int,
)
    requires
        is_two_way(g),
        0 <= start < g.len(),
        1 <= depth <= u32::MAX,
        0 <= limit,
    ensures
        is_walk_answer(
            answered_walk(g, start, asked, direction, depth, limit),
            g,
            start,
            asked,
            direction,
            depth,
            limit,
        ),
{
    a_cut_walk_reports_what_comes_first(g, start, direction, depth, limit);
}

/// The position in the project's list of unresolved requires of the `k`th of module `i`.
pub open spec fn unresolved_before(g: Seq<ModuleModel>, i: int) -> int
    decreases i,
{
    if i <= 0 {
        0
    } else {
        unresolved_before(g, i - 1) + g[i - 1].unresolved.len()
    }
}

proof fn pairs_stand_in_order(g: Seq<ModuleModel>, n: int, i: int, k: int)
    requires
        0 <= i < n <= g.len(),
        0 <= k < g[i].unresolved.len(),
    ensures
        pairs_of_graph(g, n).len() == unresolved_before(g, n),
        0 <= unresolved_before(g, i),
        unresolved_before(g, i) + k < unresolved_before(g, n),
        pairs_of_graph(g, n)[unresolved_before(g, i) + k] == (
            g[i].relative_path,
            g[i].unresolved[k],
        ),
    decreases n,
{
    pairs_are_counted(g, n);
    pairs_are_counted(g, n - 1);
    pairs_are_counted(g, i);
    if i < n - 1 {
        pairs_stand_in_order(g, n - 1, i, k);
    }
}

proof fn pairs_are_counted(g: Seq<ModuleModel>, n: int)
    requires
        n <= g.len(),
    ensures
        pairs_of_graph(g, n).len() == unresolved_before(g, n),
        unresolved_before(g, n) >= 0,
    decreases n,
{
    if n > 0 {
        pairs_are_counted(g, n - 1);
    }
}

/// A question about the project is answered with no module at its centre: how many modules there are, and
/// every unresolved require of every module in the order of the modules, as far as there is room.
pub proof fn a_question_about_the_project_is_answered(
    g: Seq<ModuleModel>,
    asked: Seq<Direction>,
    depth: int,
    with_cycles: bool,
    with_unresolved: bool,
    limit: int,
    sourcemap: ReferenceModel,
    i: int,
    k: int,
)
    requires
        0 <= i < g.len(),
        0 <= k < g[i].unresolved.len(),
        0 <= limit,
    ensures
        graph_answer(g, None, asked, depth, with_cycles, with_unresolved, limit, sourcemap)
            matches Ok(answer) && {
            let at = unresolved_before(g, i) + k;
            &&& answer.relative_path is None
            &&& answer.instance_path is None
            &&& answer.dependencies is None
            &&& answer.dependents is None
            &&& answer.modules_scanned == g.len()
            &&& answer.cycles is Some <==> with_cycles
            &&& answer.sourcemap == sourcemap
            &&& with_unresolved && at < limit ==> {
                &&& at < answer.unresolved.len()
                &&& answer.unresolved[at].relative_path == g[i].relative_path
                &&& answer.unresolved[at].line == g[i].unresolved[k].line
                &&& answer.unresolved[at].expression == g[i].unresolved[k].expression
                &&& answer.unresolved[at].reason == g[i].unresolved[k].reason
            }
            &&& answer.unresolved.len() <= limit
            &&& !with_unresolved ==> answer.unresolved.len() == 0
        },
{
    pairs_stand_in_order(g, g.len() as int, i, k);
    let pairs = limited_pairs(g, limit);
    let at = unresolved_before(g, i) + k;
    if at < limit {
        assert(pairs[at] == pairs_of_graph(g, g.len() as int)[at]);
    }
}

} // verus!
