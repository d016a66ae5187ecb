//! What holds of every walk.
use vstd::prelude::*;
use super::graph::{
    edge_to, expand, follow, follow_all, hops_from, walk_from, walk_on, EdgeModel, Hop, ModuleModel,
    Route, WalkState,
};
use super::Direction;

verus! {

/// Whether some edge leads from one module to another in the direction given.
pub open spec fn linked(g: Seq<ModuleModel>, direction: Direction, from: int, to: int) -> bool {
    exists|h: int|
        0 <= h < hops_from(g, from, direction).len() && (#[trigger] hops_from(
            g,
            from,
            direction,
        )[h]).target == to
}

/// Whether exactly `n` edges lead from `start` to `to`, one after another.
pub open spec fn reaches(
    g: Seq<ModuleModel>,
    direction: Direction,
    start: int,
    to: int,
    n: int,
) -> bool
    decreases n,
{
    if n <= 0 {
        n == 0 && to == start
    } else {
        exists|mid: int|
            reaches(g, direction, start, mid, n - 1) && #[trigger] linked(g, direction, mid, to)
    }
}

/// Whether at most `n` edges lead from `start` to `to`.
pub open spec fn within(
    g: Seq<ModuleModel>,
    direction: Direction,
    start: int,
    to: int,
    n: int,
) -> bool {
    exists|k: int| 0 <= k <= n && #[trigger] reaches(g, direction, start, to, k)
}

/// Whether the shortest way from `start` to `to` has `n` edges.
pub open spec fn distance_is(
    g: Seq<ModuleModel>,
    direction: Direction,
    start: int,
    to: int,
    n: int,
) -> bool {
    reaches(g, direction, start, to, n) && !within(g, direction, start, to, n - 1)
}

spec fn targets(hops: Seq<Hop>, t: int) -> bool {
    exists|h: int| 0 <= h < hops.len() && (#[trigger] hops[h]).target == t
}

spec fn linked_to_any(g: Seq<ModuleModel>, direction: Direction, frontier: Seq<int>, t: int) -> bool {
    exists|k: int| 0 <= k < frontier.len() && linked(g, direction, #[trigger] frontier[k], t)
}

/// A route that starts in the frontier and follows an edge.
pub open spec fn sourced(
    g: Seq<ModuleModel>,
    direction: Direction,
    route: Route,
) -> bool {
    &&& route.hop.target == route.target
    &&& hops_from(g, route.from, direction).contains(route.hop)
}

/// Whether a module is the target of a route at position `from` or later.
pub open spec fn routed(routes: Seq<Route>, from: int, t: int) -> bool {
    exists|i: int| from <= i < routes.len() && (#[trigger] routes[i]).target == t
}

/// What a step adds: the modules `new` accounts for are seen, and each that was not seen before
/// has one route and one place in the next frontier.
spec fn grown(st: WalkState, after: WalkState, depth: int, new: spec_fn(int) -> bool) -> bool {
    let lo = st.routes.len() as int;
    let at = st.next.len() as int;
    &&& !st.truncated
    &&& forall|t: int|
        #[trigger] after.seen.contains(t) <==> st.seen.contains(t) || new(t)
    &&& lo <= after.routes.len()
    &&& forall|i: int| 0 <= i < lo ==> #[trigger] after.routes[i] == st.routes[i]
    &&& after.next.len() - at == after.routes.len() - lo
    &&& forall|i: int| 0 <= i < at ==> #[trigger] after.next[i] == st.next[i]
    &&& forall|i: int|
        lo <= i < after.routes.len() ==> {
            &&& (#[trigger] after.routes[i]).depth == depth
            &&& new(after.routes[i].target)
            &&& !st.seen.contains(after.routes[i].target)
            &&& after.next[at + i - lo] == after.routes[i].target
        }
    &&& forall|i: int, j: int|
        lo <= i < j < after.routes.len() ==> (#[trigger] after.routes[i]).target != (
        #[trigger] after.routes[j]).target
    &&& forall|t: int|
        #[trigger] after.seen.contains(t) && !st.seen.contains(t) ==> routed(after.routes, lo, t)
}

proof fn follow_all_grows(
    g: Seq<ModuleModel>,
    direction: Direction,
    st: WalkState,
    depth: int,
    from: int,
    hops: Seq<Hop>,
    limit: int,
)
    requires
        !follow_all(st, depth, from, hops, limit).truncated,
    ensures
        grown(st, follow_all(st, depth, from, hops, limit), depth, |t: int| targets(hops, t)),
        forall|i: int|
            st.routes.len() <= i < follow_all(st, depth, from, hops, limit).routes.len() ==> {
                let route = #[trigger] follow_all(st, depth, from, hops, limit).routes[i];
                route.from == from && route.hop.target == route.target && hops.contains(route.hop)
            },
    decreases hops.len(),
{
    let after = follow_all(st, depth, from, hops, limit);
    let lo = st.routes.len() as int;
    if hops.len() > 0 {
        let shorter = hops.drop_last();
        let hop = hops.last();
        let mid = follow_all(st, depth, from, shorter, limit);
        follow_all_grows(g, direction, st, depth, from, shorter, limit);
        let new = |t: int| targets(hops, t);
        let old_new = |t: int| targets(shorter, t);
        assert forall|t: int| #[trigger] new(t) <==> old_new(t) || t == hop.target by {
            if old_new(t) {
                let h = choose|h: int| 0 <= h < shorter.len() && (#[trigger] shorter[h]).target == t;
                assert(hops[h].target == t);
            }
            assert(hops[hops.len() - 1] == hop);
            if new(t) {
                let h = choose|h: int| 0 <= h < hops.len() && (#[trigger] hops[h]).target == t;
                if h < shorter.len() {
                    assert(shorter[h].target == t);
                }
            }
        }
        assert forall|t: int| #[trigger] after.seen.contains(t) <==> st.seen.contains(t) || new(
            t,
        ) by {
            assert(mid.seen.contains(t) <==> st.seen.contains(t) || old_new(t));
        }
        assert forall|t: int| #[trigger] after.seen.contains(t) && !st.seen.contains(t) implies routed(
            after.routes,
            lo,
            t,
        ) by {
            if mid.seen.contains(t) {
                let i = choose|i: int| lo <= i < mid.routes.len() && (#[trigger] mid.routes[i]).target == t;
                assert(after.routes[i].target == t);
            } else {
                assert(t == hop.target);
                assert(after.routes[after.routes.len() - 1].target == t);
            }
        }
        assert forall|i: int| lo <= i < after.routes.len() implies {
            let route = #[trigger] after.routes[i];
            route.from == from && route.hop.target == route.target && hops.contains(route.hop)
        } by {
            if i < mid.routes.len() {
                assert(after.routes[i] == mid.routes[i]);
                let h = choose|h: int| 0 <= h < shorter.len() && shorter[h] == mid.routes[i].hop;
                assert(hops[h] == mid.routes[i].hop);
            } else {
                assert(hops[hops.len() - 1] == hop);
            }
        }
        assert forall|i: int| lo <= i < after.routes.len() implies {
            &&& (#[trigger] after.routes[i]).depth == depth
            &&& new(after.routes[i].target)
            &&& !st.seen.contains(after.routes[i].target)
            &&& after.next[st.next.len() + i - lo] == after.routes[i].target
        } by {
            if i < mid.routes.len() {
                assert(after.routes[i] == mid.routes[i]);
                assert(old_new(mid.routes[i].target));
            } else {
                assert(after.routes[i].target == hop.target);
                assert(!mid.seen.contains(hop.target));
            }
        }
        assert forall|i: int, j: int| lo <= i < j < after.routes.len() implies (
        #[trigger] after.routes[i]).target != (#[trigger] after.routes[j]).target by {
            assert(after.routes[i] == mid.routes[i]);
            if j < mid.routes.len() {
                assert(after.routes[j] == mid.routes[j]);
            } else {
                assert(old_new(mid.routes[i].target));
                assert(mid.seen.contains(mid.routes[i].target));
            }
        }
    } else {
        assert forall|t: int| !targets(hops, t) by {}
    }
}

proof fn expand_grows(
    g: Seq<ModuleModel>,
    direction: Direction,
    st: WalkState,
    depth: int,
    frontier: Seq<int>,
    limit: int,
)
    requires
        !expand(g, direction, st, depth, frontier, limit).truncated,
    ensures
        grown(
            st,
            expand(g, direction, st, depth, frontier, limit),
            depth,
            |t: int| linked_to_any(g, direction, frontier, t),
        ),
        forall|i: int|
            st.routes.len() <= i < expand(g, direction, st, depth, frontier, limit).routes.len()
                ==> {
                let route = #[trigger] expand(g, direction, st, depth, frontier, limit).routes[i];
                frontier.contains(route.from) && sourced(g, direction, route)
            },
    decreases frontier.len(),
{
    let after = expand(g, direction, st, depth, frontier, limit);
    let lo = st.routes.len() as int;
    if frontier.len() > 0 {
        let shorter = frontier.drop_last();
        let last = frontier.last();
        let hops = hops_from(g, last, direction);
        let mid = expand(g, direction, st, depth, shorter, limit);
        follow_all_grows(g, direction, mid, depth, last, hops, limit);
        expand_grows(g, direction, st, depth, shorter, limit);
        let new = |t: int| linked_to_any(g, direction, frontier, t);
        let mid_new = |t: int| linked_to_any(g, direction, shorter, t);
        let hop_new = |t: int| targets(hops, t);
        assert forall|t: int| #[trigger] new(t) <==> mid_new(t) || hop_new(t) by {
            assert(hop_new(t) <==> linked(g, direction, last, t));
            assert(frontier[frontier.len() - 1] == last);
            if mid_new(t) {
                let k = choose|k: int|
                    0 <= k < shorter.len() && linked(g, direction, #[trigger] shorter[k], t);
                assert(frontier[k] == shorter[k]);
            }
            if new(t) {
                let k = choose|k: int|
                    0 <= k < frontier.len() && linked(g, direction, #[trigger] frontier[k], t);
                if k < shorter.len() {
                    assert(shorter[k] == frontier[k]);
                }
            }
        }
        assert forall|t: int| #[trigger] after.seen.contains(t) <==> st.seen.contains(t) || new(
            t,
        ) by {
            assert(mid.seen.contains(t) <==> st.seen.contains(t) || mid_new(t));
            assert(after.seen.contains(t) <==> mid.seen.contains(t) || hop_new(t));
        }
        assert forall|t: int| #[trigger] after.seen.contains(t) && !st.seen.contains(t) implies routed(
            after.routes,
            lo,
            t,
        ) by {
            if mid.seen.contains(t) {
                assert(routed(mid.routes, lo, t));
                let i = choose|i: int| lo <= i < mid.routes.len() && (#[trigger] mid.routes[i]).target == t;
                assert(after.routes[i].target == t);
            } else {
                assert(routed(after.routes, mid.routes.len() as int, t));
                let i = choose|i: int|
                    mid.routes.len() <= i < after.routes.len() && (#[trigger] after.routes[i]).target
                        == t;
                assert(after.routes[i].target == t);
            }
        }
        assert forall|i: int| lo <= i < after.routes.len() implies {
            let route = #[trigger] after.routes[i];
            frontier.contains(route.from) && sourced(g, direction, route)
        } by {
            if i < mid.routes.len() {
                assert(after.routes[i] == mid.routes[i]);
                let k = choose|k: int| 0 <= k < shorter.len() && shorter[k] == mid.routes[i].from;
                assert(frontier[k] == mid.routes[i].from);
            } else {
                assert(frontier[frontier.len() - 1] == last);
            }
        }
        assert forall|i: int| lo <= i < after.routes.len() implies {
            &&& (#[trigger] after.routes[i]).depth == depth
            &&& new(after.routes[i].target)
            &&& !st.seen.contains(after.routes[i].target)
            &&& after.next[st.next.len() + i - lo] == after.routes[i].target
        } by {
            if i < mid.routes.len() {
                assert(after.routes[i] == mid.routes[i]);
                assert(mid_new(mid.routes[i].target));
                let n = st.next.len() + i - lo;
                assert(after.next[n] == mid.next[n]);
            } else {
                assert(hop_new(after.routes[i].target));
                assert(!mid.seen.contains(after.routes[i].target));
                assert(after.next[mid.next.len() + i - mid.routes.len()] == after.routes[i].target);
            }
        }
        assert forall|i: int, j: int| lo <= i < j < after.routes.len() implies (
        #[trigger] after.routes[i]).target != (#[trigger] after.routes[j]).target by {
            if j < mid.routes.len() {
                assert(after.routes[i] == mid.routes[i]);
                assert(after.routes[j] == mid.routes[j]);
            } else if i < mid.routes.len() {
                assert(after.routes[i] == mid.routes[i]);
                assert(mid_new(mid.routes[i].target));
                assert(mid.seen.contains(mid.routes[i].target));
                assert(!mid.seen.contains(after.routes[j].target));
            }
        }
        assert forall|i: int| 0 <= i < lo implies #[trigger] after.routes[i] == st.routes[i] by {
            assert(mid.routes[i] == st.routes[i]);
        }
        assert forall|i: int| 0 <= i < st.next.len() implies #[trigger] after.next[i]
            == st.next[i] by {
            assert(mid.next[i] == st.next[i]);
        }
    } else {
        assert forall|t: int| !linked_to_any(g, direction, frontier, t) by {}
    }
}

/// What holds of the routes reported after all hops up to `depth`.
pub open spec fn shallowest(
    g: Seq<ModuleModel>,
    direction: Direction,
    start: int,
    routes: Seq<Route>,
    depth: int,
) -> bool {
    // Each route is a shortest one, by an edge out of a module one hop nearer.
    &&& forall|i: int|
        0 <= i < routes.len() ==> {
            let route = #[trigger] routes[i];
            &&& 1 <= route.depth <= depth
            &&& distance_is(g, direction, start, route.target, route.depth)
            &&& distance_is(g, direction, start, route.from, route.depth - 1)
            &&& sourced(g, direction, route)
        }
    // No module is reported twice, and nearer modules come first.
    &&& forall|i: int, j: int|
        0 <= i < j < routes.len() ==> (#[trigger] routes[i]).target != (
        #[trigger] routes[j]).target && routes[i].depth <= routes[j].depth
    // Exactly the modules within `depth` hops are reported, apart from the start.
    &&& forall|t: int|
        #[trigger] routed(routes, 0, t) <==> t != start && within(g, direction, start, t, depth)
}

spec fn walk_inv(
    g: Seq<ModuleModel>,
    direction: Direction,
    start: int,
    st: WalkState,
    depth: int,
) -> bool {
    &&& !st.truncated
    &&& 0 <= depth
    &&& forall|t: int|
        #[trigger] st.seen.contains(t) <==> within(g, direction, start, t, depth)
    &&& forall|t: int|
        #[trigger] st.next.contains(t) <==> distance_is(g, direction, start, t, depth)
    &&& shallowest(g, direction, start, st.routes, depth)
}

proof fn truncation_stays(
    g: Seq<ModuleModel>,
    direction: Direction,
    st: WalkState,
    depth: int,
    last: int,
    limit: int,
)
    ensures
        st.truncated ==> walk_on(g, direction, st, depth, last, limit).truncated,
    decreases last + 1 - depth,
{
    if depth <= last {
        let first = WalkState { next: Seq::empty(), ..st };
        let after = expand(g, direction, first, depth, st.next, limit);
        expand_stays_truncated(g, direction, first, depth, st.next, limit);
        if after.next.len() > 0 {
            truncation_stays(g, direction, after, depth + 1, last, limit);
        }
    }
}

proof fn follow_all_stays_truncated(
    st: WalkState,
    depth: int,
    from: int,
    hops: Seq<Hop>,
    limit: int,
)
    ensures
        st.truncated ==> follow_all(st, depth, from, hops, limit).truncated,
    decreases hops.len(),
{
    if hops.len() > 0 {
        follow_all_stays_truncated(st, depth, from, hops.drop_last(), limit);
    }
}

proof fn expand_stays_truncated(
    g: Seq<ModuleModel>,
    direction: Direction,
    st: WalkState,
    depth: int,
    frontier: Seq<int>,
    limit: int,
)
    ensures
        st.truncated ==> expand(g, direction, st, depth, frontier, limit).truncated,
    decreases frontier.len(),
{
    if frontier.len() > 0 {
        let before = expand(g, direction, st, depth, frontier.drop_last(), limit);
        expand_stays_truncated(g, direction, st, depth, frontier.drop_last(), limit);
        follow_all_stays_truncated(
            before,
            depth,
            frontier.last(),
            hops_from(g, frontier.last(), direction),
            limit,
        );
    }
}

proof fn within_splits(
    g: Seq<ModuleModel>,
    direction: Direction,
    start: int,
    t: int,
    n: int,
)
    requires
        0 <= n,
    ensures
        within(g, direction, start, t, n) <==> within(g, direction, start, t, n - 1) || reaches(
            g,
            direction,
            start,
            t,
            n,
        ),
{
    if within(g, direction, start, t, n) {
        let k = choose|k: int| 0 <= k <= n && #[trigger] reaches(g, direction, start, t, k);
        if k < n {
            assert(within(g, direction, start, t, n - 1));
        }
    }
    if within(g, direction, start, t, n - 1) {
        let k = choose|k: int| 0 <= k <= n - 1 && #[trigger] reaches(g, direction, start, t, k);
        assert(reaches(g, direction, start, t, k));
    }
}

/// One more edge.
proof fn reaches_on(
    g: Seq<ModuleModel>,
    direction: Direction,
    start: int,
    mid: int,
    t: int,
    n: int,
)
    requires
        0 <= n,
        reaches(g, direction, start, mid, n),
        linked(g, direction, mid, t),
    ensures
        reaches(g, direction, start, t, n + 1),
{
}

/// One edge less.
proof fn reaches_back(g: Seq<ModuleModel>, direction: Direction, start: int, t: int, n: int) -> (mid:
    int)
    requires
        1 <= n,
        reaches(g, direction, start, t, n),
    ensures
        reaches(g, direction, start, mid, n - 1),
        linked(g, direction, mid, t),
{
    choose|mid: int|
        reaches(g, direction, start, mid, n - 1) && #[trigger] linked(g, direction, mid, t)
}

/// A module first reached after `n` edges is one edge from a module first reached after `n - 1`.
proof fn one_hop_nearer(g: Seq<ModuleModel>, direction: Direction, start: int, t: int, n: int)
    requires
        1 <= n,
        reaches(g, direction, start, t, n),
        !within(g, direction, start, t, n - 1),
    ensures
        exists|mid: int|
            #[trigger] distance_is(g, direction, start, mid, n - 1) && linked(
                g,
                direction,
                mid,
                t,
            ),
{
    let mid = reaches_back(g, direction, start, t, n);
    if within(g, direction, start, mid, n - 2) {
        let k = choose|k: int| 0 <= k <= n - 2 && #[trigger] reaches(g, direction, start, mid, k);
        reaches_on(g, direction, start, mid, t, k);
        assert(within(g, direction, start, t, n - 1));
    }
    assert(distance_is(g, direction, start, mid, n - 1));
}

proof fn one_more_hop(
    g: Seq<ModuleModel>,
    direction: Direction,
    start: int,
    st: WalkState,
    depth: int,
    limit: int,
)
    requires
        walk_inv(g, direction, start, st, depth - 1),
        1 <= depth,
        !expand(g, direction, WalkState { next: Seq::empty(), ..st }, depth, st.next, limit).truncated,
    ensures
        walk_inv(
            g,
            direction,
            start,
            expand(g, direction, WalkState { next: Seq::empty(), ..st }, depth, st.next, limit),
            depth,
        ),
{
    let first = WalkState { next: Seq::empty(), ..st };
    let after = expand(g, direction, first, depth, st.next, limit);
    let lo = st.routes.len() as int;
    expand_grows(g, direction, first, depth, st.next, limit);
    let new = |t: int| linked_to_any(g, direction, st.next, t);
    assert forall|t: int| #[trigger] new(t) implies reaches(g, direction, start, t, depth) by {
        let k = choose|k: int|
            0 <= k < st.next.len() && linked(g, direction, #[trigger] st.next[k], t);
        assert(st.next.contains(st.next[k]));
        reaches_on(g, direction, start, st.next[k], t, depth - 1);
    }
    assert forall|t: int|
        #[trigger] reaches(g, direction, start, t, depth) && !within(g, direction, start, t, depth - 1) implies new(
        t,
    ) by {
        one_hop_nearer(g, direction, start, t, depth);
        let mid = choose|mid: int|
            #[trigger] distance_is(g, direction, start, mid, depth - 1) && linked(
                g,
                direction,
                mid,
                t,
            );
        assert(st.next.contains(mid));
        let k = choose|k: int| 0 <= k < st.next.len() && st.next[k] == mid;
        assert(linked(g, direction, st.next[k], t));
    }
    assert forall|t: int| #[trigger] after.seen.contains(t) <==> within(
        g,
        direction,
        start,
        t,
        depth,
    ) by {
        within_splits(g, direction, start, t, depth);
        assert(first.seen.contains(t) == st.seen.contains(t));
        assert(after.seen.contains(t) <==> first.seen.contains(t) || new(t));
    }
    assert forall|t: int| #[trigger] after.next.contains(t) <==> distance_is(
        g,
        direction,
        start,
        t,
        depth,
    ) by {
        if after.next.contains(t) {
            let n = choose|n: int| 0 <= n < after.next.len() && after.next[n] == t;
            let i = lo + n;
            assert(after.routes[i].target == t);
            assert(new(t));
        }
        if distance_is(g, direction, start, t, depth) {
            assert(new(t));
            assert(after.seen.contains(t));
            assert(routed(after.routes, lo, t));
            let i = choose|i: int| lo <= i < after.routes.len() && (#[trigger] after.routes[i]).target == t;
            assert(after.next[0 + i - lo] == t);
        }
    }
    assert forall|i: int| 0 <= i < after.routes.len() implies {
        let route = #[trigger] after.routes[i];
        &&& 1 <= route.depth <= depth
        &&& distance_is(g, direction, start, route.target, route.depth)
        &&& distance_is(g, direction, start, route.from, route.depth - 1)
        &&& sourced(g, direction, route)
    } by {
        if i < lo {
            assert(after.routes[i] == st.routes[i]);
        } else {
            let route = after.routes[i];
            assert(new(route.target));
            assert(st.next.contains(route.from));
        }
    }
    assert forall|i: int, j: int| 0 <= i < j < after.routes.len() implies (
    #[trigger] after.routes[i]).target != (#[trigger] after.routes[j]).target
        && after.routes[i].depth <= after.routes[j].depth by {
        if j < lo {
            assert(after.routes[i] == st.routes[i]);
            assert(after.routes[j] == st.routes[j]);
        } else if i < lo {
            assert(after.routes[i] == st.routes[i]);
            assert(routed(st.routes, 0, st.routes[i].target));
            assert(st.seen.contains(st.routes[i].target));
        }
    }
    assert forall|t: int| #[trigger] routed(after.routes, 0, t) <==> t != start && within(
        g,
        direction,
        start,
        t,
        depth,
    ) by {
        within_splits(g, direction, start, t, depth);
        assert(reaches(g, direction, start, start, 0));
        assert(within(g, direction, start, start, depth - 1));
        if routed(after.routes, 0, t) {
            let i = choose|i: int| 0 <= i < after.routes.len() && (#[trigger] after.routes[i]).target == t;
            if i < lo {
                assert(st.routes[i].target == t);
                assert(routed(st.routes, 0, t));
            } else {
                assert(new(t));
            }
        }
        if t != start && within(g, direction, start, t, depth) {
            assert(after.seen.contains(t));
            if st.seen.contains(t) {
                assert(routed(st.routes, 0, t));
                let i = choose|i: int| 0 <= i < st.routes.len() && (#[trigger] st.routes[i]).target == t;
                assert(after.routes[i].target == t);
            } else {
                assert(routed(after.routes, lo, t));
                let i = choose|i: int|
                    lo <= i < after.routes.len() && (#[trigger] after.routes[i]).target == t;
                assert(after.routes[i].target == t);
            }
        }
    }
}

proof fn nothing_further(
    g: Seq<ModuleModel>,
    direction: Direction,
    start: int,
    t: int,
    depth: int,
    n: int,
)
    requires
        0 <= depth,
        depth <= n,
        forall|u: int| !#[trigger] distance_is(g, direction, start, u, depth),
        within(g, direction, start, t, n),
    ensures
        within(g, direction, start, t, depth),
    decreases n,
{
    within_splits(g, direction, start, t, n);
    if within(g, direction, start, t, n - 1) {
        if depth <= n - 1 {
            nothing_further(g, direction, start, t, depth, n - 1);
        } else {
            assert(!distance_is(g, direction, start, t, depth));
        }
    } else if n > depth {
        one_hop_nearer(g, direction, start, t, n);
        let mid = choose|mid: int|
            #[trigger] distance_is(g, direction, start, mid, n - 1) && linked(
                g,
                direction,
                mid,
                t,
            );
        if n - 1 == depth {
            assert(false);
        } else {
            assert(within(g, direction, start, mid, n - 1));
            nothing_further(g, direction, start, mid, depth, n - 1);
            let k = choose|k: int|
                0 <= k <= depth && #[trigger] reaches(g, direction, start, mid, k);
            assert(within(g, direction, start, mid, n - 2));
        }
    }
}

proof fn walk_on_is_shallowest(
    g: Seq<ModuleModel>,
    direction: Direction,
    start: int,
    st: WalkState,
    depth: int,
    last: int,
    limit: int,
)
    requires
        walk_inv(g, direction, start, st, depth - 1),
        1 <= depth <= last,
        !walk_on(g, direction, st, depth, last, limit).truncated,
    ensures
        shallowest(
            g,
            direction,
            start,
            walk_on(g, direction, st, depth, last, limit).routes,
            last,
        ),
    decreases last + 1 - depth,
{
    let first = WalkState { next: Seq::empty(), ..st };
    let after = expand(g, direction, first, depth, st.next, limit);
    if after.next.len() > 0 {
        truncation_stays(g, direction, after, depth + 1, last, limit);
    }
    one_more_hop(g, direction, start, st, depth, limit);
    if after.next.len() == 0 {
        assert forall|u: int| !#[trigger] distance_is(g, direction, start, u, depth) by {
            assert(!after.next.contains(u));
        }
        assert forall|t: int| #[trigger] routed(after.routes, 0, t) <==> t != start && within(
            g,
            direction,
            start,
            t,
            last,
        ) by {
            if within(g, direction, start, t, last) {
                nothing_further(g, direction, start, t, depth, last);
            }
            if within(g, direction, start, t, depth) {
                let k = choose|k: int|
                    0 <= k <= depth && #[trigger] reaches(g, direction, start, t, k);
                assert(within(g, direction, start, t, last));
            }
        }
    } else if depth == last {
        assert(walk_on(g, direction, after, depth + 1, last, limit) == after);
    } else {
        walk_on_is_shallowest(g, direction, start, after, depth + 1, last, limit);
    }
}

/// A walk that leaves nothing out reports exactly the modules within `depth` hops of its start,
/// the start apart, each once, by a shortest route and with the length of that route, nearer
/// modules first.
pub proof fn walk_reports_shallowest_routes(
    g: Seq<ModuleModel>,
    start: int,
    direction: Direction,
    depth: int,
    limit: int,
)
    requires
        1 <= depth,
        !walk_from(g, start, direction, depth, limit).truncated,
    ensures
        shallowest(
            g,
            direction,
            start,
            walk_from(g, start, direction, depth, limit).routes,
            depth,
        ),
{
    let st = WalkState {
        seen: set![start],
        routes: Seq::empty(),
        next: seq![start],
        truncated: false,
    };
    assert forall|t: int| #[trigger] st.seen.contains(t) <==> within(g, direction, start, t, 0) by {
        within_splits(g, direction, start, t, 0);
        if t == start {
            assert(reaches(g, direction, start, t, 0));
        }
    }
    assert forall|t: int| #[trigger] st.next.contains(t) <==> distance_is(
        g,
        direction,
        start,
        t,
        0,
    ) by {
        assert(st.next[0] == start);
    }
    assert forall|t: int| !#[trigger] routed(st.routes, 0, t) by {}
    assert forall|t: int| within(g, direction, start, t, 0) implies t == start by {
        within_splits(g, direction, start, t, 0);
    }
    walk_on_is_shallowest(g, direction, start, st, 1, depth, limit);
}

spec fn bounded(st: WalkState, start: int, limit: int) -> bool {
    &&& st.seen.contains(start)
    &&& st.routes.len() <= limit
    &&& st.truncated ==> st.routes.len() == limit
    &&& forall|i: int|
        0 <= i < st.routes.len() ==> (#[trigger] st.routes[i]).target != start && st.seen.contains(
            st.routes[i].target,
        )
    &&& forall|i: int, j: int|
        0 <= i < j < st.routes.len() ==> (#[trigger] st.routes[i]).target != (
        #[trigger] st.routes[j]).target
}

proof fn follow_all_bounded(
    st: WalkState,
    start: int,
    depth: int,
    from: int,
    hops: Seq<Hop>,
    limit: int,
)
    requires
        bounded(st, start, limit),
    ensures
        bounded(follow_all(st, depth, from, hops, limit), start, limit),
    decreases hops.len(),
{
    if hops.len() > 0 {
        follow_all_bounded(st, start, depth, from, hops.drop_last(), limit);
        let before = follow_all(st, depth, from, hops.drop_last(), limit);
        let after = follow(before, depth, from, hops.last(), limit);
        assert forall|i: int| 0 <= i < after.routes.len() implies (
        #[trigger] after.routes[i]).target != start && after.seen.contains(
            after.routes[i].target,
        ) by {
            if i < before.routes.len() {
                assert(after.routes[i] == before.routes[i]);
            }
        }
        assert forall|i: int, j: int| 0 <= i < j < after.routes.len() implies (
        #[trigger] after.routes[i]).target != (#[trigger] after.routes[j]).target by {
            assert(after.routes[i] == before.routes[i]);
            if j < before.routes.len() {
                assert(after.routes[j] == before.routes[j]);
            }
        }
    }
}

proof fn expand_bounded(
    g: Seq<ModuleModel>,
    direction: Direction,
    st: WalkState,
    start: int,
    depth: int,
    frontier: Seq<int>,
    limit: int,
)
    requires
        bounded(st, start, limit),
    ensures
        bounded(expand(g, direction, st, depth, frontier, limit), start, limit),
    decreases frontier.len(),
{
    if frontier.len() > 0 {
        expand_bounded(g, direction, st, start, depth, frontier.drop_last(), limit);
        follow_all_bounded(
            expand(g, direction, st, depth, frontier.drop_last(), limit),
            start,
            depth,
            frontier.last(),
            hops_from(g, frontier.last(), direction),
            limit,
        );
    }
}

proof fn walk_on_bounded(
    g: Seq<ModuleModel>,
    direction: Direction,
    st: WalkState,
    start: int,
    depth: int,
    last: int,
    limit: int,
)
    requires
        bounded(st, start, limit),
    ensures
        bounded(walk_on(g, direction, st, depth, last, limit), start, limit),
    decreases last + 1 - depth,
{
    if depth <= last {
        let first = WalkState { next: Seq::empty(), ..st };
        let after = expand(g, direction, first, depth, st.next, limit);
        expand_bounded(g, direction, first, start, depth, st.next, limit);
        if after.next.len() > 0 {
            walk_on_bounded(g, direction, after, start, depth + 1, last, limit);
        }
    }
}

/// Whatever is left out, a walk never reports the module it started at, reports no module twice,
/// reports no more than `limit`, and says that it left something out only when it reports that
/// many.
pub proof fn walk_keeps_to_its_limit(
    g: Seq<ModuleModel>,
    start: int,
    direction: Direction,
    depth: int,
    limit: int,
)
    requires
        0 <= limit,
    ensures
        ({
            let st = walk_from(g, start, direction, depth, limit);
            &&& st.routes.len() <= limit
            &&& st.truncated ==> st.routes.len() == limit
            &&& forall|i: int|
                0 <= i < st.routes.len() ==> (#[trigger] st.routes[i]).target != start
            &&& forall|i: int, j: int|
                0 <= i < j < st.routes.len() ==> (#[trigger] st.routes[i]).target != (
                #[trigger] st.routes[j]).target
        }),
{
    let st = WalkState {
        seen: set![start],
        routes: Seq::empty(),
        next: seq![start],
        truncated: false,
    };
    let last = if depth < 1 {
        1
    } else {
        depth
    };
    walk_on_bounded(g, direction, st, start, 1, last, limit);
}

/// Whether the routes of a walk are those of another, as far as a limit lets them go.
spec fn cut_at(few: WalkState, many: WalkState, limit: int) -> bool {
    ||| few == many && many.routes.len() <= limit
    ||| few.routes.len() == limit && limit <= many.routes.len() && few.routes == many.routes.take(
        limit,
    )
}

proof fn follow_keeps_the_cut(
    few: WalkState,
    many: WalkState,
    depth: int,
    from: int,
    hop: Hop,
    limit: int,
    more: int,
)
    requires
        0 <= limit <= more,
        cut_at(few, many, limit),
    ensures
        cut_at(follow(few, depth, from, hop, limit), follow(many, depth, from, hop, more), limit),
{
    let a = follow(few, depth, from, hop, limit);
    let b = follow(many, depth, from, hop, more);
    if !(few == many && few.routes.len() < limit) {
        assert(few.routes =~= many.routes.take(limit));
        assert(a.routes =~= b.routes.take(limit));
    }
}

proof fn follow_all_keeps_the_cut(
    few: WalkState,
    many: WalkState,
    depth: int,
    from: int,
    hops: Seq<Hop>,
    limit: int,
    more: int,
)
    requires
        0 <= limit <= more,
        cut_at(few, many, limit),
    ensures
        cut_at(
            follow_all(few, depth, from, hops, limit),
            follow_all(many, depth, from, hops, more),
            limit,
        ),
    decreases hops.len(),
{
    if hops.len() > 0 {
        follow_all_keeps_the_cut(few, many, depth, from, hops.drop_last(), limit, more);
        follow_keeps_the_cut(
            follow_all(few, depth, from, hops.drop_last(), limit),
            follow_all(many, depth, from, hops.drop_last(), more),
            depth,
            from,
            hops.last(),
            limit,
            more,
        );
    }
}

/// A walk that reports all it may adds nothing, and one that goes on keeps what it reported.
proof fn follow_all_keeps_routes(st: WalkState, depth: int, from: int, hops: Seq<Hop>, limit: int)
    ensures
        ({
            let after = follow_all(st, depth, from, hops, limit);
            &&& st.routes.len() <= after.routes.len()
            &&& after.routes.take(st.routes.len() as int) == st.routes
            &&& st.routes.len() >= limit ==> after.routes == st.routes
        }),
    decreases hops.len(),
{
    let after = follow_all(st, depth, from, hops, limit);
    if hops.len() > 0 {
        follow_all_keeps_routes(st, depth, from, hops.drop_last(), limit);
        let before = follow_all(st, depth, from, hops.drop_last(), limit);
        assert(after.routes.take(st.routes.len() as int) =~= before.routes.take(
            st.routes.len() as int,
        ));
    } else {
        assert(after.routes.take(st.routes.len() as int) =~= st.routes);
    }
}

proof fn expand_keeps_routes(
    g: Seq<ModuleModel>,
    direction: Direction,
    st: WalkState,
    depth: int,
    frontier: Seq<int>,
    limit: int,
)
    ensures
        ({
            let after = expand(g, direction, st, depth, frontier, limit);
            &&& st.routes.len() <= after.routes.len()
            &&& after.routes.take(st.routes.len() as int) == st.routes
            &&& st.routes.len() >= limit ==> after.routes == st.routes
        }),
    decreases frontier.len(),
{
    let after = expand(g, direction, st, depth, frontier, limit);
    if frontier.len() > 0 {
        let rest = frontier.drop_last();
        expand_keeps_routes(g, direction, st, depth, rest, limit);
        let before = expand(g, direction, st, depth, rest, limit);
        let hops = hops_from(g, frontier.last(), direction);
        follow_all_keeps_routes(before, depth, frontier.last(), hops, limit);
        assert(after.routes.take(st.routes.len() as int) =~= after.routes.take(
            before.routes.len() as int,
        ).take(st.routes.len() as int));
    } else {
        assert(after.routes.take(st.routes.len() as int) =~= st.routes);
    }
}

proof fn walk_on_keeps_routes(
    g: Seq<ModuleModel>,
    direction: Direction,
    st: WalkState,
    depth: int,
    last: int,
    limit: int,
)
    ensures
        ({
            let after = walk_on(g, direction, st, depth, last, limit);
            &&& st.routes.len() <= after.routes.len()
            &&& after.routes.take(st.routes.len() as int) == st.routes
            &&& st.routes.len() >= limit ==> after.routes == st.routes
        }),
    decreases last + 1 - depth,
{
    let n = st.routes.len() as int;
    let end = walk_on(g, direction, st, depth, last, limit);
    if depth <= last {
        let from = WalkState { next: Seq::empty(), ..st };
        let after = expand(g, direction, from, depth, st.next, limit);
        expand_keeps_routes(g, direction, from, depth, st.next, limit);
        if after.next.len() > 0 {
            walk_on_keeps_routes(g, direction, after, depth + 1, last, limit);
            assert(end.routes.take(n) =~= end.routes.take(after.routes.len() as int).take(n));
        }
    } else {
        assert(end.routes.take(n) =~= st.routes);
    }
}

proof fn expand_keeps_the_cut(
    g: Seq<ModuleModel>,
    direction: Direction,
    st: WalkState,
    depth: int,
    frontier: Seq<int>,
    limit: int,
    more: int,
)
    requires
        0 <= limit <= more,
        st.routes.len() <= limit,
    ensures
        cut_at(
            expand(g, direction, st, depth, frontier, limit),
            expand(g, direction, st, depth, frontier, more),
            limit,
        ),
    decreases frontier.len(),
{
    if frontier.len() > 0 {
        expand_keeps_the_cut(g, direction, st, depth, frontier.drop_last(), limit, more);
        follow_all_keeps_the_cut(
            expand(g, direction, st, depth, frontier.drop_last(), limit),
            expand(g, direction, st, depth, frontier.drop_last(), more),
            depth,
            frontier.last(),
            hops_from(g, frontier.last(), direction),
            limit,
            more,
        );
    }
}

proof fn walk_on_keeps_the_cut(
    g: Seq<ModuleModel>,
    direction: Direction,
    st: WalkState,
    depth: int,
    last: int,
    limit: int,
    more: int,
)
    requires
        0 <= limit <= more,
        st.routes.len() <= limit,
    ensures
        cut_at(
            walk_on(g, direction, st, depth, last, limit),
            walk_on(g, direction, st, depth, last, more),
            limit,
        ),
    decreases last + 1 - depth,
{
    if depth <= last {
        let from = WalkState { next: Seq::empty(), ..st };
        let few = expand(g, direction, from, depth, st.next, limit);
        let many = expand(g, direction, from, depth, st.next, more);
        expand_keeps_the_cut(g, direction, from, depth, st.next, limit, more);
        if few == many && many.routes.len() <= limit {
            if few.next.len() > 0 {
                walk_on_keeps_the_cut(g, direction, few, depth + 1, last, limit, more);
            }
        } else {
            walk_on_keeps_routes(g, direction, few, depth + 1, last, limit);
            walk_on_keeps_routes(g, direction, many, depth + 1, last, more);
            let end = walk_on(g, direction, st, depth, last, more);
            assert(end.routes.take(limit) =~= end.routes.take(many.routes.len() as int).take(
                limit,
            ));
        }
    }
}

/// A smaller limit only cuts the end off what a walk reports.
pub proof fn a_smaller_limit_cuts_the_end(
    g: Seq<ModuleModel>,
    start: int,
    direction: Direction,
    depth: int,
    limit: int,
    more: int,
)
    requires
        0 <= limit <= more,
    ensures
        ({
            let few = walk_from(g, start, direction, depth, limit).routes;
            let many = walk_from(g, start, direction, depth, more).routes;
            few == if many.len() <= limit {
                many
            } else {
                many.take(limit)
            }
        }),
{
    let st = WalkState {
        seen: set![start],
        routes: Seq::empty(),
        next: seq![start],
        truncated: false,
    };
    let last = if depth < 1 {
        1
    } else {
        depth
    };
    walk_on_keeps_the_cut(g, direction, st, 1, last, limit, more);
    let many = walk_from(g, start, direction, depth, more).routes;
    if many.len() == limit {
        assert(many.take(limit) =~= many);
    }
}

proof fn edge_to_is_an_edge(edges: Seq<EdgeModel>, target: int, from: int)
    requires
        0 <= from,
    ensures
        match edge_to(edges, target, from) {
            Some(edge) => edge.target == target && edges.contains(edge),
            None => forall|e: int| from <= e < edges.len() ==> (#[trigger] edges[e]).target != target,
        },
    decreases edges.len() - from,
{
    if from < edges.len() && edges[from].target != target {
        edge_to_is_an_edge(edges, target, from + 1);
    }
}

/// A require is told alike from both of its ends: a hop to a module that requires another has the line
/// and the expression of a hop the other way.
pub proof fn both_directions_tell_the_same_require(g: Seq<ModuleModel>, i: int, d: int)
    requires
        0 <= i < g.len(),
        0 <= d < g[i].dependents.len(),
        edge_to(g[g[i].dependents[d]].dependencies, i, 0) is Some,
    ensures
        ({
            let back = hops_from(g, i, Direction::Dependents)[d];
            &&& back.target == g[i].dependents[d]
            &&& hops_from(g, back.target, Direction::Dependencies).contains(
                (Hop { target: i, line: back.line, expression: back.expression }),
            )
        }),
{
    let owner = g[i].dependents[d];
    let edges = g[owner].dependencies;
    edge_to_is_an_edge(edges, i, 0);
    let edge = edge_to(edges, i, 0)->0;
    let at = choose|at: int| 0 <= at < edges.len() && edges[at] == edge;
    assert(hops_from(g, owner, Direction::Dependencies)[at] == (Hop {
        target: i,
        line: Some(edge.line),
        expression: Some(edge.expression),
    }));
}

} // verus!
