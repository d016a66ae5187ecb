//! What holds of every search for cycles.
use vstd::prelude::*;
use super::cycles::{
    at_root, close_loop, degree, loop_paths, requires_module, search_cycles, search_roots,
    search_step, search_tree, search_wf, step_moves_on, unsearched, work, Mark, Search,
};
use super::graph::{graph_wf, ModuleModel};
use crate::text::position_from;

verus! {

/// Whether a require leads from the module at position `k` of a walk to the one after it.
pub open spec fn followed_at(g: Seq<ModuleModel>, nodes: Seq<int>, k: int) -> bool {
    &&& 0 <= nodes[k] < g.len()
    &&& 0 <= nodes[k + 1] < g.len()
    &&& requires_module(g, nodes[k], nodes[k + 1])
}

/// A walk along requires that comes back to the module it started at.
pub open spec fn is_loop(g: Seq<ModuleModel>, nodes: Seq<int>) -> bool {
    &&& nodes.len() >= 2
    &&& nodes.first() == nodes.last()
    &&& forall|k: int| 0 <= k < nodes.len() - 1 ==> #[trigger] followed_at(g, nodes, k)
}

/// Whether the requires of a graph go round in a circle anywhere.
pub open spec fn has_loop(g: Seq<ModuleModel>) -> bool {
    exists|nodes: Seq<int>| is_loop(g, nodes)
}

/// Whether a reported cycle is the paths of a loop of the graph that passes each of its modules once.
pub open spec fn reports_loop(g: Seq<ModuleModel>, cycle: Seq<Seq<char>>) -> bool {
    exists|nodes: Seq<int>|
        #[trigger] is_loop(g, nodes) && nodes.drop_last().no_duplicates() && cycle == nodes.map_values(
            |node: int| g[node].relative_path,
        )
}

spec fn on_stack(s: Search, node: int) -> bool {
    exists|k: int| 0 <= k < s.stack.len() && (#[trigger] s.stack[k]).0 == node
}

spec fn sound(g: Seq<ModuleModel>, limit: int, s: Search) -> bool {
    &&& search_wf(g, s)
    &&& forall|k: int| 0 <= k < s.path.len() - 1 ==> #[trigger] followed_at(g, s.path, k)
    &&& forall|i: int|
        0 <= i < g.len() && #[trigger] s.marks[i] == Mark::Grey ==> on_stack(s, i)
    &&& forall|c: int| 0 <= c < s.found.len() ==> reports_loop(g, #[trigger] s.found[c])
    &&& s.found.no_duplicates()
    &&& s.found.len() <= limit
    &&& s.truncated ==> has_loop(g) && s.found.len() == limit
}

/// Every require of the module at position `p` leads to a module before it.
spec fn earlier(g: Seq<ModuleModel>, order: Seq<int>, p: int) -> bool {
    forall|e: int|
        0 <= e < degree(g, order[p]) ==> order.take(p).contains(
            (#[trigger] g[order[p]].dependencies[e]).target,
        )
}

spec fn settled(s: Search, k: int, target: int) -> bool {
    s.marks[target] == Mark::Black || (k + 1 < s.stack.len() && target == s.stack[k + 1].0)
}

spec fn sorted_so_far(g: Seq<ModuleModel>, s: Search, order: Seq<int>) -> bool {
    s.found.len() == 0 && !s.truncated ==> {
        &&& order.no_duplicates()
        &&& forall|p: int| 0 <= p < order.len() ==> 0 <= #[trigger] order[p] < g.len()
        &&& forall|i: int|
            0 <= i < g.len() ==> ((#[trigger] s.marks[i] == Mark::Black) <==> order.contains(i))
        &&& forall|p: int| 0 <= p < order.len() ==> #[trigger] earlier(g, order, p)
        &&& forall|k: int, e: int|
            0 <= k < s.stack.len() && 0 <= e < s.stack[k].1 ==> settled(
                s,
                k,
                (#[trigger] g[s.stack[k].0].dependencies[e]).target,
            )
    }
}

proof fn grey_is_on_path(g: Seq<ModuleModel>, s: Search, target: int, k: int, from: int)
    requires
        search_wf(g, s),
        0 <= from <= k < s.stack.len(),
        s.stack[k].0 == target,
    ensures
        position_from(s.path, target, from) matches Some(p) && from <= p <= k && s.path[p]
            == target,
    decreases k - from,
{
    assert(s.path[k] == target);
    if s.path[from] != target {
        grey_is_on_path(g, s, target, k, from + 1);
    }
}

proof fn closed_loop_is_sound(g: Seq<ModuleModel>, limit: int, s: Search, target: int)
    requires
        sound(g, limit, s),
        0 <= target < g.len(),
        on_stack(s, target),
        s.path.len() > 0,
        requires_module(g, s.path.last(), target),
    ensures
        sound(g, limit, close_loop(g, limit, s, target)),
        close_loop(g, limit, s, target).found.len() > 0 || close_loop(
            g,
            limit,
            s,
            target,
        ).truncated,
{
    let k = choose|k: int| 0 <= k < s.stack.len() && (#[trigger] s.stack[k]).0 == target;
    grey_is_on_path(g, s, target, k, 0);
    let start = position_from(s.path, target, 0)->0;
    let nodes = s.path.skip(start).push(target);
    assert forall|j: int| 0 <= j < nodes.len() - 1 implies #[trigger] followed_at(g, nodes, j) by {
        let at = start + j;
        assert(nodes[j] == s.path[at]);
        assert(s.stack[at].0 == s.path[at]);
        if at + 1 < s.path.len() {
            assert(followed_at(g, s.path, at));
            assert(nodes[j + 1] == s.path[at + 1]);
        } else {
            assert(nodes[j + 1] == target);
            assert(s.path[at] == s.path.last());
        }
    }
    assert(nodes.first() == target);
    assert(is_loop(g, nodes));
    let once = nodes.drop_last();
    assert forall|i: int, j: int| 0 <= i < j < once.len() implies once[i] != once[j] by {
        assert(s.stack[start + i].0 == s.path[start + i]);
        assert(s.stack[start + j].0 == s.path[start + j]);
    }
    let cycle = loop_paths(g, s.path.skip(start), target);
    assert(cycle =~= nodes.map_values(|node: int| g[node].relative_path));
    assert(reports_loop(g, cycle));
    let after = close_loop(g, limit, s, target);
    assert forall|i: int| 0 <= i < g.len() && #[trigger] after.marks[i] == Mark::Grey implies on_stack(
        after,
        i,
    ) by {
        assert(s.marks[i] == Mark::Grey);
        assert(on_stack(s, i));
    }
}

proof fn step_is_sound(g: Seq<ModuleModel>, limit: int, s: Search, order: Seq<int>) -> (after:
    Seq<int>)
    requires
        sound(g, limit, s),
        sorted_so_far(g, s, order),
        s.stack.len() > 0,
    ensures
        sound(g, limit, search_step(g, limit, s)),
        sorted_so_far(g, search_step(g, limit, s), after),
{
    step_moves_on(g, limit, s);
    let t = search_step(g, limit, s);
    let top = s.stack.len() - 1;
    let (current, next) = s.stack.last();
    assert(s.stack[top] == (current, next));
    assert(s.path[top] == current);
    if next >= degree(g, current) {
        assert forall|k: int| 0 <= k < t.path.len() - 1 implies #[trigger] followed_at(
            g,
            t.path,
            k,
        ) by {
            assert(followed_at(g, s.path, k));
        }
        assert forall|i: int| 0 <= i < g.len() && #[trigger] t.marks[i] == Mark::Grey implies on_stack(
            t,
            i,
        ) by {
            assert(s.marks[i] == Mark::Grey);
            let k = choose|k: int| 0 <= k < s.stack.len() && (#[trigger] s.stack[k]).0 == i;
            assert(i != current);
            assert(t.stack[k] == s.stack[k]);
        }
        let longer = order.push(current);
        if s.found.len() == 0 && !s.truncated {
            assert(s.marks[current] == Mark::Grey);
            assert(!order.contains(current));
            assert forall|i: int| 0 <= i < g.len() implies ((#[trigger] t.marks[i] == Mark::Black)
                <==> longer.contains(i)) by {
                assert((s.marks[i] == Mark::Black) <==> order.contains(i));
                assert(longer[order.len() as int] == current);
                if order.contains(i) {
                    let q = choose|q: int| 0 <= q < order.len() && order[q] == i;
                    assert(longer[q] == i);
                }
            }
            assert forall|p: int| 0 <= p < longer.len() implies #[trigger] earlier(g, longer, p) by {
                assert forall|e: int| 0 <= e < degree(g, longer[p]) implies longer.take(p).contains(
                    (#[trigger] g[longer[p]].dependencies[e]).target,
                ) by {
                    let target = g[longer[p]].dependencies[e].target;
                    if p < order.len() {
                        assert(earlier(g, order, p));
                        assert(order[p] == longer[p]);
                        assert(order.take(p) =~= longer.take(p));
                        assert(order.take(p).contains(g[order[p]].dependencies[e].target));
                    } else {
                        assert(longer.take(p) =~= order);
                        assert(g[s.stack[top].0].dependencies[e].target == target);
                        assert(settled(s, top, target));
                        assert(s.marks[target] == Mark::Black);
                    }
                }
            }
            assert forall|k: int, e: int|
                0 <= k < t.stack.len() && 0 <= e < t.stack[k].1 implies settled(
                t,
                k,
                (#[trigger] g[t.stack[k].0].dependencies[e]).target,
            ) by {
                assert(t.stack[k] == s.stack[k]);
                let target = g[s.stack[k].0].dependencies[e].target;
                assert(settled(s, k, target));
                if k + 1 < t.stack.len() {
                    assert(t.stack[k + 1] == s.stack[k + 1]);
                }
            }
        }
        longer
    } else {
        let target = g[current].dependencies[next].target;
        let moved = Search { stack: s.stack.drop_last().push((current, next + 1)), ..s };
        assert(requires_module(g, current, target));
        assert forall|i: int| 0 <= i < g.len() && #[trigger] moved.marks[i] == Mark::Grey implies on_stack(
            moved,
            i,
        ) by {
            assert(s.marks[i] == Mark::Grey);
            let k = choose|k: int| 0 <= k < s.stack.len() && (#[trigger] s.stack[k]).0 == i;
            assert(moved.stack[k].0 == s.stack[k].0);
        }
        assert(search_wf(g, moved)) by {
            assert forall|k: int| 0 <= k < moved.stack.len() implies {
                &&& 0 <= (#[trigger] moved.stack[k]).0 < g.len()
                &&& 0 <= moved.stack[k].1 <= degree(g, moved.stack[k].0)
                &&& moved.path[k] == moved.stack[k].0
                &&& moved.marks[moved.stack[k].0] == Mark::Grey
            } by {
                assert(moved.stack[k].0 == s.stack[k].0);
                if k < top {
                    assert(moved.stack[k] == s.stack[k]);
                }
            }
            assert forall|j: int, k: int| 0 <= j < k < moved.stack.len() implies (
            #[trigger] moved.stack[j]).0 != (#[trigger] moved.stack[k]).0 by {
                assert(moved.stack[j].0 == s.stack[j].0);
                assert(moved.stack[k].0 == s.stack[k].0);
            }
        }
        assert(sound(g, limit, moved));
        match s.marks[target] {
            Mark::Grey => {
                assert(on_stack(moved, target));
                assert(moved.path.last() == current);
                closed_loop_is_sound(g, limit, moved, target);
            },
            Mark::White => {
                assert forall|k: int| 0 <= k < t.path.len() - 1 implies #[trigger] followed_at(
                    g,
                    t.path,
                    k,
                ) by {
                    if k < top {
                        assert(followed_at(g, s.path, k));
                    } else {
                        assert(t.path[k] == current);
                        assert(t.path[k + 1] == target);
                    }
                }
                assert forall|i: int|
                    0 <= i < g.len() && #[trigger] t.marks[i] == Mark::Grey implies on_stack(
                    t,
                    i,
                ) by {
                    if i == target {
                        assert(t.stack[top + 1].0 == target);
                    } else {
                        assert(moved.marks[i] == Mark::Grey);
                        let k = choose|k: int|
                            0 <= k < moved.stack.len() && (#[trigger] moved.stack[k]).0 == i;
                        assert(t.stack[k] == moved.stack[k]);
                    }
                }
            },
            Mark::Black => {},
        }
        if t.found.len() == 0 && !t.truncated {
            assert(s.found.len() == 0 && !s.truncated);
            assert(s.marks[target] != Mark::Grey);
            assert forall|i: int| 0 <= i < g.len() implies ((#[trigger] t.marks[i] == Mark::Black)
                <==> order.contains(i)) by {
                assert((s.marks[i] == Mark::Black) <==> order.contains(i));
            }
            assert forall|k: int, e: int|
                0 <= k < t.stack.len() && 0 <= e < t.stack[k].1 implies settled(
                t,
                k,
                (#[trigger] g[t.stack[k].0].dependencies[e]).target,
            ) by {
                if k < top {
                    assert(t.stack[k] == s.stack[k]);
                    assert(settled(s, k, g[s.stack[k].0].dependencies[e].target));
                    assert(t.stack[k + 1].0 == s.stack[k + 1].0);
                } else if k == top {
                    assert(t.stack[k] == (current, next + 1));
                    if e < next {
                        assert(settled(s, k, g[s.stack[k].0].dependencies[e].target));
                    }
                }
            }
        }
        order
    }
}

proof fn tree_is_sound(g: Seq<ModuleModel>, limit: int, s: Search, order: Seq<int>) -> (after:
    Seq<int>)
    requires
        sound(g, limit, s),
        sorted_so_far(g, s, order),
    ensures
        sound(g, limit, search_tree(g, limit, s)),
        sorted_so_far(g, search_tree(g, limit, s), after),
        search_tree(g, limit, s).stack.len() == 0,
        forall|i: int|
            0 <= i < g.len() && s.marks[i] != Mark::White ==> #[trigger] search_tree(
                g,
                limit,
                s,
            ).marks[i] != Mark::White,
    decreases work(g, s),
{
    if s.stack.len() == 0 {
        order
    } else {
        step_moves_on(g, limit, s);
        let next_order = step_is_sound(g, limit, s, order);
        let t = search_step(g, limit, s);
        assert forall|i: int| 0 <= i < g.len() && s.marks[i] != Mark::White implies t.marks[i]
            != Mark::White by {}
        tree_is_sound(g, limit, t, next_order)
    }
}

proof fn roots_are_sound(g: Seq<ModuleModel>, limit: int, root: int, s: Search, order: Seq<int>)
    -> (after: Seq<int>)
    requires
        sound(g, limit, s),
        sorted_so_far(g, s, order),
        s.stack.len() == 0,
        0 <= root <= g.len(),
        forall|i: int| 0 <= i < root ==> s.marks[i] != Mark::White,
    ensures
        sound(g, limit, search_roots(g, limit, root, s)),
        sorted_so_far(g, search_roots(g, limit, root, s), after),
        search_roots(g, limit, root, s).stack.len() == 0,
        forall|i: int|
            0 <= i < g.len() ==> #[trigger] search_roots(g, limit, root, s).marks[i]
                != Mark::White,
    decreases g.len() - root,
{
    if root >= g.len() {
        order
    } else if s.marks[root] == Mark::White {
        let t = at_root(s, root);
        assert forall|i: int| 0 <= i < g.len() && #[trigger] t.marks[i] == Mark::Grey implies on_stack(
            t,
            i,
        ) by {
            if i != root {
                assert(s.marks[i] == Mark::Grey);
                assert(on_stack(s, i));
            }
            assert(t.stack[0].0 == root);
        }
        assert(sorted_so_far(g, t, order)) by {
            if t.found.len() == 0 && !t.truncated {
                assert forall|i: int| 0 <= i < g.len() implies ((#[trigger] t.marks[i]
                    == Mark::Black) <==> order.contains(i)) by {
                    assert((s.marks[i] == Mark::Black) <==> order.contains(i));
                }
            }
        }
        let next_order = tree_is_sound(g, limit, t, order);
        let u = search_tree(g, limit, t);
        assert forall|i: int| 0 <= i < root + 1 implies u.marks[i] != Mark::White by {
            assert(t.marks[i] != Mark::White);
        }
        roots_are_sound(g, limit, root + 1, u, next_order)
    } else {
        roots_are_sound(g, limit, root + 1, s, order)
    }
}

proof fn sorted_has_no_loop(g: Seq<ModuleModel>, order: Seq<int>, nodes: Seq<int>, k: int) -> (p:
    int)
    requires
        order.no_duplicates(),
        forall|i: int| 0 <= i < g.len() ==> order.contains(i),
        forall|p: int| 0 <= p < order.len() ==> #[trigger] earlier(g, order, p),
        is_loop(g, nodes),
        0 <= k < nodes.len(),
    ensures
        0 <= p < order.len(),
        order[p] == nodes[k],
        forall|q: int| 0 <= q < order.len() && order[q] == nodes[0] ==> p + k <= q,
    decreases k,
{
    if k == 0 {
        assert(followed_at(g, nodes, 0));
        assert(order.contains(nodes[0]));
        choose|p: int| 0 <= p < order.len() && order[p] == nodes[0]
    } else {
        let before = sorted_has_no_loop(g, order, nodes, k - 1);
        assert(followed_at(g, nodes, k - 1));
        assert(earlier(g, order, before));
        let e = choose|e: int|
            0 <= e < g[nodes[k - 1]].dependencies.len() && (
            #[trigger] g[nodes[k - 1]].dependencies[e]).target == nodes[k];
        assert(order.take(before).contains(g[order[before]].dependencies[e].target));
        let p = choose|p: int|
            0 <= p < order.take(before).len() && order.take(before)[p] == nodes[k];
        assert(order[p] == nodes[k]);
        p
    }
}

proof fn cycles_search_is_sound(g: Seq<ModuleModel>, limit: int) -> (order: Seq<int>)
    requires
        graph_wf(g),
        0 <= limit,
    ensures
        sound(g, limit, search_cycles(g, limit)),
        sorted_so_far(g, search_cycles(g, limit), order),
        search_cycles(g, limit).stack.len() == 0,
        forall|i: int|
            0 <= i < g.len() ==> #[trigger] search_cycles(g, limit).marks[i] != Mark::White,
{
    let s = unsearched(g);
    assert(sorted_so_far(g, s, Seq::empty()));
    roots_are_sound(g, limit, 0, s, Seq::empty())
}

/// Every cycle reported is a loop of the graph that passes each of its modules once, named from the
/// module it comes back to; no cycle is reported twice, and no more than `limit` are.
pub proof fn reported_cycles_are_loops(g: Seq<ModuleModel>, limit: int)
    requires
        graph_wf(g),
        0 <= limit,
    ensures
        forall|c: int|
            0 <= c < search_cycles(g, limit).found.len() ==> {
                let cycle = #[trigger] search_cycles(g, limit).found[c];
                reports_loop(g, cycle) && cycle.first() == cycle.last()
            },
        search_cycles(g, limit).found.no_duplicates(),
        search_cycles(g, limit).found.len() <= limit,
        search_cycles(g, limit).truncated ==> search_cycles(g, limit).found.len() == limit,
{
    let order = cycles_search_is_sound(g, limit);
    let found = search_cycles(g, limit).found;
    assert forall|c: int| 0 <= c < found.len() implies {
        let cycle = #[trigger] found[c];
        reports_loop(g, cycle) && cycle.first() == cycle.last()
    } by {
        assert(reports_loop(g, found[c]));
        let nodes = choose|nodes: Seq<int>|
            #[trigger] is_loop(g, nodes) && found[c] == nodes.map_values(
                |node: int| g[node].relative_path,
            );
        assert(found[c].first() == g[nodes.first()].relative_path);
        assert(found[c].last() == g[nodes.last()].relative_path);
    }
}

/// A search that reports nothing and leaves nothing out has seen a graph without loops, and only
/// such a graph.
pub proof fn no_report_means_no_loop(g: Seq<ModuleModel>, limit: int)
    requires
        graph_wf(g),
        0 <= limit,
    ensures
        has_loop(g) <==> search_cycles(g, limit).found.len() > 0 || search_cycles(
            g,
            limit,
        ).truncated,
{
    let s = search_cycles(g, limit);
    let order = cycles_search_is_sound(g, limit);
    if s.found.len() > 0 {
        assert(reports_loop(g, s.found[0]));
    }
    if s.found.len() == 0 && !s.truncated && has_loop(g) {
        assert forall|i: int| 0 <= i < g.len() implies order.contains(i) by {
            assert(s.marks[i] != Mark::White);
            if s.marks[i] == Mark::Grey {
                assert(on_stack(s, i));
            }
        }
        let nodes = choose|nodes: Seq<int>| is_loop(g, nodes);
        let last = nodes.len() - 1;
        let p = sorted_has_no_loop(g, order, nodes, last as int);
        assert(order[p] == nodes[0]);
        assert(false);
    }
}

} // verus!
