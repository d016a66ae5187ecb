//! Require cycles.
use vstd::prelude::*;
use super::graph::{graph_wf, ModuleModel, RequireGraph};
use crate::text::{list_same, position_from};

verus! {

/// What the search knows of a module: nothing, that it is on the path it is following, or that
/// everything it requires has been followed.
#[derive(Debug, Clone, Copy, PartialEq, Eq, Structural)]
pub enum Mark {
    White,
    Grey,
    Black,
}

/// Where the search stands. The stack holds the modules of the path, each with the number of its
/// requires that have been followed.
pub struct Search {
    pub marks: Seq<Mark>,
    pub path: Seq<int>,
    pub stack: Seq<(int, int)>,
    pub found: Seq<Seq<Seq<char>>>,
    pub truncated: bool,
}

pub open spec fn degree(g: Seq<ModuleModel>, i: int) -> int {
    g[i].dependencies.len() as int
}

/// Whether some require of module `from` leads to module `to`.
pub open spec fn requires_module(g: Seq<ModuleModel>, from: int, to: int) -> bool {
    exists|e: int|
        0 <= e < g[from].dependencies.len() && (#[trigger] g[from].dependencies[e]).target == to
}

/// The paths of the modules of a loop, the first of them repeated at the end.
pub open spec fn loop_paths(g: Seq<ModuleModel>, nodes: Seq<int>, target: int) -> Seq<Seq<char>> {
    nodes.map_values(|node: int| g[node].relative_path).push(g[target].relative_path)
}

/// A require that leads back onto the path closes a loop, which is reported once and at most
/// `limit` times over.
pub open spec fn close_loop(
    g: Seq<ModuleModel>,
    limit: int,
    s: Search,
    target: int,
) -> Search {
    if s.found.len() >= limit {
        Search { truncated: true, ..s }
    } else {
        match position_from(s.path, target, 0) {
            Some(start) => {
                let cycle = loop_paths(g, s.path.skip(start), target);
                if s.found.contains(cycle) {
                    s
                } else {
                    Search { found: s.found.push(cycle), ..s }
                }
            },
            None => s,
        }
    }
}

/// One move of the search: leave a module whose requires are all followed, or follow the next.
pub open spec fn search_step(g: Seq<ModuleModel>, limit: int, s: Search) -> Search {
    let (current, next) = s.stack.last();
    if next >= degree(g, current) {
        Search {
            marks: s.marks.update(current, Mark::Black),
            path: s.path.drop_last(),
            stack: s.stack.drop_last(),
            ..s
        }
    } else {
        let moved = Search { stack: s.stack.drop_last().push((current, next + 1)), ..s };
        let target = g[current].dependencies[next].target;
        match s.marks[target] {
            Mark::Grey => close_loop(g, limit, moved, target),
            Mark::White => Search {
                marks: s.marks.update(target, Mark::Grey),
                path: s.path.push(target),
                stack: moved.stack.push((target, 0)),
                ..s
            },
            Mark::Black => moved,
        }
    }
}

/// The stack holds the grey modules, each once, and the path is the stack's modules.
pub open spec fn search_wf(g: Seq<ModuleModel>, s: Search) -> bool {
    &&& graph_wf(g)
    &&& s.marks.len() == g.len()
    &&& s.path.len() == s.stack.len()
    &&& forall|k: int|
        0 <= k < s.stack.len() ==> {
            &&& 0 <= (#[trigger] s.stack[k]).0 < g.len()
            &&& 0 <= s.stack[k].1 <= degree(g, s.stack[k].0)
            &&& s.path[k] == s.stack[k].0
            &&& s.marks[s.stack[k].0] == Mark::Grey
        }
    &&& forall|j: int, k: int|
        0 <= j < k < s.stack.len() ==> (#[trigger] s.stack[j]).0 != (#[trigger] s.stack[k]).0
}

/// The moves still to come from the modules not yet met among the first `k`.
pub open spec fn white_work(g: Seq<ModuleModel>, marks: Seq<Mark>, k: int) -> int
    decreases k,
{
    if k <= 0 {
        0
    } else {
        white_work(g, marks, k - 1) + if marks[k - 1] == Mark::White {
            degree(g, k - 1) + 1
        } else {
            0
        }
    }
}

/// The moves still to come from the modules on the stack.
pub open spec fn stack_work(g: Seq<ModuleModel>, stack: Seq<(int, int)>) -> int
    decreases stack.len(),
{
    if stack.len() == 0 {
        0
    } else {
        stack_work(g, stack.drop_last()) + degree(g, stack.last().0) - stack.last().1 + 1
    }
}

pub open spec fn work(g: Seq<ModuleModel>, s: Search) -> int {
    white_work(g, s.marks, g.len() as int) + stack_work(g, s.stack)
}

proof fn white_work_update(g: Seq<ModuleModel>, marks: Seq<Mark>, i: int, m: Mark, k: int)
    requires
        0 <= i < marks.len(),
        k <= marks.len(),
        m != Mark::White,
    ensures
        white_work(g, marks.update(i, m), k) == white_work(g, marks, k) - if i < k && marks[i]
            == Mark::White {
            degree(g, i) + 1
        } else {
            0
        },
        white_work(g, marks, k) >= 0,
    decreases k,
{
    if k > 0 {
        white_work_update(g, marks, i, m, k - 1);
    }
}

proof fn stack_work_is_nat(g: Seq<ModuleModel>, stack: Seq<(int, int)>)
    requires
        forall|k: int| 0 <= k < stack.len() ==> (#[trigger] stack[k]).1 <= degree(g, stack[k].0),
    ensures
        stack_work(g, stack) >= stack.len(),
    decreases stack.len(),
{
    if stack.len() > 0 {
        assert forall|k: int| 0 <= k < stack.drop_last().len() implies (
        #[trigger] stack.drop_last()[k]).1 <= degree(g, stack.drop_last()[k].0) by {
            assert(stack.drop_last()[k] == stack[k]);
        }
        stack_work_is_nat(g, stack.drop_last());
        assert(stack.last() == stack[stack.len() - 1]);
    }
}

/// Every move keeps the search well formed and leaves fewer moves to come.
pub proof fn step_moves_on(g: Seq<ModuleModel>, limit: int, s: Search)
    requires
        search_wf(g, s),
        s.stack.len() > 0,
    ensures
        search_wf(g, search_step(g, limit, s)),
        0 <= work(g, search_step(g, limit, s)) < work(g, s),
{
    let n = g.len() as int;
    let top = s.stack.len() - 1;
    let after = search_step(g, limit, s);
    let (current, next) = s.stack.last();
    assert(s.stack[top] == (current, next));
    if next >= degree(g, current) {
        white_work_update(g, s.marks, current, Mark::Black, n);
        assert forall|k: int| 0 <= k < after.stack.len() implies {
            &&& 0 <= (#[trigger] after.stack[k]).0 < g.len()
            &&& 0 <= after.stack[k].1 <= degree(g, after.stack[k].0)
            &&& after.path[k] == after.stack[k].0
            &&& after.marks[after.stack[k].0] == Mark::Grey
        } by {
            assert(after.stack[k] == s.stack[k]);
            assert(s.stack[k].0 != s.stack[top].0);
        }
    } else {
        let target = g[current].dependencies[next].target;
        let moved = s.stack.drop_last().push((current, next + 1));
        assert(moved.drop_last() =~= s.stack.drop_last());
        assert(stack_work(g, moved) == stack_work(g, s.stack) - 1);
        white_work_update(g, s.marks, current, Mark::Grey, n);
        if s.marks[target] == Mark::White {
            white_work_update(g, s.marks, target, Mark::Grey, n);
            assert(after.stack.drop_last() =~= moved);
            assert(stack_work(g, after.stack) == stack_work(g, moved) + degree(g, target) + 1);
        }
        assert forall|k: int| 0 <= k < after.stack.len() implies {
            &&& 0 <= (#[trigger] after.stack[k]).0 < g.len()
            &&& 0 <= after.stack[k].1 <= degree(g, after.stack[k].0)
            &&& after.path[k] == after.stack[k].0
            &&& after.marks[after.stack[k].0] == Mark::Grey
        } by {
            if k < top {
                assert(after.stack[k] == s.stack[k]);
            } else if k == top {
                assert(after.stack[k] == (current, next + 1));
            }
        }
        assert forall|j: int, k: int| 0 <= j < k < after.stack.len() implies (
        #[trigger] after.stack[j]).0 != (#[trigger] after.stack[k]).0 by {
            assert(after.stack[j].0 == s.stack[j].0);
            if k <= top {
                assert(after.stack[k].0 == s.stack[k].0);
            }
        }
    }
    stack_work_is_nat(g, after.stack);
    if g.len() > 0 {
        white_work_update(g, after.marks, 0, Mark::Grey, n);
    }
}

/// The search from where it stands until its stack is empty.
pub open spec fn search_tree(g: Seq<ModuleModel>, limit: int, s: Search) -> Search
    decreases work(g, s),
    when search_wf(g, s)
    via search_tree_ends
{
    if s.stack.len() == 0 {
        s
    } else {
        search_tree(g, limit, search_step(g, limit, s))
    }
}

#[via_fn]
proof fn search_tree_ends(g: Seq<ModuleModel>, limit: int, s: Search) {
    if s.stack.len() > 0 {
        step_moves_on(g, limit, s);
    }
}

/// A search about to follow the requires of `root`.
pub open spec fn at_root(s: Search, root: int) -> Search {
    Search {
        marks: s.marks.update(root, Mark::Grey),
        path: seq![root],
        stack: seq![(root, 0int)],
        ..s
    }
}

/// The searches from each module from `root` on that no search before it met.
pub open spec fn search_roots(g: Seq<ModuleModel>, limit: int, root: int, s: Search) -> Search
    decreases g.len() - root,
{
    if root >= g.len() {
        s
    } else if s.marks[root] == Mark::White {
        search_roots(g, limit, root + 1, search_tree(g, limit, at_root(s, root)))
    } else {
        search_roots(g, limit, root + 1, s)
    }
}

pub open spec fn unsearched(g: Seq<ModuleModel>) -> Search {
    Search {
        marks: Seq::new(g.len(), |i: int| Mark::White),
        path: Seq::empty(),
        stack: Seq::empty(),
        found: Seq::empty(),
        truncated: false,
    }
}

/// The whole search.
pub open spec fn search_cycles(g: Seq<ModuleModel>, limit: int) -> Search {
    search_roots(g, limit, 0, unsearched(g))
}

proof fn at_root_wf(g: Seq<ModuleModel>, s: Search, root: int)
    requires
        search_wf(g, s),
        s.stack.len() == 0,
        0 <= root < g.len(),
    ensures
        search_wf(g, at_root(s, root)),
{
}

fn cycle_known(found: &Vec<Vec<String>>, cycle: &Vec<String>) -> (known: bool)
    ensures
        known == found.deep_view().contains(cycle.deep_view()),
{
    let mut i: usize = 0;
    while i < found.len()
        invariant
            i <= found@.len(),
            forall|j: int| 0 <= j < i ==> found.deep_view()[j] != cycle.deep_view(),
        decreases found@.len() - i,
    {
        if list_same(&found[i], cycle) {
            assert(found.deep_view()[i as int] == cycle.deep_view());
            return true;
        }
        i = i + 1;
    }
    false
}

impl RequireGraph {
    fn loop_of(&self, path: &Vec<usize>, start: usize, target: usize) -> (cycle: Vec<String>)
        requires
            start <= path@.len(),
            target < self@.len(),
            forall|k: int| 0 <= k < path@.len() ==> path@[k] < self@.len(),
        ensures
            cycle.deep_view() == loop_paths(
                self@,
                path@.map_values(|v: usize| v as int).skip(start as int),
                target as int,
            ),
    {
        let ghost nodes = path@.map_values(|v: usize| v as int).skip(start as int);
        let ghost paths = nodes.map_values(|node: int| self@[node].relative_path);
        let mut cycle: Vec<String> = Vec::new();
        let mut i: usize = start;
        while i < path.len()
            invariant
                start <= i <= path@.len(),
                forall|k: int| 0 <= k < path@.len() ==> path@[k] < self@.len(),
                nodes == path@.map_values(|v: usize| v as int).skip(start as int),
                paths == nodes.map_values(|node: int| self@[node].relative_path),
                cycle.deep_view() == paths.take(i - start),
            decreases path@.len() - i,
        {
            let node = path[i];
            let ghost before = cycle.deep_view();
            assert(self.modules@[node as int].deep_view() == self@[node as int]);
            cycle.push(self.modules[node].relative_path.clone());
            assert(nodes[i - start] == node as int);
            assert(cycle.deep_view() =~= before.push(paths[i - start]));
            assert(cycle.deep_view() =~= paths.take(i + 1 - start));
            i = i + 1;
        }
        let ghost before = cycle.deep_view();
        assert(self.modules@[target as int].deep_view() == self@[target as int]);
        cycle.push(self.modules[target].relative_path.clone());
        assert(cycle.deep_view() =~= before.push(self@[target as int].relative_path));
        assert(paths.take(i - start) =~= paths);
        cycle
    }

    /// Require cycles, each reported as the loop it closes, with the first module repeated at the
    /// end; at most `limit` of them, and whether a loop was met after that many were found.
    pub fn cycles(&self, limit: usize) -> (r: (Vec<Vec<String>>, bool))
        requires
            self.wf(),
        ensures
            r.0.deep_view() == search_cycles(self@, limit as int).found,
            r.1 == search_cycles(self@, limit as int).truncated,
    {
        let ghost g = self@;
        let count = self.modules.len();
        let mut marks: Vec<Mark> = Vec::new();
        while marks.len() < count
            invariant
                marks@.len() <= count,
                forall|i: int| 0 <= i < marks@.len() ==> marks@[i] == Mark::White,
            decreases count - marks@.len(),
        {
            marks.push(Mark::White);
        }
        let mut found: Vec<Vec<String>> = Vec::new();
        let mut truncated = false;
        let ghost whole = search_cycles(g, limit as int);
        let ghost mut s = unsearched(g);
        assert(marks@ =~= s.marks);
        assert(found.deep_view() =~= s.found);
        let mut root: usize = 0;
        while root < count
            invariant
                g == self@,
                count == g.len(),
                count == self.modules@.len(),
                root <= count,
                search_wf(g, s),
                s.stack.len() == 0,
                marks@ == s.marks,
                found.deep_view() == s.found,
                truncated == s.truncated,
                whole == search_roots(g, limit as int, root as int, s),
            decreases count - root,
        {
            if marks[root] == Mark::White {
                let ghost tree = search_tree(g, limit as int, at_root(s, root as int));
                proof {
                    at_root_wf(g, s, root as int);
                    s = at_root(s, root as int);
                }
                let mut path: Vec<usize> = vec![root];
                let mut stack: Vec<(usize, usize)> = vec![(root, 0)];
                marks.set(root, Mark::Grey);
                assert(path@.map_values(|v: usize| v as int) =~= s.path);
                assert(stack@.map_values(|v: (usize, usize)| (v.0 as int, v.1 as int)) =~= s.stack);
                while stack.len() > 0
                    invariant
                        g == self@,
                        count == g.len(),
                        count == self.modules@.len(),
                        search_wf(g, s),
                        marks@ == s.marks,
                        found.deep_view() == s.found,
                        truncated == s.truncated,
                        path@.map_values(|v: usize| v as int) == s.path,
                        stack@.map_values(|v: (usize, usize)| (v.0 as int, v.1 as int)) == s.stack,
                        tree == search_tree(g, limit as int, s),
                    decreases work(g, s),
                {
                    let ghost was = s;
                    let ghost top = s.stack.len() - 1;
                    proof {
                        step_moves_on(g, limit as int, s);
                        stack_work_is_nat(g, s.stack);
                        s = search_step(g, limit as int, s);
                        assert(s.path.len() == s.stack.len());
                        assert(was.stack.len() == stack@.len());
                        assert(was.path.len() == path@.len());
                        assert(was.stack[top] == (
                            stack@[top].0 as int,
                            stack@[top].1 as int,
                        ));
                        assert(was.found.len() == found@.len());
                    }
                    let (current, next) = stack[stack.len() - 1];
                    stack.pop();
                    assert(stack@.map_values(|v: (usize, usize)| (v.0 as int, v.1 as int))
                        =~= was.stack.drop_last());
                    assert(self.modules@[current as int].deep_view() == g[current as int]);
                    if next >= self.modules[current].dependencies.len() {
                        marks.set(current, Mark::Black);
                        path.pop();
                        assert(path@.map_values(|v: usize| v as int) =~= s.path);
                    } else {
                        stack.push((current, next + 1));
                        let ghost moved = was.stack.drop_last().push((current as int, next + 1));
                        assert(stack@.map_values(|v: (usize, usize)| (v.0 as int, v.1 as int))
                            =~= moved);
                        let target = self.modules[current].dependencies[next].target;
                        assert(self.modules@[current as int].dependencies@[next as int].deep_view()
                            == g[current as int].dependencies[next as int]);
                        match marks[target] {
                            Mark::Grey => {
                                if found.len() >= limit {
                                    truncated = true;
                                } else {
                                    let mut start: usize = 0;
                                    while start < path.len() && path[start] != target
                                        invariant
                                            start <= path@.len(),
                                            path@.map_values(|v: usize| v as int) == was.path,
                                            position_from(was.path, target as int, 0)
                                                == position_from(
                                                was.path,
                                                target as int,
                                                start as int,
                                            ),
                                        decreases path@.len() - start,
                                    {
                                        start = start + 1;
                                    }
                                    if start < path.len() {
                                        assert forall|k: int| 0 <= k < path@.len() implies path@[k]
                                            < g.len() by {
                                            assert(was.stack[k].0 == was.path[k]);
                                        }
                                        let cycle = self.loop_of(&path, start, target);
                                        if !cycle_known(&found, &cycle) {
                                            let ghost before = found.deep_view();
                                            let ghost said = cycle.deep_view();
                                            found.push(cycle);
                                            assert(found.deep_view() =~= before.push(said));
                                        }
                                    }
                                }
                            },
                            Mark::White => {
                                marks.set(target, Mark::Grey);
                                path.push(target);
                                stack.push((target, 0));
                                assert(path@.map_values(|v: usize| v as int) =~= s.path);
                                assert(stack@.map_values(
                                    |v: (usize, usize)| (v.0 as int, v.1 as int),
                                ) =~= s.stack);
                            },
                            Mark::Black => {},
                        }
                    }
                }
                assert(s.stack.len() == 0);
                assert(tree == s);
            }
            root = root + 1;
        }
        (found, truncated)
    }
}

} // verus!
