//! Walking the require graph.
use vstd::prelude::*;
use super::building::GraphStamp;
use super::cycles::search_cycles;
use super::Direction;
use crate::errors::{hinted, hinted_failure, Failure, FailureModel};
use crate::roblox::sourcemap::{
    normalize, normalized, reference_model, ReferenceModel, Sourcemap, SourcemapReference,
};
use crate::text::{owned, owned_option, same_text};

verus! {

/// A require that could not be resolved to a file, and why.
#[derive(Debug)]
pub struct UnresolvedRequire {
    pub line: u32,
    /// The require as written, so the caller can go and look at it.
    pub expression: String,
    pub reason: String,
}

/// A require that resolved to another module.
#[derive(Debug)]
pub struct Edge {
    pub target: usize,
    pub line: u32,
    pub expression: String,
}

/// One file of the project.
#[derive(Debug)]
pub struct Module {
    pub relative_path: String,
    pub instance_path: Option<String>,
    pub dependencies: Vec<Edge>,
    pub dependents: Vec<usize>,
    pub unresolved: Vec<UnresolvedRequire>,
}

/// A module reached by walking the graph, and how it was reached.
#[derive(Debug)]
pub struct ReachedModule {
    pub relative_path: String,
    pub instance_path: Option<String>,
    /// Hops from the module the walk started at.
    pub depth: u32,
    /// The require that reached it, on the first hop that did.
    pub via: Option<String>,
    /// Which file the reaching require was written in, for hops past the first.
    pub from: Option<String>,
    pub line: Option<u32>,
}

/// The modules of a project and the requires between them.
#[derive(Debug)]
pub struct RequireGraph {
    pub modules: Vec<Module>,
    pub stamp: GraphStamp,
}

pub struct UnresolvedModel {
    pub line: u32,
    pub expression: Seq<char>,
    pub reason: Seq<char>,
}

pub struct EdgeModel {
    pub target: int,
    pub line: u32,
    pub expression: Seq<char>,
}

pub struct ModuleModel {
    pub relative_path: Seq<char>,
    pub instance_path: Option<Seq<char>>,
    pub dependencies: Seq<EdgeModel>,
    pub dependents: Seq<int>,
    pub unresolved: Seq<UnresolvedModel>,
}

pub struct ReachedModel {
    pub relative_path: Seq<char>,
    pub instance_path: Option<Seq<char>>,
    pub depth: u32,
    pub via: Option<Seq<char>>,
    pub from: Option<Seq<char>>,
    pub line: Option<u32>,
}

impl DeepView for UnresolvedRequire {
    type V = UnresolvedModel;

    open spec fn deep_view(&self) -> UnresolvedModel {
        UnresolvedModel {
            line: self.line,
            expression: self.expression@,
            reason: self.reason@,
        }
    }
}

impl DeepView for Edge {
    type V = EdgeModel;

    open spec fn deep_view(&self) -> EdgeModel {
        EdgeModel { target: self.target as int, line: self.line, expression: self.expression@ }
    }
}

impl DeepView for Module {
    type V = ModuleModel;

    open spec fn deep_view(&self) -> ModuleModel {
        ModuleModel {
            relative_path: self.relative_path@,
            instance_path: self.instance_path.deep_view(),
            dependencies: self.dependencies.deep_view(),
            dependents: self.dependents@.map_values(|owner: usize| owner as int),
            unresolved: self.unresolved.deep_view(),
        }
    }
}

impl DeepView for ReachedModule {
    type V = ReachedModel;

    open spec fn deep_view(&self) -> ReachedModel {
        ReachedModel {
            relative_path: self.relative_path@,
            instance_path: self.instance_path.deep_view(),
            depth: self.depth,
            via: self.via.deep_view(),
            from: self.from.deep_view(),
            line: self.line,
        }
    }
}

impl View for RequireGraph {
    type V = Seq<ModuleModel>;

    open spec fn view(&self) -> Seq<ModuleModel> {
        self.modules.deep_view()
    }
}

/// Every edge and every back edge leads to a module of the graph.
pub open spec fn graph_wf(g: Seq<ModuleModel>) -> bool {
    &&& forall|i: int, e: int|
        0 <= i < g.len() && 0 <= e < g[i].dependencies.len() ==> 0 <= (
        #[trigger] g[i].dependencies[e]).target < g.len()
    &&& forall|i: int, d: int|
        0 <= i < g.len() && 0 <= d < g[i].dependents.len() ==> 0 <= (
        #[trigger] g[i].dependents[d]) < g.len()
}

// ---------------------------------------------------------------------------
// Walking breadth first

/// One edge out of a module: where it leads and the require it was written as.
pub struct Hop {
    pub target: int,
    pub line: Option<u32>,
    pub expression: Option<Seq<char>>,
}

/// The first edge among `edges`, from position `from` on, that leads to `target`.
pub open spec fn edge_to(edges: Seq<EdgeModel>, target: int, from: int) -> Option<EdgeModel>
    decreases edges.len() - from,
{
    if from < 0 || from >= edges.len() {
        None
    } else if edges[from].target == target {
        Some(edges[from])
    } else {
        edge_to(edges, target, from + 1)
    }
}

/// The edge back from a module to one that requires it, written as the first require that does.
pub open spec fn hop_back(g: Seq<ModuleModel>, index: int, owner: int) -> Hop {
    match edge_to(g[owner].dependencies, index, 0) {
        Some(edge) => Hop {
            target: owner,
            line: Some(edge.line),
            expression: Some(edge.expression),
        },
        None => Hop { target: owner, line: None, expression: None },
    }
}

/// The edges out of a module in the direction the walk goes.
pub open spec fn hops_from(g: Seq<ModuleModel>, index: int, direction: Direction) -> Seq<Hop> {
    match direction {
        Direction::Dependencies => g[index].dependencies.map_values(
            |edge: EdgeModel|
                Hop {
                    target: edge.target,
                    line: Some(edge.line),
                    expression: Some(edge.expression),
                },
        ),
        Direction::Dependents => g[index].dependents.map_values(
            |owner: int| hop_back(g, index, owner),
        ),
    }
}

/// How the walk came to a module.
pub struct Route {
    pub target: int,
    pub from: int,
    pub depth: int,
    pub hop: Hop,
}

/// Where a walk stands: what it has seen, the routes it reports, the modules the next hop starts
/// at, and whether a module was left out.
pub struct WalkState {
    pub seen: Set<int>,
    pub routes: Seq<Route>,
    pub next: Seq<int>,
    pub truncated: bool,
}

/// Following one edge: a module seen before is passed over, a new one is reported, or left out
/// once `limit` modules are reported.
pub open spec fn follow(st: WalkState, depth: int, from: int, hop: Hop, limit: int) -> WalkState {
    if st.seen.contains(hop.target) {
        st
    } else if st.routes.len() >= limit {
        WalkState { seen: st.seen.insert(hop.target), truncated: true, ..st }
    } else {
        WalkState {
            seen: st.seen.insert(hop.target),
            routes: st.routes.push(Route { target: hop.target, from, depth, hop }),
            next: st.next.push(hop.target),
            truncated: st.truncated,
        }
    }
}

/// Following several edges out of one module, in order.
pub open spec fn follow_all(
    st: WalkState,
    depth: int,
    from: int,
    hops: Seq<Hop>,
    limit: int,
) -> WalkState
    decreases hops.len(),
{
    if hops.len() == 0 {
        st
    } else {
        follow(follow_all(st, depth, from, hops.drop_last(), limit), depth, from, hops.last(), limit)
    }
}

/// Following every edge out of the modules of a frontier, in order.
pub open spec fn expand(
    g: Seq<ModuleModel>,
    direction: Direction,
    st: WalkState,
    depth: int,
    frontier: Seq<int>,
    limit: int,
) -> WalkState
    decreases frontier.len(),
{
    if frontier.len() == 0 {
        st
    } else {
        let before = expand(g, direction, st, depth, frontier.drop_last(), limit);
        follow_all(before, depth, frontier.last(), hops_from(g, frontier.last(), direction), limit)
    }
}

/// The hops from `depth` to `last`, each starting at the modules the one before it reached.
pub open spec fn walk_on(
    g: Seq<ModuleModel>,
    direction: Direction,
    st: WalkState,
    depth: int,
    last: int,
    limit: int,
) -> WalkState
    decreases last + 1 - depth,
{
    if depth > last {
        st
    } else {
        let after = expand(
            g,
            direction,
            WalkState { next: Seq::empty(), ..st },
            depth,
            st.next,
            limit,
        );
        if after.next.len() == 0 {
            after
        } else {
            walk_on(g, direction, after, depth + 1, last, limit)
        }
    }
}

/// The walk from `start`: at least one hop, at most `depth`.
pub open spec fn walk_from(
    g: Seq<ModuleModel>,
    start: int,
    direction: Direction,
    depth: int,
    limit: int,
) -> WalkState {
    let at_start = WalkState {
        seen: set![start],
        routes: Seq::empty(),
        next: seq![start],
        truncated: false,
    };
    walk_on(
        g,
        direction,
        at_start,
        1,
        if depth < 1 {
            1
        } else {
            depth
        },
        limit,
    )
}

/// A route as the answer reports it.
pub open spec fn reported(g: Seq<ModuleModel>, route: Route) -> ReachedModel {
    ReachedModel {
        relative_path: g[route.target].relative_path,
        instance_path: g[route.target].instance_path,
        depth: route.depth as u32,
        via: route.hop.expression,
        from: if route.depth > 1 {
            Some(g[route.from].relative_path)
        } else {
            None
        },
        line: route.hop.line,
    }
}

/// The routes of a walk as the answer reports them.
pub open spec fn all_reported(g: Seq<ModuleModel>, routes: Seq<Route>) -> Seq<ReachedModel> {
    routes.map_values(|route: Route| reported(g, route))
}

/// An edge out of a module, as the walk handles it.
struct Neighbour {
    target: usize,
    line: Option<u32>,
    expression: Option<String>,
}

impl DeepView for Neighbour {
    type V = Hop;

    closed spec fn deep_view(&self) -> Hop {
        Hop {
            target: self.target as int,
            line: self.line,
            expression: self.expression.deep_view(),
        }
    }
}

impl RequireGraph {
    /// Every edge leads to a module of the graph.
    pub open spec fn wf(&self) -> bool {
        graph_wf(self@)
    }

    /// Every module within `depth` hops of `start`, breadth first so the shallowest route to each
    /// one is the route reported; at most `limit` of them, and whether any was left out.
    pub fn walk(&self, start: usize, direction: Direction, depth: u32, limit: usize) -> (r: (
        Vec<ReachedModule>,
        bool,
    ))
        requires
            self.wf(),
            start < self@.len(),
        ensures
            r.0.deep_view() == all_reported(
                self@,
                walk_from(self@, start as int, direction, depth as int, limit as int).routes,
            ),
            r.1 == walk_from(self@, start as int, direction, depth as int, limit as int).truncated,
    {
        let count = self.modules.len();
        let mut seen: Vec<bool> = vec![false; count];
        seen.set(start, true);
        let mut reached: Vec<ReachedModule> = Vec::new();
        let mut frontier: Vec<usize> = vec![start];
        let mut truncated = false;
        let last: u32 = if depth < 1 {
            1
        } else {
            depth
        };
        let ghost g = self@;
        let ghost whole = walk_from(g, start as int, direction, depth as int, limit as int);
        let ghost mut st = WalkState {
            seen: set![start as int],
            routes: Seq::empty(),
            next: seq![start as int],
            truncated: false,
        };
        let mut hop: u32 = 1;
        assert(frontier@.map_values(|v: usize| v as int) =~= st.next);
        assert(reached.deep_view() =~= all_reported(g, st.routes));
        loop
            invariant
                g == self@,
                graph_wf(g),
                count == g.len(),
                count == self.modules@.len(),
                1 <= hop <= last,
                seen@.len() == count,
                forall|t: int| 0 <= t < count ==> seen@[t] == st.seen.contains(t),
                reached.deep_view() == all_reported(g, st.routes),
                frontier@.map_values(|v: usize| v as int) == st.next,
                forall|k: int| 0 <= k < frontier@.len() ==> frontier@[k] < count,
                truncated == st.truncated,
                whole == walk_on(g, direction, st, hop as int, last as int, limit as int),
                whole == walk_from(g, start as int, direction, depth as int, limit as int),
            decreases last - hop,
        {
            let ghost head = st;
            let ghost first = WalkState { next: Seq::empty(), ..st };
            let ghost ahead = st.next;
            let mut next: Vec<usize> = Vec::new();
            proof {
                st = first;
            }
            let mut k: usize = 0;
            assert(ahead.take(0) =~= Seq::empty());
            assert(next@.map_values(|v: usize| v as int) =~= st.next);
            while k < frontier.len()
                invariant
                    g == self@,
                    graph_wf(g),
                    count == g.len(),
                    count == self.modules@.len(),
                    k <= frontier@.len(),
                    seen@.len() == count,
                    frontier@.map_values(|v: usize| v as int) == ahead,
                    forall|j: int| 0 <= j < frontier@.len() ==> frontier@[j] < count,
                    forall|t: int| 0 <= t < count ==> seen@[t] == st.seen.contains(t),
                    reached.deep_view() == all_reported(g, st.routes),
                    next@.map_values(|v: usize| v as int) == st.next,
                    forall|j: int| 0 <= j < next@.len() ==> next@[j] < count,
                    truncated == st.truncated,
                    st == expand(g, direction, first, hop as int, ahead.take(k as int), limit as int),
                decreases frontier@.len() - k,
            {
                let current = frontier[k];
                assert(current as int == ahead[k as int]);
                let ghost entry = st;
                let hops = self.neighbours(current, direction);
                let ghost all = hops_from(g, current as int, direction);
                let mut h: usize = 0;
                assert(all.take(0) =~= Seq::empty());
                while h < hops.len()
                    invariant
                        g == self@,
                        graph_wf(g),
                        count == g.len(),
                        count == self.modules@.len(),
                        current < count,
                        h <= hops@.len(),
                        seen@.len() == count,
                        hops.deep_view() == all,
                        forall|j: int| 0 <= j < hops@.len() ==> hops@[j].target < count,
                        forall|t: int| 0 <= t < count ==> seen@[t] == st.seen.contains(t),
                        reached.deep_view() == all_reported(g, st.routes),
                        next@.map_values(|v: usize| v as int) == st.next,
                        forall|j: int| 0 <= j < next@.len() ==> next@[j] < count,
                        truncated == st.truncated,
                        st == follow_all(
                            entry,
                            hop as int,
                            current as int,
                            all.take(h as int),
                            limit as int,
                        ),
                    decreases hops@.len() - h,
                {
                    let target = hops[h].target;
                    let ghost was = st;
                    let ghost said = all[h as int];
                    proof {
                        assert(hops.deep_view()[h as int] == said);
                        assert(all.take(h + 1).drop_last() =~= all.take(h as int));
                        assert(all.take(h + 1).last() == said);
                        st = follow(st, hop as int, current as int, said, limit as int);
                        assert(reached.deep_view().len() == was.routes.len());
                    }
                    if !seen[target] {
                        seen.set(target, true);
                        if reached.len() >= limit {
                            truncated = true;
                        } else {
                            let module = &self.modules[target];
                            assert(module.deep_view() == g[target as int]);
                            assert(self.modules@[current as int].deep_view() == g[current as int]);
                            let ghost before = reached.deep_view();
                            let ghost next_before = next@;
                            reached.push(
                                ReachedModule {
                                    relative_path: module.relative_path.clone(),
                                    instance_path: owned_option(&module.instance_path),
                                    depth: hop,
                                    via: owned_option(&hops[h].expression),
                                    from: if hop > 1 {
                                        Some(self.modules[current].relative_path.clone())
                                    } else {
                                        None
                                    },
                                    line: hops[h].line,
                                },
                            );
                            next.push(target);
                            proof {
                                let route = st.routes.last();
                                assert(reached.deep_view() =~= before.push(reported(g, route)));
                                assert(reached.deep_view() =~= all_reported(g, st.routes));
                                assert(next@.map_values(|v: usize| v as int) =~= st.next);
                            }
                        }
                    }
                    h = h + 1;
                }
                proof {
                    assert(all.take(h as int) =~= all);
                    assert(ahead.take(k + 1).drop_last() =~= ahead.take(k as int));
                    assert(ahead.take(k + 1).last() == ahead[k as int]);
                }
                k = k + 1;
            }
            proof {
                assert(ahead.take(k as int) =~= ahead);
                assert(next@.len() == st.next.len());
                let further = walk_on(g, direction, st, hop + 1, last as int, limit as int);
                assert(hop == last ==> further == st);
                assert(whole == walk_on(g, direction, head, hop as int, last as int, limit as int));
                assert(whole == if st.next.len() == 0 {
                    st
                } else {
                    further
                });
            }
            if next.len() == 0 || hop == last {
                return (reached, truncated);
            }
            frontier = next;
            hop = hop + 1;
        }
    }

    fn neighbours(&self, index: usize, direction: Direction) -> (r: Vec<Neighbour>)
        requires
            graph_wf(self@),
            index < self@.len(),
        ensures
            r.deep_view() == hops_from(self@, index as int, direction),
            forall|j: int| 0 <= j < r@.len() ==> r@[j].target < self@.len(),
    {
        let ghost g = self@;
        let module = &self.modules[index];
        assert(module.deep_view() == g[index as int]);
        let mut hops: Vec<Neighbour> = Vec::new();
        let mut i: usize = 0;
        let ghost all = hops_from(g, index as int, direction);
        match direction {
            Direction::Dependencies => {
                while i < module.dependencies.len()
                    invariant
                        i <= module.dependencies@.len(),
                        graph_wf(g),
                        g == self@,
                        index < g.len(),
                        module.deep_view() == g[index as int],
                        all == hops_from(g, index as int, Direction::Dependencies),
                        hops.deep_view() == all.take(i as int),
                        forall|j: int| 0 <= j < hops@.len() ==> hops@[j].target < g.len(),
                    decreases module.dependencies@.len() - i,
                {
                    let edge = &module.dependencies[i];
                    assert(edge.deep_view() == g[index as int].dependencies[i as int]);
                    let ghost before = hops.deep_view();
                    hops.push(
                        Neighbour {
                            target: edge.target,
                            line: Some(edge.line),
                            expression: Some(edge.expression.clone()),
                        },
                    );
                    assert(hops.deep_view() =~= before.push(all[i as int]));
                    assert(hops.deep_view() =~= all.take(i + 1));
                    i = i + 1;
                }
                assert(all.take(i as int) =~= all);
                hops
            },
            Direction::Dependents => {
                while i < module.dependents.len()
                    invariant
                        i <= module.dependents@.len(),
                        graph_wf(g),
                        g == self@,
                        index < g.len(),
                        module.deep_view() == g[index as int],
                        all == hops_from(g, index as int, Direction::Dependents),
                        hops.deep_view() == all.take(i as int),
                        forall|j: int| 0 <= j < hops@.len() ==> hops@[j].target < g.len(),
                    decreases module.dependents@.len() - i,
                {
                    let owner = module.dependents[i];
                    assert(owner as int == g[index as int].dependents[i as int]);
                    let ghost before = hops.deep_view();
                    hops.push(self.back_to(index, owner));
                    assert(hops.deep_view() =~= before.push(all[i as int]));
                    assert(hops.deep_view() =~= all.take(i + 1));
                    i = i + 1;
                }
                assert(all.take(i as int) =~= all);
                hops
            },
        }
    }

    fn back_to(&self, index: usize, owner: usize) -> (r: Neighbour)
        requires
            index < self@.len(),
            owner < self@.len(),
        ensures
            r.deep_view() == hop_back(self@, index as int, owner as int),
            r.target == owner,
    {
        let edges = &self.modules[owner].dependencies;
        let ghost all = self@[owner as int].dependencies;
        assert(self.modules@[owner as int].deep_view() == self@[owner as int]);
        let mut i: usize = 0;
        while i < edges.len()
            invariant
                i <= edges@.len(),
                edges.deep_view() == all,
                all == self@[owner as int].dependencies,
                edge_to(all, index as int, 0) == edge_to(all, index as int, i as int),
            decreases edges@.len() - i,
        {
            let edge = &edges[i];
            assert(edge.deep_view() == all[i as int]);
            if edge.target == index {
                return Neighbour {
                    target: owner,
                    line: Some(edge.line),
                    expression: Some(edge.expression.clone()),
                };
            }
            i = i + 1;
        }
        Neighbour { target: owner, line: None, expression: None }
    }
}


// ---------------------------------------------------------------------------
// Looking modules up

/// The last module among the first `n` that has the path.
pub open spec fn module_at(g: Seq<ModuleModel>, path: Seq<char>, n: int) -> Option<int>
    decreases n,
{
    if n <= 0 {
        None
    } else if g[n - 1].relative_path == path {
        Some(n - 1)
    } else {
        module_at(g, path, n - 1)
    }
}

/// The module a path names, however its slashes are written.
pub open spec fn module_found(g: Seq<ModuleModel>, relative_path: Seq<char>) -> Option<int> {
    module_at(g, normalized(relative_path), g.len() as int)
}

impl RequireGraph {
    /// What the file set looked like when the graph was built.
    pub fn stamp(&self) -> (r: &GraphStamp)
        ensures
            *r == self.stamp,
    {
        &self.stamp
    }

    /// How many modules there are.
    pub fn len(&self) -> (r: usize)
        ensures
            r == self@.len(),
    {
        self.modules.len()
    }

    /// Whether there are no modules.
    pub fn is_empty(&self) -> (r: bool)
        ensures
            r == (self@.len() == 0),
    {
        self.modules.len() == 0
    }

    /// The module at a position.
    pub fn module(&self, index: usize) -> (r: &Module)
        requires
            index < self@.len(),
        ensures
            r.deep_view() == self@[index as int],
    {
        &self.modules[index]
    }

    /// The position of the module a path names.
    pub fn find(&self, relative_path: &str) -> (r: Option<usize>)
        ensures
            match r {
                Some(i) => module_found(self@, relative_path@) == Some(i as int) && i < self@.len(),
                None => module_found(self@, relative_path@) is None,
            },
    {
        let wanted = normalize(relative_path);
        let ghost g = self@;
        let mut i: usize = self.modules.len();
        while i > 0
            invariant
                i <= g.len(),
                g == self@,
                g.len() == self.modules@.len(),
                wanted@ == normalized(relative_path@),
                module_found(g, relative_path@) == module_at(g, wanted@, i as int),
            decreases i,
        {
            assert(self.modules@[i - 1].deep_view() == g[i - 1]);
            if same_text(self.modules[i - 1].relative_path.as_str(), wanted.as_str()) {
                return Some(i - 1);
            }
            i = i - 1;
        }
        None
    }
}

// ---------------------------------------------------------------------------
// Answering

/// An unresolved require, told alongside the file that wrote it.
#[derive(Debug)]
pub struct UnresolvedEntry {
    pub relative_path: String,
    pub line: u32,
    pub expression: String,
    pub reason: String,
}

pub struct UnresolvedEntryModel {
    pub relative_path: Seq<char>,
    pub line: u32,
    pub expression: Seq<char>,
    pub reason: Seq<char>,
}

impl DeepView for UnresolvedEntry {
    type V = UnresolvedEntryModel;

    open spec fn deep_view(&self) -> UnresolvedEntryModel {
        UnresolvedEntryModel {
            relative_path: self.relative_path@,
            line: self.line,
            expression: self.expression@,
            reason: self.reason@,
        }
    }
}

/// What a question about the graph is answered with.
#[derive(Debug)]
pub struct GraphAnswer {
    /// The module the graph was centred on.
    pub relative_path: Option<String>,
    pub instance_path: Option<String>,
    pub modules_scanned: usize,
    pub dependencies: Option<Vec<ReachedModule>>,
    pub dependents: Option<Vec<ReachedModule>>,
    pub unresolved: Vec<UnresolvedEntry>,
    /// Each cycle as the loop it closes, first module repeated at the end.
    pub cycles: Option<Vec<Vec<String>>>,
    pub truncated: bool,
    pub sourcemap: SourcemapReference,
}

pub struct GraphAnswerModel {
    pub relative_path: Option<Seq<char>>,
    pub instance_path: Option<Seq<char>>,
    pub modules_scanned: int,
    pub dependencies: Option<Seq<ReachedModel>>,
    pub dependents: Option<Seq<ReachedModel>>,
    pub unresolved: Seq<UnresolvedEntryModel>,
    pub cycles: Option<Seq<Seq<Seq<char>>>>,
    pub truncated: bool,
    pub sourcemap: ReferenceModel,
}

impl DeepView for GraphAnswer {
    type V = GraphAnswerModel;

    open spec fn deep_view(&self) -> GraphAnswerModel {
        GraphAnswerModel {
            relative_path: self.relative_path.deep_view(),
            instance_path: self.instance_path.deep_view(),
            modules_scanned: self.modules_scanned as int,
            dependencies: self.dependencies.deep_view(),
            dependents: self.dependents.deep_view(),
            unresolved: self.unresolved.deep_view(),
            cycles: self.cycles.deep_view(),
            truncated: self.truncated,
            sourcemap: self.sourcemap.deep_view(),
        }
    }
}

/// A question about the graph.
#[derive(Debug)]
pub struct GraphRequest<'a> {
    pub relative_path: Option<&'a str>,
    pub directions: Vec<Direction>,
    pub depth: u32,
    pub include_cycles: bool,
    pub include_unresolved: bool,
    pub limit: usize,
}

/// An unresolved require told with its file.
pub open spec fn entry_of(path: Seq<char>, entry: UnresolvedModel) -> UnresolvedEntryModel {
    UnresolvedEntryModel {
        relative_path: path,
        line: entry.line,
        expression: entry.expression,
        reason: entry.reason,
    }
}

/// The unresolved requires of a module.
pub open spec fn entries_of_module(module: ModuleModel) -> Seq<UnresolvedEntryModel> {
    module.unresolved.map_values(
        |entry: UnresolvedModel| entry_of(module.relative_path, entry),
    )
}

/// The unresolved requires of a module, each with its file.
pub open spec fn pairs_of_module(module: ModuleModel) -> Seq<(Seq<char>, UnresolvedModel)> {
    module.unresolved.map_values(|entry: UnresolvedModel| (module.relative_path, entry))
}

/// The unresolved requires of the first `n` modules, each with its file.
pub open spec fn pairs_of_graph(g: Seq<ModuleModel>, n: int) -> Seq<(Seq<char>, UnresolvedModel)>
    decreases n,
{
    if n <= 0 {
        Seq::empty()
    } else {
        pairs_of_graph(g, n - 1) + pairs_of_module(g[n - 1])
    }
}

/// At most `limit` of the unresolved requires of a graph, in the order of the modules.
pub open spec fn limited_pairs(g: Seq<ModuleModel>, limit: int) -> Seq<
    (Seq<char>, UnresolvedModel),
> {
    let all = pairs_of_graph(g, g.len() as int);
    if all.len() <= limit {
        all
    } else {
        all.take(limit)
    }
}

/// The walk of an answer in one direction, where it was asked for.
pub open spec fn answered_walk(
    g: Seq<ModuleModel>,
    start: int,
    asked: Seq<Direction>,
    direction: Direction,
    depth: int,
    limit: int,
) -> Option<Seq<ReachedModel>> {
    if asked.contains(direction) {
        Some(all_reported(g, walk_from(g, start, direction, depth, limit).routes))
    } else {
        None
    }
}

/// Whether the walk of an answer in one direction left something out.
pub open spec fn walk_cut(
    g: Seq<ModuleModel>,
    start: int,
    asked: Seq<Direction>,
    direction: Direction,
    depth: int,
    limit: int,
) -> bool {
    asked.contains(direction) && walk_from(g, start, direction, depth, limit).truncated
}

/// What a question is answered with: about one module the walks asked for and what it could not
/// resolve, about the project what it could not resolve, and either way the cycles asked for.
pub open spec fn graph_answer(
    g: Seq<ModuleModel>,
    relative_path: Option<Seq<char>>,
    asked: Seq<Direction>,
    depth: int,
    with_cycles: bool,
    with_unresolved: bool,
    limit: int,
    sourcemap: ReferenceModel,
) -> Result<GraphAnswerModel, FailureModel> {
    let cycles = if with_cycles {
        Some(search_cycles(g, limit).found)
    } else {
        None
    };
    let cycles_cut = with_cycles && search_cycles(g, limit).truncated;
    match relative_path {
        Some(path) => match module_found(g, path) {
            None => Err(
                hinted_failure(
                    "no Luau file at "@ + path,
                    "pass a path to a .luau or .lua file relative to the project root, or omit relative_path for a project-wide answer"@,
                ),
            ),
            Some(index) => Ok(
                GraphAnswerModel {
                    relative_path: Some(g[index].relative_path),
                    instance_path: g[index].instance_path,
                    modules_scanned: g.len() as int,
                    dependencies: answered_walk(
                        g,
                        index,
                        asked,
                        Direction::Dependencies,
                        depth,
                        limit,
                    ),
                    dependents: answered_walk(
                        g,
                        index,
                        asked,
                        Direction::Dependents,
                        depth,
                        limit,
                    ),
                    unresolved: if with_unresolved {
                        entries_of_module(g[index])
                    } else {
                        Seq::empty()
                    },
                    cycles,
                    truncated: walk_cut(g, index, asked, Direction::Dependencies, depth, limit)
                        || walk_cut(g, index, asked, Direction::Dependents, depth, limit)
                        || cycles_cut,
                    sourcemap,
                },
            ),
        },
        None => Ok(
            GraphAnswerModel {
                relative_path: None,
                instance_path: None,
                modules_scanned: g.len() as int,
                dependencies: None,
                dependents: None,
                unresolved: if with_unresolved {
                    limited_pairs(g, limit).map_values(
                        |pair: (Seq<char>, UnresolvedModel)| entry_of(pair.0, pair.1),
                    )
                } else {
                    Seq::empty()
                },
                cycles,
                truncated: (with_unresolved && pairs_of_graph(g, g.len() as int).len() > limit)
                    || cycles_cut,
                sourcemap,
            },
        ),
    }
}

fn asks_for(asked: &Vec<Direction>, direction: Direction) -> (r: bool)
    ensures
        r == asked@.contains(direction),
{
    let mut i: usize = 0;
    while i < asked.len()
        invariant
            i <= asked@.len(),
            forall|k: int| 0 <= k < i ==> asked@[k] != direction,
        decreases asked@.len() - i,
    {
        if asked[i] == direction {
            return true;
        }
        i = i + 1;
    }
    false
}

fn told_with(path: &str, require: &UnresolvedRequire) -> (r: UnresolvedEntry)
    ensures
        r.deep_view() == entry_of(path@, require.deep_view()),
{
    UnresolvedEntry {
        relative_path: owned(path),
        line: require.line,
        expression: require.expression.clone(),
        reason: require.reason.clone(),
    }
}

fn told(found: &Vec<(String, UnresolvedRequire)>) -> (r: Vec<UnresolvedEntry>)
    ensures
        r.deep_view() == found.deep_view().map_values(
            |pair: (Seq<char>, UnresolvedModel)| entry_of(pair.0, pair.1),
        ),
{
    let ghost all = found.deep_view().map_values(
        |pair: (Seq<char>, UnresolvedModel)| entry_of(pair.0, pair.1),
    );
    let mut r: Vec<UnresolvedEntry> = Vec::new();
    let mut i: usize = 0;
    while i < found.len()
        invariant
            i <= found@.len(),
            all == found.deep_view().map_values(
                |pair: (Seq<char>, UnresolvedModel)| entry_of(pair.0, pair.1),
            ),
            r.deep_view() == all.take(i as int),
        decreases found@.len() - i,
    {
        let ghost before = r.deep_view();
        assert(found.deep_view()[i as int] == found@[i as int].deep_view());
        r.push(told_with(found[i].0.as_str(), &found[i].1));
        assert(r.deep_view() =~= before.push(all[i as int]));
        assert(r.deep_view() =~= all.take(i + 1));
        i = i + 1;
    }
    assert(all.take(i as int) =~= all);
    r
}

fn copy_of(require: &UnresolvedRequire) -> (r: UnresolvedRequire)
    ensures
        r.deep_view() == require.deep_view(),
{
    UnresolvedRequire {
        line: require.line,
        expression: require.expression.clone(),
        reason: require.reason.clone(),
    }
}

/// The first of a module's unresolved requires, at most `limit` of them.
pub fn module_entries(module: &Module, limit: usize) -> (r: Vec<UnresolvedEntry>)
    ensures
        r.deep_view() == (if module.unresolved@.len() <= limit {
            entries_of_module(module.deep_view())
        } else {
            entries_of_module(module.deep_view()).take(limit as int)
        }),
{
    let ghost all = entries_of_module(module.deep_view());
    let mut found: Vec<UnresolvedEntry> = Vec::new();
    let mut i: usize = 0;
    while i < module.unresolved.len() && i < limit
        invariant
            i <= module.unresolved@.len(),
            i <= limit,
            all == entries_of_module(module.deep_view()),
            found.deep_view() == all.take(i as int),
        decreases module.unresolved@.len() - i,
    {
        let ghost before = found.deep_view();
        assert(module.deep_view().unresolved[i as int] == module.unresolved@[i as int].deep_view());
        found.push(told_with(module.relative_path.as_str(), &module.unresolved[i]));
        assert(found.deep_view() =~= before.push(all[i as int]));
        assert(found.deep_view() =~= all.take(i + 1));
        i = i + 1;
    }
    assert(all.len() == module.unresolved@.len());
    assert(all.take(all.len() as int) =~= all);
    found
}

proof fn pairs_grow(g: Seq<ModuleModel>, m: int, n: int)
    requires
        0 <= m <= n <= g.len(),
    ensures
        pairs_of_graph(g, m).len() <= pairs_of_graph(g, n).len(),
        forall|k: int|
            0 <= k < pairs_of_graph(g, m).len() ==> pairs_of_graph(g, m)[k]
                == pairs_of_graph(g, n)[k],
    decreases n,
{
    if m < n {
        pairs_grow(g, m, n - 1);
    }
}

impl RequireGraph {
    /// Every require in the project that resolved to nothing, told with the file that wrote it; at
    /// most `limit` of them, and whether any was left out.
    pub fn all_unresolved(&self, limit: usize) -> (r: (Vec<(String, UnresolvedRequire)>, bool))
        ensures
            r.0.deep_view() == limited_pairs(self@, limit as int),
            r.1 == (pairs_of_graph(self@, self@.len() as int).len() > limit),
    {
        let ghost g = self@;
        let ghost whole = pairs_of_graph(g, g.len() as int);
        let mut found: Vec<(String, UnresolvedRequire)> = Vec::new();
        let mut i: usize = 0;
        assert(found.deep_view() =~= pairs_of_graph(g, 0));
        while i < self.modules.len()
            invariant
                i <= g.len(),
                g == self@,
                g.len() == self.modules@.len(),
                whole == pairs_of_graph(g, g.len() as int),
                found.deep_view() == pairs_of_graph(g, i as int),
                found@.len() <= limit,
            decreases g.len() - i,
        {
            let module = &self.modules[i];
            assert(module.deep_view() == g[i as int]);
            let ghost before = found.deep_view();
            let ghost here = pairs_of_module(g[i as int]);
            let mut k: usize = 0;
            assert(before + here.take(0) =~= before);
            while k < module.unresolved.len()
                invariant
                    k <= module.unresolved@.len(),
                    i < g.len(),
                    g == self@,
                    module.deep_view() == g[i as int],
                    here == pairs_of_module(g[i as int]),
                    before == pairs_of_graph(g, i as int),
                    whole == pairs_of_graph(g, g.len() as int),
                    found.deep_view() == before + here.take(k as int),
                    found@.len() <= limit,
                decreases module.unresolved@.len() - k,
            {
                assert(found.deep_view().len() == found@.len());
                if found.len() >= limit {
                    proof {
                        pairs_grow(g, i + 1, g.len() as int);
                        let upto = pairs_of_graph(g, i + 1);
                        assert(here.len() == module.unresolved@.len());
                        assert(upto =~= before + here);
                        assert forall|j: int| 0 <= j < found@.len() implies found.deep_view()[j]
                            == whole[j] by {
                            assert(upto[j] == (before + here.take(k as int))[j]);
                        }
                        assert(found.deep_view() =~= whole.take(limit as int));
                    }
                    return (found, true);
                }
                let ghost had = found.deep_view();
                assert(g[i as int].unresolved[k as int]
                    == module.unresolved@[k as int].deep_view());
                found.push((module.relative_path.clone(), copy_of(&module.unresolved[k])));
                assert(found.deep_view() =~= had.push(here[k as int]));
                assert(had.push(here[k as int]) =~= before + here.take(k + 1));
                k = k + 1;
            }
            assert(here.take(k as int) =~= here);
            i = i + 1;
        }
        assert(found.deep_view().len() == found@.len());
        (found, false)
    }

    /// Answers a question about the graph; `now_nanos` is the time it is asked.
    pub fn answer(&self, request: &GraphRequest<'_>, sourcemap: &Sourcemap, now_nanos: i128) -> (r:
        Result<GraphAnswer, Failure>)
        requires
            self.wf(),
        ensures
            ({
                let expected = graph_answer(
                    self@,
                    request.relative_path.deep_view(),
                    request.directions@,
                    request.depth as int,
                    request.include_cycles,
                    request.include_unresolved,
                    request.limit as int,
                    reference_model(
                        sourcemap.path_model(),
                        sourcemap.stamp_model(),
                        sourcemap@.len() as int,
                        now_nanos as int,
                    ),
                );
                match r {
                    Ok(answer) => expected == Ok::<GraphAnswerModel, FailureModel>(
                        answer.deep_view(),
                    ),
                    Err(failure) => expected == Err::<GraphAnswerModel, FailureModel>(
                        failure.deep_view(),
                    ),
                }
            }),
    {
        let ghost g = self@;
        let mut truncated = false;
        let mut relative_path: Option<String> = None;
        let mut instance_path: Option<String> = None;
        let mut dependencies: Option<Vec<ReachedModule>> = None;
        let mut dependents: Option<Vec<ReachedModule>> = None;
        let mut unresolved: Vec<UnresolvedEntry> = Vec::new();
        assert(unresolved.deep_view() =~= Seq::empty());
        match request.relative_path {
            Some(relative) => {
                let index = match self.find(relative) {
                    Some(index) => index,
                    None => {
                        let mut message = owned("no Luau file at ");
                        message.append(relative);
                        return Err(
                            hinted(
                                message,
                                "pass a path to a .luau or .lua file relative to the project root, or omit relative_path for a project-wide answer",
                            ),
                        );
                    },
                };
                let module = self.module(index);
                if asks_for(&request.directions, Direction::Dependencies) {
                    let (reached, cut) = self.walk(
                        index,
                        Direction::Dependencies,
                        request.depth,
                        request.limit,
                    );
                    truncated = truncated || cut;
                    dependencies = Some(reached);
                }
                if asks_for(&request.directions, Direction::Dependents) {
                    let (reached, cut) = self.walk(
                        index,
                        Direction::Dependents,
                        request.depth,
                        request.limit,
                    );
                    truncated = truncated || cut;
                    dependents = Some(reached);
                }
                if request.include_unresolved {
                    unresolved = module_entries(module, module.unresolved.len());
                }
                relative_path = Some(module.relative_path.clone());
                instance_path = owned_option(&module.instance_path);
            },
            None => {
                if request.include_unresolved {
                    let (found, cut) = self.all_unresolved(request.limit);
                    truncated = truncated || cut;
                    unresolved = told(&found);
                }
            },
        }
        let mut cycles: Option<Vec<Vec<String>>> = None;
        if request.include_cycles {
            let (found, cut) = self.cycles(request.limit);
            truncated = truncated || cut;
            cycles = Some(found);
        }
        Ok(
            GraphAnswer {
                relative_path,
                instance_path,
                modules_scanned: self.len(),
                dependencies,
                dependents,
                unresolved,
                cycles,
                truncated,
                sourcemap: sourcemap.reference(now_nanos),
            },
        )
    }
}

} // verus!
