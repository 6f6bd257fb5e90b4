//! Directed graphs and a depth-first visitor that reports cycles and missing nodes.
use std::collections::{HashMap, HashSet};
use vstd::prelude::*;

verus! {

broadcast use vstd::std_specs::hash::group_hash_axioms;

/// Successors of a node, as answered by a graph.
pub enum Output<T> {
    Edges(T),
    Empty,
    Missing,
}

/// A failure met while visiting a graph.
pub enum GraphError {
    Cycle(Vec<usize>),
    Missing(usize),
}

/// Mathematical view of a `GraphError`.
pub ghost enum Fault {
    Cycle(Seq<usize>),
    Missing(usize),
}

impl View for GraphError {
    type V = Fault;

    open spec fn view(&self) -> Fault {
        match self {
            GraphError::Cycle(nodes) => Fault::Cycle(nodes@),
            GraphError::Missing(node) => Fault::Missing(*node),
        }
    }
}

pub open spec fn result_view(r: Result<(), GraphError>) -> Result<(), Fault> {
    match r {
        Ok(()) => Ok(()),
        Err(e) => Err(e@),
    }
}

} // verus!

verus! {

/// A directed graph whose nodes are `usize` identifiers.
pub trait DiGraph {
    /// The successors of each node of the graph, in order; a node outside the
    /// domain is missing from the graph.
    spec fn adjacency(&self) -> Map<usize, Seq<usize>>;

    proof fn lemma_finite(&self)
        ensures
            self.adjacency().dom().finite(),
    ;

    fn edges<'a>(&'a self, node: usize) -> (out: Output<&'a Vec<usize>>)
        ensures
            match out {
                Output::Edges(edges) => self.adjacency().contains_key(node)
                    && edges@ == self.adjacency()[node]
                    && edges@.len() > 0,
                Output::Empty => self.adjacency().contains_key(node)
                    && self.adjacency()[node].len() == 0,
                Output::Missing => !self.adjacency().contains_key(node),
            },
    ;
}

/// An action applied to each node once its successors have been visited. Its
/// state is known by its view.
pub trait NodeAction: View + Sized {
    /// The answer of the action for `node`, in state `state`.
    spec fn outcome(state: Self::V, node: usize) -> Result<(), Fault>;

    /// The state of the action once it has acted on `node`, from `state`.
    spec fn after(state: Self::V, node: usize) -> Self::V;

    fn node_action(&mut self, node: usize) -> (r: Result<(), GraphError>)
        ensures
            result_view(r) == Self::outcome(old(self)@, node),
            final(self)@ == Self::after(old(self)@, node),
    ;
}

/// The state reached by a depth-first traversal: the visited nodes, the
/// action's state, the nodes acted upon (in order) and the outcome.
pub ghost struct Traversal<S> {
    pub visited: Set<usize>,
    pub action: S,
    pub acted: Seq<usize>,
    pub result: Result<(), Fault>,
}

/// The cycle closed by an edge from the last node of `path` to `w`, a node of
/// `path`: the part of `path` after `w`, followed by `w`. When `w` is the
/// last node of `path` (a self-loop), the whole `path` followed by `w`.
pub open spec fn cycle_of(path: Seq<usize>, w: usize) -> Seq<usize> {
    let i = path.index_of(w);
    if i + 1 < path.len() {
        path.subrange(i + 1, path.len() as int).push(w)
    } else {
        path.push(w)
    }
}

/// Number of nodes of the graph not yet visited.
pub open spec fn unvisited(g: Map<usize, Seq<usize>>, visited: Set<usize>) -> nat {
    (g.dom() - visited).len()
}

/// Depth-first visit of `node`, reached along `path`, with `visited` the nodes
/// already visited and `a` the action's state.
pub open spec fn visit_node<A: NodeAction>(
    g: Map<usize, Seq<usize>>,
    visited: Set<usize>,
    path: Seq<usize>,
    node: usize,
    a: A::V,
) -> Traversal<A::V>
    decreases unvisited(g, visited), if visited.contains(node) { 2nat } else { 0nat }, 0nat,
    when g.dom().finite()
{
    let v = visited.insert(node);
    if !g.contains_key(node) {
        Traversal { visited: v, action: a, acted: seq![], result: Err(Fault::Missing(node)) }
    } else {
        proof {
            if !visited.contains(node) {
                assert((g.dom() - v) =~= (g.dom() - visited).remove(node));
            } else {
                assert(v =~= visited);
            }
        }
        let t = visit_edges::<A>(g, v, path.push(node), g[node], 0, a);
        if t.result is Err {
            t
        } else {
            Traversal {
                visited: t.visited,
                action: A::after(t.action, node),
                acted: t.acted.push(node),
                result: A::outcome(t.action, node),
            }
        }
    }
}

/// Depth-first visit of the successors `edges[i..]` of the last node of `path`.
pub open spec fn visit_edges<A: NodeAction>(
    g: Map<usize, Seq<usize>>,
    visited: Set<usize>,
    path: Seq<usize>,
    edges: Seq<usize>,
    i: nat,
    a: A::V,
) -> Traversal<A::V>
    decreases unvisited(g, visited), 1nat, edges.len() - i,
    when g.dom().finite()
{
    if i >= edges.len() {
        Traversal { visited, action: a, acted: seq![], result: Ok(()) }
    } else {
        let w = edges[i as int];
        if !visited.contains(w) {
            let t = visit_node::<A>(g, visited, path, w, a);
            if t.result is Err {
                t
            } else {
                let v = t.visited + visited;
                proof {
                    vstd::set_lib::lemma_len_subset(g.dom() - v, g.dom() - visited);
                }
                let u = visit_edges::<A>(g, v, path, edges, i + 1, t.action);
                Traversal { visited: u.visited, action: u.action, acted: t.acted + u.acted, result: u.result }
            }
        } else if path.contains(w) {
            Traversal { visited, action: a, acted: seq![], result: Err(Fault::Cycle(cycle_of(path, w))) }
        } else {
            visit_edges::<A>(g, visited, path, edges, i + 1, a)
        }
    }
}

} // verus!

verus! {

/// Traversals only ever add to the visited nodes.
proof fn lemma_visit_node_grows<A: NodeAction>(
    g: Map<usize, Seq<usize>>,
    visited: Set<usize>,
    path: Seq<usize>,
    node: usize,
    a: A::V,
)
    requires
        g.dom().finite(),
    ensures
        visited.insert(node) <= visit_node::<A>(g, visited, path, node, a).visited,
    decreases unvisited(g, visited), if visited.contains(node) { 2nat } else { 0nat }, 0nat,
{
    let v = visited.insert(node);
    if g.contains_key(node) {
        if !visited.contains(node) {
            assert((g.dom() - v) =~= (g.dom() - visited).remove(node));
        } else {
            assert(v =~= visited);
        }
        lemma_visit_edges_grows::<A>(g, v, path.push(node), g[node], 0, a);
    }
}

proof fn lemma_visit_edges_grows<A: NodeAction>(
    g: Map<usize, Seq<usize>>,
    visited: Set<usize>,
    path: Seq<usize>,
    edges: Seq<usize>,
    i: nat,
    a: A::V,
)
    requires
        g.dom().finite(),
    ensures
        visited <= visit_edges::<A>(g, visited, path, edges, i, a).visited,
    decreases unvisited(g, visited), 1nat, edges.len() - i,
{
    if i < edges.len() {
        let w = edges[i as int];
        if !visited.contains(w) {
            let t = visit_node::<A>(g, visited, path, w, a);
            lemma_visit_node_grows::<A>(g, visited, path, w, a);
            if t.result is Ok {
                let v = t.visited + visited;
                vstd::set_lib::lemma_len_subset(g.dom() - v, g.dom() - visited);
                lemma_visit_edges_grows::<A>(g, v, path, edges, i + 1, t.action);
            }
        } else if !path.contains(w) {
            lemma_visit_edges_grows::<A>(g, visited, path, edges, i + 1, a);
        }
    }
}

} // verus!

verus! {

/// The cycle closed by an edge from the last node of `path` to `w`.
fn close_cycle(path: &Vec<usize>, w: usize) -> (nodes: Vec<usize>)
    requires
        path@.no_duplicates(),
        path@.contains(w),
    ensures
        nodes@ == cycle_of(path@, w),
{
    let mut i: usize = 0;
    while path[i] != w
        invariant
            0 <= i < path.len(),
            path@.contains(w),
            forall|k: int| 0 <= k < i ==> path@[k] != w,
        decreases path.len() - i,
    {
        i = i + 1;
    }
    assert(path@.index_of(w) == i as int);
    let mut nodes: Vec<usize> = Vec::new();
    let start: usize = if i + 1 < path.len() { i + 1 } else { 0 };
    let mut k: usize = start;
    while k < path.len()
        invariant
            start <= k <= path.len(),
            nodes@ == path@.subrange(start as int, k as int),
        decreases path.len() - k,
    {
        nodes.push(path[k]);
        k = k + 1;
    }
    nodes.push(w);
    proof {
        if i + 1 >= path.len() {
            assert(path@.subrange(0, path.len() as int) =~= path@);
        }
    }
    nodes
}

/// Whether `w` is a node of `path`.
fn path_contains(path: &Vec<usize>, w: usize) -> (b: bool)
    ensures
        b == path@.contains(w),
{
    let mut i: usize = 0;
    while i < path.len()
        invariant
            0 <= i <= path.len(),
            forall|k: int| 0 <= k < i ==> path@[k] != w,
        decreases path.len() - i,
    {
        if path[i] == w {
            return true;
        }
        i = i + 1;
    }
    false
}

} // verus!

verus! {

/// A depth-first graph visitor, remembering the nodes it has visited.
pub struct Visitor<'a, G: DiGraph> {
    graph: &'a G,
    visited: HashSet<usize>,
}

impl<'a, G: DiGraph> Visitor<'a, G> {
    /// The graph being visited.
    pub closed spec fn adjacency(&self) -> Map<usize, Seq<usize>> {
        self.graph.adjacency()
    }

    /// The nodes visited so far.
    pub closed spec fn visited(&self) -> Set<usize> {
        self.visited@
    }

    pub fn new(graph: &'a G) -> (visitor: Self)
        ensures
            visitor.adjacency() == graph.adjacency(),
            visitor.visited() == Set::<usize>::empty(),
    {
        Self { graph, visited: HashSet::new() }
    }

    /// Visits `node` depth-first, applying `action` to each node once all its
    /// successors have been visited. The visit stops at the first missing
    /// node, cycle or failing action.
    pub fn visit<A: NodeAction>(&mut self, node: &usize, action: &mut A) -> (r: Result<
        (),
        GraphError,
    >)
        ensures
            final(self).adjacency() == old(self).adjacency(),
            ({
                let t = visit_node::<A>(
                    old(self).adjacency(),
                    old(self).visited(),
                    seq![],
                    *node,
                    old(action)@,
                );
                &&& final(self).visited() == t.visited
                &&& final(action)@ == t.action
                &&& result_view(r) == t.result
            }),
    {
        let mut path: Vec<usize> = Vec::new();
        self.visit1(*node, action, &mut path)
    }

    fn visit1<A: NodeAction>(&mut self, node: usize, action: &mut A, path: &mut Vec<usize>) -> (r:
        Result<(), GraphError>)
        requires
            old(path)@.no_duplicates(),
            forall|k: int| 0 <= k < old(path)@.len() ==> old(self).visited@.contains(old(path)@[k]),
            !old(path)@.contains(node),
        ensures
            final(self).graph == old(self).graph,
            ({
                let t = visit_node::<A>(
                    old(self).graph.adjacency(),
                    old(self).visited@,
                    old(path)@,
                    node,
                    old(action)@,
                );
                &&& final(self).visited@ == t.visited
                &&& final(action)@ == t.action
                &&& result_view(r) == t.result
            }),
            r is Ok ==> final(path)@ == old(path)@,
        decreases unvisited(old(self).graph.adjacency(), old(self).visited@),
            if old(self).visited@.contains(node) { 2nat } else { 0nat },
    {
        let ghost g = self.graph.adjacency();
        let ghost v0 = self.visited@;
        let ghost p0 = path@;
        let ghost a0 = action@;
        let ghost gr = self.graph;
        proof {
            self.graph.lemma_finite();
        }
        self.visited.insert(node);
        let ghost v1 = self.visited@;
        match self.graph.edges(node) {
            Output::Missing => {
                return Err(GraphError::Missing(node));
            },
            Output::Empty => {
                assert(visit_edges::<A>(g, v1, p0.push(node), g[node], 0, a0).result is Ok);
            },
            Output::Edges(edges) => {
                proof {
                    if !v0.contains(node) {
                        assert((g.dom() - v1) =~= (g.dom() - v0).remove(node));
                    } else {
                        assert(v1 =~= v0);
                    }
                }
                path.push(node);
                let ghost p1 = path@;
                let mut i: usize = 0;
                while i < edges.len()
                    invariant
                        g.dom().finite(),
                        self.graph.adjacency() == g,
                        self.graph == gr,
                        old(self).graph == gr,
                        old(self).visited@ == v0,
                        old(path)@ == p0,
                        old(action)@ == a0,
                        p1 == p0.push(node),
                        g.contains_key(node),
                        v1 == v0.insert(node),
                        path@ == p1,
                        p1.no_duplicates(),
                        edges@ == g[node],
                        0 <= i <= edges.len(),
                        v1 <= self.visited@,
                        forall|k: int| 0 <= k < p1.len() ==> self.visited@.contains(p1[k]),
                        unvisited(g, self.visited@) <= unvisited(g, v1),
                        v0.contains(node) ==> unvisited(g, v1) == unvisited(g, v0),
                        !v0.contains(node) ==> unvisited(g, v1) < unvisited(g, v0),
                        ({
                            let t0 = visit_edges::<A>(g, v1, p1, edges@, 0, a0);
                            let ti = visit_edges::<A>(g, self.visited@, p1, edges@, i as nat, action@);
                            &&& t0.visited == ti.visited
                            &&& t0.action == ti.action
                            &&& t0.result == ti.result
                        }),
                    decreases edges.len() - i,
                {
                    let w = edges[i];
                    let ghost vi = self.visited@;
                    let ghost ai = action@;
                    if !self.visited.contains(&w) {
                        proof {
                            lemma_visit_node_grows::<A>(g, vi, p1, w, ai);
                        }
                        let r = self.visit1(w, action, path);
                        proof {
                            let t = visit_node::<A>(g, vi, p1, w, ai);
                            assert(t.visited + vi =~= t.visited);
                            vstd::set_lib::lemma_len_subset(g.dom() - t.visited, g.dom() - vi);
                        }
                        if r.is_err() {
                            assert(visit_edges::<A>(g, vi, p1, edges@, i as nat, ai).result is Err);
                            assert(visit_node::<A>(g, v0, p0, node, a0) == visit_edges::<A>(g, v1, p1, edges@, 0, a0));
                            return r;
                        }
                    } else if path_contains(path, w) {
                        let nodes = close_cycle(path, w);
                        assert(visit_edges::<A>(g, vi, p1, edges@, i as nat, ai).result == Err::<(), Fault>(Fault::Cycle(nodes@)));
                        assert(visit_node::<A>(g, v0, p0, node, a0) == visit_edges::<A>(g, v1, p1, edges@, 0, a0));
                        return Err(GraphError::Cycle(nodes));
                    }
                    i = i + 1;
                }
                path.pop();
                assert(path@ =~= p0);
            },
        }
        action.node_action(node)
    }
}

} // verus!

verus! {

/// An action collecting the nodes it is applied to, in order.
pub struct Collector(pub Vec<usize>);

impl Collector {
    pub fn new() -> (collector: Self)
        ensures
            collector@ == Seq::<usize>::empty(),
    {
        Self(Vec::new())
    }
}

impl View for Collector {
    type V = Seq<usize>;

    open spec fn view(&self) -> Seq<usize> {
        self.0@
    }
}

impl NodeAction for Collector {
    open spec fn outcome(state: Seq<usize>, node: usize) -> Result<(), Fault> {
        Ok(())
    }

    open spec fn after(state: Seq<usize>, node: usize) -> Seq<usize> {
        state.push(node)
    }

    fn node_action(&mut self, node: usize) -> (r: Result<(), GraphError>) {
        self.0.push(node);
        Ok(())
    }
}

/// An action that does nothing.
pub struct Nothing;

impl View for Nothing {
    type V = ();

    open spec fn view(&self) -> () {
        ()
    }
}

impl NodeAction for Nothing {
    open spec fn outcome(state: (), node: usize) -> Result<(), Fault> {
        Ok(())
    }

    open spec fn after(state: (), node: usize) -> () {
        ()
    }

    fn node_action(&mut self, node: usize) -> (r: Result<(), GraphError>) {
        Ok(())
    }
}

/// A graph given by the successors of each of its nodes.
pub struct HashGraph(pub HashMap<usize, Vec<usize>>);

impl DiGraph for HashGraph {
    open spec fn adjacency(&self) -> Map<usize, Seq<usize>> {
        self.0@.map_values(|edges: Vec<usize>| edges@)
    }

    proof fn lemma_finite(&self) {
        assert(self.0@.dom().finite());
        assert(self.adjacency().dom() =~= self.0@.dom());
    }

    fn edges<'a>(&'a self, node: usize) -> (out: Output<&'a Vec<usize>>) {
        match self.0.get(&node) {
            Some(edges) => if edges.len() == 0 {
                Output::Empty
            } else {
                Output::Edges(edges)
            },
            None => Output::Missing,
        }
    }
}

} // verus!

verus! {

/// The nodes of `order` are nodes of the graph, each successor of a node of
/// `order` comes before it in `order`, and no node occurs twice.
pub open spec fn is_postorder(g: Map<usize, Seq<usize>>, order: Seq<usize>) -> bool {
    &&& order.no_duplicates()
    &&& forall|i: int| 0 <= i < order.len() ==> g.contains_key(#[trigger] order[i])
    &&& forall|i: int, w: usize|
        0 <= i < order.len() && g[order[i]].contains(w) ==> #[trigger] order.subrange(0, i).contains(w)
}

proof fn lemma_postorder_push(g: Map<usize, Seq<usize>>, order: Seq<usize>, node: usize)
    requires
        is_postorder(g, order),
        !order.contains(node),
        g.contains_key(node),
        forall|w: usize| g[node].contains(w) ==> order.contains(w),
    ensures
        is_postorder(g, order.push(node)),
{
    let o = order.push(node);
    assert forall|i: int, w: usize|
        0 <= i < o.len() && g[o[i]].contains(w) implies #[trigger] o.subrange(0, i).contains(w) by {
        if i < order.len() {
            assert(o.subrange(0, i) =~= order.subrange(0, i));
        } else {
            assert(o.subrange(0, i) =~= order);
        }
    }
}

proof fn lemma_postorder_node<A: NodeAction>(
    g: Map<usize, Seq<usize>>,
    visited: Set<usize>,
    path: Seq<usize>,
    done: Seq<usize>,
    node: usize,
    a: A::V,
)
    requires
        g.dom().finite(),
        path.no_duplicates(),
        is_postorder(g, done),
        path.disjoint(done),
        forall|x: usize| visited.contains(x) <==> (path.contains(x) || done.contains(x)),
        !visited.contains(node),
    ensures
        ({
            let t = visit_node::<A>(g, visited, path, node, a);
            t.result is Ok ==> {
                &&& is_postorder(g, done + t.acted)
                &&& path.disjoint(done + t.acted)
                &&& (done + t.acted).contains(node)
                &&& t.acted.len() > 0 && t.acted.last() == node
                &&& forall|x: usize| t.visited.contains(x) <==> (path.contains(x) || (done + t.acted).contains(x))
            }
        }),
    decreases unvisited(g, visited), 0nat, 0nat,
{
    let v = visited.insert(node);
    if g.contains_key(node) {
        assert((g.dom() - v) =~= (g.dom() - visited).remove(node));
        let p1 = path.push(node);
        assert(p1.no_duplicates()) by {
            assert forall|i: int, j: int| 0 <= i < p1.len() && 0 <= j < p1.len() && i != j implies p1[i] != p1[j] by {
                if i < path.len() && j < path.len() {
                } else if i < path.len() {
                    assert(path.contains(path[i]));
                } else {
                    assert(path.contains(path[j]));
                }
            }
        }
        assert(p1.disjoint(done)) by {
            assert forall|i: int, j: int| 0 <= i < p1.len() && 0 <= j < done.len() implies p1[i] != done[j] by {
                if i == path.len() {
                    assert(done.contains(done[j]));
                }
            }
        }
        assert forall|x: usize| v.contains(x) <==> (p1.contains(x) || done.contains(x)) by {
            if x == node {
                assert(p1[path.len() as int] == node);
            }
            if p1.contains(x) && x != node {
                let k = choose|k: int| 0 <= k < p1.len() && p1[k] == x;
                assert(path[k] == x);
            }
            if path.contains(x) {
                let k = choose|k: int| 0 <= k < path.len() && path[k] == x;
                assert(p1[k] == x);
            }
        }
        lemma_postorder_edges::<A>(g, v, p1, done, g[node], 0, a);
        let t = visit_edges::<A>(g, v, p1, g[node], 0, a);
        if t.result is Ok {
            let d1 = done + t.acted;
            assert(!d1.contains(node)) by {
                if d1.contains(node) {
                    let k = choose|k: int| 0 <= k < d1.len() && d1[k] == node;
                    assert(p1[path.len() as int] == node);
                }
            }
            assert forall|w: usize| g[node].contains(w) implies d1.contains(w) by {
                let k = choose|k: int| 0 <= k < g[node].len() && g[node][k] == w;
                assert(g[node].subrange(0, g[node].len() as int) =~= g[node]);
            }
            lemma_postorder_push(g, d1, node);
            assert(done + t.acted.push(node) =~= d1.push(node));
            let d2 = d1.push(node);
            assert(path.disjoint(d2)) by {
                assert forall|i: int, j: int| 0 <= i < path.len() && 0 <= j < d2.len() implies path[i] != d2[j] by {
                    if j < d1.len() {
                        assert(p1[i] == path[i]);
                    } else {
                        assert(path.contains(path[i]));
                    }
                }
            }
            assert(d2[d1.len() as int] == node);
            assert forall|x: usize| t.visited.contains(x) <==> (path.contains(x) || d2.contains(x)) by {
                if p1.contains(x) {
                    let k = choose|k: int| 0 <= k < p1.len() && p1[k] == x;
                    if k < path.len() {
                        assert(path[k] == x);
                    }
                }
                if d2.contains(x) {
                    let k = choose|k: int| 0 <= k < d2.len() && d2[k] == x;
                    if k < d1.len() {
                        assert(d1[k] == x);
                    }
                }
                if d1.contains(x) {
                    let k = choose|k: int| 0 <= k < d1.len() && d1[k] == x;
                    assert(d2[k] == x);
                }
                if path.contains(x) {
                    let k = choose|k: int| 0 <= k < path.len() && path[k] == x;
                    assert(p1[k] == x);
                }
            }
        }
    }
}

proof fn lemma_postorder_edges<A: NodeAction>(
    g: Map<usize, Seq<usize>>,
    visited: Set<usize>,
    path: Seq<usize>,
    done: Seq<usize>,
    edges: Seq<usize>,
    i: nat,
    a: A::V,
)
    requires
        g.dom().finite(),
        path.no_duplicates(),
        is_postorder(g, done),
        path.disjoint(done),
        forall|x: usize| visited.contains(x) <==> (path.contains(x) || done.contains(x)),
        i <= edges.len(),
        forall|k: int| 0 <= k < i ==> done.contains(#[trigger] edges[k]),
    ensures
        ({
            let t = visit_edges::<A>(g, visited, path, edges, i, a);
            t.result is Ok ==> {
                &&& is_postorder(g, done + t.acted)
                &&& path.disjoint(done + t.acted)
                &&& forall|k: int| 0 <= k < edges.len() ==> (done + t.acted).contains(#[trigger] edges[k])
                &&& forall|x: usize| t.visited.contains(x) <==> (path.contains(x) || (done + t.acted).contains(x))
            }
        }),
    decreases unvisited(g, visited), 1nat, edges.len() - i,
{
    let t = visit_edges::<A>(g, visited, path, edges, i, a);
    if i >= edges.len() {
        assert(done + t.acted =~= done);
    } else {
        let w = edges[i as int];
        if !visited.contains(w) {
            lemma_postorder_node::<A>(g, visited, path, done, w, a);
            let t1 = visit_node::<A>(g, visited, path, w, a);
            if t1.result is Ok {
                let v = t1.visited + visited;
                vstd::set_lib::lemma_len_subset(g.dom() - v, g.dom() - visited);
                let d1 = done + t1.acted;
                assert forall|k: int| 0 <= k < i + 1 implies d1.contains(#[trigger] edges[k]) by {
                    if k < i {
                        let j = choose|j: int| 0 <= j < done.len() && done[j] == edges[k];
                        assert(d1[j] == edges[k]);
                    }
                }
                assert forall|x: usize| v.contains(x) <==> (path.contains(x) || d1.contains(x)) by {
                    if done.contains(x) {
                        let j = choose|j: int| 0 <= j < done.len() && done[j] == x;
                        assert(d1[j] == x);
                    }
                }
                lemma_postorder_edges::<A>(g, v, path, d1, edges, i + 1, t1.action);
                let u = visit_edges::<A>(g, v, path, edges, i + 1, t1.action);
                assert(d1 + u.acted =~= done + (t1.acted + u.acted));
            }
        } else if !path.contains(w) {
            assert(done.contains(w));
            assert forall|k: int| 0 <= k < i + 1 implies done.contains(#[trigger] edges[k]) by {}
            lemma_postorder_edges::<A>(g, visited, path, done, edges, i + 1, a);
        }
    }
}

/// Law: when a depth-first visit from `start`, with nothing visited before,
/// succeeds, the nodes acted upon are a post-order of the graph ending with
/// `start`: each node comes after all its successors, and none twice.
pub proof fn law_visit_postorder<A: NodeAction>(g: Map<usize, Seq<usize>>, start: usize, a: A::V)
    requires
        g.dom().finite(),
    ensures
        ({
            let t = visit_node::<A>(g, Set::empty(), seq![], start, a);
            t.result is Ok ==> {
                &&& is_postorder(g, t.acted)
                &&& t.acted.len() > 0
                &&& t.acted.last() == start
            }
        }),
{
    let empty = Seq::<usize>::empty();
    lemma_postorder_node::<A>(g, Set::empty(), empty, empty, start, a);
    let t = visit_node::<A>(g, Set::empty(), empty, start, a);
    assert(empty + t.acted =~= t.acted);
}

} // verus!

verus! {

/// Consecutive nodes of `nodes` are joined by edges of the graph.
pub open spec fn is_walk(g: Map<usize, Seq<usize>>, nodes: Seq<usize>) -> bool {
    forall|k: int|
        0 <= k < nodes.len() - 1 ==> g.contains_key(#[trigger] nodes[k]) && g[nodes[k]].contains(
            nodes[k + 1],
        )
}

/// The action never fails.
pub open spec fn never_fails<A: NodeAction>() -> bool {
    forall|s: A::V, n: usize| #[trigger] A::outcome(s, n) is Ok
}

/// What holds of each fault a traversal from `path` can report.
pub open spec fn fault_is_sound(
    g: Map<usize, Seq<usize>>,
    path: Seq<usize>,
    start: usize,
    visited: Set<usize>,
    result: Result<(), Fault>,
) -> bool {
    match result {
        Ok(()) => true,
        Err(Fault::Cycle(nodes)) => {
            &&& nodes.len() >= 2
            &&& is_walk(g, nodes)
            &&& (nodes.last() != nodes[nodes.len() - 2] ==> g[nodes.last()].contains(nodes[0]))
        },
        Err(Fault::Missing(m)) => {
            &&& !g.contains_key(m)
            &&& visited.contains(m)
            &&& (m == start || exists|u: usize|
                #![trigger g[u].contains(m)]
                visited.contains(u) && g.contains_key(u) && g[u].contains(m))
        },
    }
}

proof fn lemma_faults_node<A: NodeAction>(
    g: Map<usize, Seq<usize>>,
    visited: Set<usize>,
    path: Seq<usize>,
    node: usize,
    start: usize,
    a: A::V,
)
    requires
        g.dom().finite(),
        never_fails::<A>(),
        is_walk(g, path),
        path.len() == 0 ==> node == start,
        path.len() > 0 ==> path[0] == start,
        path.len() > 0 ==> g.contains_key(path.last()) && g[path.last()].contains(node),
        forall|k: int| 0 <= k < path.len() ==> visited.contains(#[trigger] path[k]),
    ensures
        ({
            let t = visit_node::<A>(g, visited, path, node, a);
            fault_is_sound(g, path, start, t.visited, t.result)
        }),
    decreases unvisited(g, visited), if visited.contains(node) { 2nat } else { 0nat }, 0nat,
{
    let v = visited.insert(node);
    lemma_visit_node_grows::<A>(g, visited, path, node, a);
    if !g.contains_key(node) {
        if path.len() > 0 {
            assert(visited.contains(path[path.len() - 1]));
        }
    } else {
        if !visited.contains(node) {
            assert((g.dom() - v) =~= (g.dom() - visited).remove(node));
        } else {
            assert(v =~= visited);
        }
        let p1 = path.push(node);
        assert(is_walk(g, p1)) by {
            assert forall|k: int| 0 <= k < p1.len() - 1 implies g.contains_key(#[trigger] p1[k])
                && g[p1[k]].contains(p1[k + 1]) by {
                if k < path.len() - 1 {
                    assert(p1[k] == path[k] && p1[k + 1] == path[k + 1]);
                }
            }
        }
        lemma_faults_edges::<A>(g, v, p1, g[node], 0, start, a);
        let t = visit_edges::<A>(g, v, p1, g[node], 0, a);
        assert(A::outcome(t.action, node) is Ok);
    }
}

proof fn lemma_faults_edges<A: NodeAction>(
    g: Map<usize, Seq<usize>>,
    visited: Set<usize>,
    path: Seq<usize>,
    edges: Seq<usize>,
    i: nat,
    start: usize,
    a: A::V,
)
    requires
        g.dom().finite(),
        never_fails::<A>(),
        is_walk(g, path),
        path.len() > 0,
        path[0] == start,
        g.contains_key(path.last()),
        edges == g[path.last()],
        forall|k: int| 0 <= k < path.len() ==> visited.contains(#[trigger] path[k]),
    ensures
        ({
            let t = visit_edges::<A>(g, visited, path, edges, i, a);
            fault_is_sound(g, path, start, t.visited, t.result)
        }),
    decreases unvisited(g, visited), 1nat, edges.len() - i,
{
    if i < edges.len() {
        let w = edges[i as int];
        assert(g[path.last()].contains(w));
        if !visited.contains(w) {
            lemma_faults_node::<A>(g, visited, path, w, start, a);
            lemma_visit_node_grows::<A>(g, visited, path, w, a);
            let t = visit_node::<A>(g, visited, path, w, a);
            if t.result is Ok {
                let v = t.visited + visited;
                vstd::set_lib::lemma_len_subset(g.dom() - v, g.dom() - visited);
                lemma_faults_edges::<A>(g, v, path, edges, i + 1, start, t.action);
                lemma_visit_edges_grows::<A>(g, v, path, edges, i + 1, t.action);
            }
        } else if path.contains(w) {
            let j = path.index_of(w);
            let c = cycle_of(path, w);
            if j + 1 < path.len() {
                let s = path.subrange(j + 1, path.len() as int);
                assert forall|k: int| 0 <= k < c.len() - 1 implies g.contains_key(#[trigger] c[k])
                    && g[c[k]].contains(c[k + 1]) by {
                    if k < s.len() - 1 {
                        assert(c[k] == path[j + 1 + k] && c[k + 1] == path[j + 1 + k + 1]);
                    } else {
                        assert(c[k] == path.last());
                    }
                }
                assert(c[0] == path[j + 1]);
                assert(g.contains_key(path[j]) && g[path[j]].contains(path[j + 1]));
            } else {
                assert forall|k: int| 0 <= k < c.len() - 1 implies g.contains_key(#[trigger] c[k])
                    && g[c[k]].contains(c[k + 1]) by {
                    if k < path.len() - 1 {
                        assert(c[k] == path[k] && c[k + 1] == path[k + 1]);
                    } else {
                        assert(c[k] == path.last());
                    }
                }
                assert(c[c.len() - 2] == path.last());
            }
        } else {
            lemma_faults_edges::<A>(g, visited, path, edges, i + 1, start, a);
        }
    }
}

/// Law: a depth-first visit from `start`, with an action that never fails,
/// reports only true faults. A reported cycle is a walk along edges of the
/// graph that closes back onto its first node, unless its last step is a
/// self-loop; a reported missing node is absent from the graph, was visited,
/// and is `start` or a successor of a visited node.
pub proof fn law_visit_faults<A: NodeAction>(g: Map<usize, Seq<usize>>, start: usize, a: A::V)
    requires
        g.dom().finite(),
        never_fails::<A>(),
    ensures
        ({
            let t = visit_node::<A>(g, Set::empty(), seq![], start, a);
            fault_is_sound(g, seq![], start, t.visited, t.result)
        }),
{
    lemma_faults_node::<A>(g, Set::empty(), seq![], start, start, a);
}

} // verus!

verus! {

proof fn lemma_collector_node(
    g: Map<usize, Seq<usize>>,
    visited: Set<usize>,
    path: Seq<usize>,
    node: usize,
    a: Seq<usize>,
)
    requires
        g.dom().finite(),
    ensures
        ({
            let t = visit_node::<Collector>(g, visited, path, node, a);
            t.action == a + t.acted
        }),
    decreases unvisited(g, visited), if visited.contains(node) { 2nat } else { 0nat }, 0nat,
{
    let v = visited.insert(node);
    if !g.contains_key(node) {
        assert(a + Seq::<usize>::empty() =~= a);
    } else {
        if !visited.contains(node) {
            assert((g.dom() - v) =~= (g.dom() - visited).remove(node));
        } else {
            assert(v =~= visited);
        }
        lemma_collector_edges(g, v, path.push(node), g[node], 0, a);
        let t = visit_edges::<Collector>(g, v, path.push(node), g[node], 0, a);
        assert(t.action.push(node) =~= a + t.acted.push(node));
    }
}

proof fn lemma_collector_edges(
    g: Map<usize, Seq<usize>>,
    visited: Set<usize>,
    path: Seq<usize>,
    edges: Seq<usize>,
    i: nat,
    a: Seq<usize>,
)
    requires
        g.dom().finite(),
    ensures
        ({
            let t = visit_edges::<Collector>(g, visited, path, edges, i, a);
            t.action == a + t.acted
        }),
    decreases unvisited(g, visited), 1nat, edges.len() - i,
{
    if i >= edges.len() {
        assert(a + Seq::<usize>::empty() =~= a);
    } else {
        let w = edges[i as int];
        if !visited.contains(w) {
            lemma_collector_node(g, visited, path, w, a);
            let t = visit_node::<Collector>(g, visited, path, w, a);
            if t.result is Ok {
                let v = t.visited + visited;
                vstd::set_lib::lemma_len_subset(g.dom() - v, g.dom() - visited);
                lemma_collector_edges(g, v, path, edges, i + 1, t.action);
                let u = visit_edges::<Collector>(g, v, path, edges, i + 1, t.action);
                assert(u.action =~= a + (t.acted + u.acted));
            }
        } else if path.contains(w) {
            assert(a + Seq::<usize>::empty() =~= a);
        } else {
            lemma_collector_edges(g, visited, path, edges, i + 1, a);
        }
    }
}

/// Law: a `Collector` used in a successful visit from `start`, with nothing
/// visited before, holds what it held followed by a post-order of the graph
/// ending with `start` (see `law_visit_postorder`): every node reachable from
/// `start`, each once, and no other.
pub proof fn law_collector_postorder(g: Map<usize, Seq<usize>>, start: usize, a: Seq<usize>)
    requires
        g.dom().finite(),
    ensures
        ({
            let t = visit_node::<Collector>(g, Set::empty(), seq![], start, a);
            &&& t.action == a + t.acted
            &&& t.result is Ok ==> is_postorder(g, t.acted) && t.acted.len() > 0 && t.acted.last() == start
            &&& t.result is Ok ==> forall|x: usize| t.acted.contains(x) <==> #[trigger] reaches(g, start, x)
        }),
{
    lemma_collector_node(g, Set::empty(), seq![], start, a);
    law_visit_postorder::<Collector>(g, start, a);
    law_visit_reachable::<Collector>(g, start, a);
}

/// Whether a walk along edges of the graph leads from `from` to `to`.
pub open spec fn reaches(g: Map<usize, Seq<usize>>, from: usize, to: usize) -> bool {
    exists|w: Seq<usize>| #[trigger] is_walk(g, w) && w.len() > 0 && w[0] == from && w.last() == to
}

proof fn lemma_reaches_self(g: Map<usize, Seq<usize>>, x: usize)
    ensures
        reaches(g, x, x),
{
    let w = seq![x];
    assert(is_walk(g, w));
}

proof fn lemma_reaches_step(g: Map<usize, Seq<usize>>, n: usize, y: usize, x: usize)
    requires
        g.contains_key(n),
        g[n].contains(y),
        reaches(g, y, x),
    ensures
        reaches(g, n, x),
{
    let w = choose|w: Seq<usize>| #[trigger] is_walk(g, w) && w.len() > 0 && w[0] == y && w.last() == x;
    let w2 = seq![n] + w;
    assert forall|k: int| 0 <= k < w2.len() - 1 implies g.contains_key(#[trigger] w2[k]) && g[w2[k]].contains(w2[k + 1]) by {
        if k == 0 {
            assert(w2[1] == w[0]);
        } else {
            assert(w2[k] == w[k - 1]);
            assert(w2[k + 1] == w[k]);
        }
    }
    assert(is_walk(g, w2));
    assert(w2.last() == w.last());
}

proof fn lemma_acted_reach_node<A: NodeAction>(
    g: Map<usize, Seq<usize>>,
    visited: Set<usize>,
    path: Seq<usize>,
    node: usize,
    a: A::V,
)
    requires
        g.dom().finite(),
    ensures
        forall|x: usize| #[trigger] visit_node::<A>(g, visited, path, node, a).acted.contains(x) ==> reaches(g, node, x),
    decreases unvisited(g, visited), if visited.contains(node) { 2nat } else { 0nat }, 0nat,
{
    let v = visited.insert(node);
    if g.contains_key(node) {
        if !visited.contains(node) {
            assert((g.dom() - v) =~= (g.dom() - visited).remove(node));
        } else {
            assert(v =~= visited);
        }
        lemma_acted_reach_edges::<A>(g, v, path.push(node), g[node], 0, a);
        let t = visit_edges::<A>(g, v, path.push(node), g[node], 0, a);
        let r = visit_node::<A>(g, visited, path, node, a);
        assert forall|x: usize| #[trigger] r.acted.contains(x) implies reaches(g, node, x) by {
            if x == node {
                lemma_reaches_self(g, x);
            } else {
                if t.result is Ok {
                    let j = choose|j: int| 0 <= j < r.acted.len() && r.acted[j] == x;
                    assert(t.acted.push(node)[j] == x);
                    assert(t.acted[j] == x);
                }
                assert(t.acted.contains(x));
                let k = choose|k: int| 0 <= k < g[node].len() && reaches(g, #[trigger] g[node][k], x);
                assert(g[node].contains(g[node][k]));
                lemma_reaches_step(g, node, g[node][k], x);
            }
        }
    }
}

proof fn lemma_acted_reach_edges<A: NodeAction>(
    g: Map<usize, Seq<usize>>,
    visited: Set<usize>,
    path: Seq<usize>,
    edges: Seq<usize>,
    i: nat,
    a: A::V,
)
    requires
        g.dom().finite(),
    ensures
        forall|x: usize| #[trigger] visit_edges::<A>(g, visited, path, edges, i, a).acted.contains(x)
            ==> exists|k: int| i <= k < edges.len() && reaches(g, #[trigger] edges[k], x),
    decreases unvisited(g, visited), 1nat, edges.len() - i,
{
    if i < edges.len() {
        let w = edges[i as int];
        let r = visit_edges::<A>(g, visited, path, edges, i, a);
        if !visited.contains(w) {
            lemma_acted_reach_node::<A>(g, visited, path, w, a);
            let t = visit_node::<A>(g, visited, path, w, a);
            if t.result is Ok {
                let v = t.visited + visited;
                vstd::set_lib::lemma_len_subset(g.dom() - v, g.dom() - visited);
                lemma_acted_reach_edges::<A>(g, v, path, edges, i + 1, t.action);
                let u = visit_edges::<A>(g, v, path, edges, i + 1, t.action);
                assert forall|x: usize| #[trigger] r.acted.contains(x)
                    implies exists|k: int| i <= k < edges.len() && reaches(g, #[trigger] edges[k], x) by {
                    let j = choose|j: int| 0 <= j < r.acted.len() && r.acted[j] == x;
                    if j < t.acted.len() {
                        assert(t.acted[j] == x);
                        assert(t.acted.contains(x));
                        assert(reaches(g, edges[i as int], x));
                    } else {
                        assert(u.acted[j - t.acted.len()] == x);
                        assert(u.acted.contains(x));
                    }
                }
            } else {
                assert forall|x: usize| #[trigger] r.acted.contains(x)
                    implies exists|k: int| i <= k < edges.len() && reaches(g, #[trigger] edges[k], x) by {
                    assert(t.acted.contains(x));
                    assert(reaches(g, edges[i as int], x));
                }
            }
        } else if !path.contains(w) {
            lemma_acted_reach_edges::<A>(g, visited, path, edges, i + 1, a);
        }
    }
}

proof fn lemma_walk_in_order(g: Map<usize, Seq<usize>>, order: Seq<usize>, w: Seq<usize>, k: int)
    requires
        is_postorder(g, order),
        is_walk(g, w),
        w.len() > 0,
        order.contains(w[0]),
        0 <= k < w.len(),
    ensures
        order.contains(w[k]),
    decreases k,
{
    if k > 0 {
        lemma_walk_in_order(g, order, w, k - 1);
        let i = choose|i: int| 0 <= i < order.len() && order[i] == w[k - 1];
        assert(g.contains_key(w[k - 1]) && g[w[k - 1]].contains(w[k]));
        assert(order.subrange(0, i).contains(w[k]));
        let j = choose|j: int| 0 <= j < i && order.subrange(0, i)[j] == w[k];
        assert(order[j] == w[k]);
    }
}

/// Law: when a depth-first visit from `start`, with nothing visited before,
/// succeeds, it acts on exactly the nodes reachable from `start`, each once.
pub proof fn law_visit_reachable<A: NodeAction>(g: Map<usize, Seq<usize>>, start: usize, a: A::V)
    requires
        g.dom().finite(),
    ensures
        ({
            let t = visit_node::<A>(g, Set::empty(), seq![], start, a);
            t.result is Ok ==> {
                &&& t.acted.no_duplicates()
                &&& forall|x: usize| t.acted.contains(x) <==> #[trigger] reaches(g, start, x)
            }
        }),
{
    law_visit_postorder::<A>(g, start, a);
    lemma_acted_reach_node::<A>(g, Set::empty(), seq![], start, a);
    let t = visit_node::<A>(g, Set::empty(), seq![], start, a);
    if t.result is Ok {
        assert(t.acted[t.acted.len() - 1] == start);
        assert(t.acted.contains(start));
        assert forall|x: usize| #[trigger] reaches(g, start, x) implies t.acted.contains(x) by {
            let w = choose|w: Seq<usize>| #[trigger] is_walk(g, w) && w.len() > 0 && w[0] == start && w.last() == x;
            lemma_walk_in_order(g, t.acted, w, w.len() - 1);
        }
    }
}

proof fn lemma_reaches_push(g: Map<usize, Seq<usize>>, start: usize, n: usize, y: usize)
    requires
        reaches(g, start, n),
        g.contains_key(n),
        g[n].contains(y),
    ensures
        reaches(g, start, y),
{
    let w = choose|w: Seq<usize>| #[trigger] is_walk(g, w) && w.len() > 0 && w[0] == start && w.last() == n;
    let w2 = w.push(y);
    assert forall|k: int| 0 <= k < w2.len() - 1 implies g.contains_key(#[trigger] w2[k]) && g[w2[k]].contains(w2[k + 1]) by {
        if k < w.len() - 1 {
            assert(w2[k] == w[k] && w2[k + 1] == w[k + 1]);
        } else {
            assert(w2[k] == n);
        }
    }
    assert(is_walk(g, w2));
}

/// Where a fault reported by a visit from `start` lies: the missing node,
/// and the node a cycle closes on, are reachable from `start`.
pub open spec fn fault_reached(g: Map<usize, Seq<usize>>, start: usize, result: Result<(), Fault>) -> bool {
    match result {
        Ok(()) => true,
        Err(Fault::Missing(m)) => reaches(g, start, m),
        Err(Fault::Cycle(ns)) => ns.len() > 0 && reaches(g, start, ns.last()) && g.contains_key(ns.last()),
    }
}

proof fn lemma_fault_reach_node<A: NodeAction>(
    g: Map<usize, Seq<usize>>,
    visited: Set<usize>,
    path: Seq<usize>,
    node: usize,
    start: usize,
    a: A::V,
)
    requires
        g.dom().finite(),
        never_fails::<A>(),
        forall|k: int| 0 <= k < path.len() ==> reaches(g, start, #[trigger] path[k]) && g.contains_key(path[k]),
        reaches(g, start, node),
    ensures
        fault_reached(g, start, visit_node::<A>(g, visited, path, node, a).result),
    decreases unvisited(g, visited), if visited.contains(node) { 2nat } else { 0nat }, 0nat,
{
    let v = visited.insert(node);
    if g.contains_key(node) {
        if !visited.contains(node) {
            assert((g.dom() - v) =~= (g.dom() - visited).remove(node));
        } else {
            assert(v =~= visited);
        }
        let p1 = path.push(node);
        assert forall|k: int| 0 <= k < p1.len() implies reaches(g, start, #[trigger] p1[k]) && g.contains_key(p1[k]) by {
            if k < path.len() {
                assert(p1[k] == path[k]);
            }
        }
        lemma_fault_reach_edges::<A>(g, v, p1, g[node], 0, start, a);
        let t = visit_edges::<A>(g, v, p1, g[node], 0, a);
        assert(A::outcome(t.action, node) is Ok);
    }
}

proof fn lemma_fault_reach_edges<A: NodeAction>(
    g: Map<usize, Seq<usize>>,
    visited: Set<usize>,
    path: Seq<usize>,
    edges: Seq<usize>,
    i: nat,
    start: usize,
    a: A::V,
)
    requires
        g.dom().finite(),
        never_fails::<A>(),
        path.len() > 0,
        forall|k: int| 0 <= k < path.len() ==> reaches(g, start, #[trigger] path[k]) && g.contains_key(path[k]),
        edges == g[path.last()],
    ensures
        fault_reached(g, start, visit_edges::<A>(g, visited, path, edges, i, a).result),
    decreases unvisited(g, visited), 1nat, edges.len() - i,
{
    if i < edges.len() {
        let w = edges[i as int];
        assert(g[path.last()].contains(w));
        assert(reaches(g, start, path[path.len() - 1]) && g.contains_key(path[path.len() - 1]));
        if !visited.contains(w) {
            lemma_reaches_push(g, start, path.last(), w);
            lemma_fault_reach_node::<A>(g, visited, path, w, start, a);
            let t = visit_node::<A>(g, visited, path, w, a);
            if t.result is Ok {
                let v = t.visited + visited;
                vstd::set_lib::lemma_len_subset(g.dom() - v, g.dom() - visited);
                lemma_fault_reach_edges::<A>(g, v, path, edges, i + 1, start, t.action);
            }
        } else if path.contains(w) {
            let j = path.index_of(w);
            assert(path[j] == w);
            let c = cycle_of(path, w);
            assert(c.last() == w);
        } else {
            lemma_fault_reach_edges::<A>(g, visited, path, edges, i + 1, start, a);
        }
    }
}

/// A walk that comes back to where it started.
pub open spec fn closed_walk(g: Map<usize, Seq<usize>>, c: Seq<usize>) -> bool {
    c.len() >= 2 && is_walk(g, c) && c[0] == c.last()
}

/// Whether every node reachable from `start` is in the graph, and no closed
/// walk can be reached from `start`.
pub open spec fn sound_from(g: Map<usize, Seq<usize>>, start: usize) -> bool {
    &&& forall|x: usize| #[trigger] reaches(g, start, x) ==> g.contains_key(x)
    &&& !exists|c: Seq<usize>| #[trigger] closed_walk(g, c) && reaches(g, start, c[0])
}

proof fn lemma_walk_reached(g: Map<usize, Seq<usize>>, start: usize, c: Seq<usize>, k: int)
    requires
        is_walk(g, c),
        c.len() > 0,
        reaches(g, start, c[0]),
        0 <= k < c.len(),
    ensures
        reaches(g, start, c[k]),
    decreases k,
{
    if k > 0 {
        lemma_walk_reached(g, start, c, k - 1);
        assert(g.contains_key(c[k - 1]) && g[c[k - 1]].contains(c[k]));
        lemma_reaches_push(g, start, c[k - 1], c[k]);
    }
}

proof fn lemma_walk_positions(g: Map<usize, Seq<usize>>, order: Seq<usize>, c: Seq<usize>, k: int)
    requires
        is_postorder(g, order),
        is_walk(g, c),
        forall|m: int| 0 <= m < c.len() ==> order.contains(#[trigger] c[m]),
        0 <= k < c.len(),
    ensures
        order.index_of(c[k]) + k <= order.index_of(c[0]),
    decreases k,
{
    if k > 0 {
        lemma_walk_positions(g, order, c, k - 1);
        assert(order.contains(c[k - 1]));
        assert(order.contains(c[k]));
        let i = order.index_of(c[k - 1]);
        assert(order[i] == c[k - 1]);
        assert(g.contains_key(c[k - 1]) && g[c[k - 1]].contains(c[k]));
        assert(order.subrange(0, i).contains(c[k]));
        let j = choose|j: int| 0 <= j < i && order.subrange(0, i)[j] == c[k];
        assert(order[j] == c[k]);
        let jj = order.index_of(c[k]);
        assert(order[jj] == c[k]);
        assert(jj == j) by {
            if jj != j {
                assert(order.no_duplicates());
            }
        }
    }
}

/// Law: with an action that never fails, a depth-first visit from `start`,
/// with nothing visited before, succeeds exactly when every node reachable
/// from `start` is in the graph and no cycle can be reached from it.
pub proof fn law_visit_exact<A: NodeAction>(g: Map<usize, Seq<usize>>, start: usize, a: A::V)
    requires
        g.dom().finite(),
        never_fails::<A>(),
    ensures
        (visit_node::<A>(g, Set::empty(), seq![], start, a).result is Ok) == sound_from(g, start),
{
    let t = visit_node::<A>(g, Set::empty(), seq![], start, a);
    lemma_reaches_self(g, start);
    law_visit_faults::<A>(g, start, a);
    lemma_fault_reach_node::<A>(g, Set::empty(), seq![], start, start, a);
    if t.result is Ok {
        law_visit_postorder::<A>(g, start, a);
        law_visit_reachable::<A>(g, start, a);
        assert forall|x: usize| #[trigger] reaches(g, start, x) implies g.contains_key(x) by {
            assert(t.acted.contains(x));
            let k = choose|k: int| 0 <= k < t.acted.len() && t.acted[k] == x;
        }
        if exists|c: Seq<usize>| #[trigger] closed_walk(g, c) && reaches(g, start, c[0]) {
            let c = choose|c: Seq<usize>| #[trigger] closed_walk(g, c) && reaches(g, start, c[0]);
            assert forall|m: int| 0 <= m < c.len() implies t.acted.contains(#[trigger] c[m]) by {
                lemma_walk_reached(g, start, c, m);
            }
            lemma_walk_positions(g, t.acted, c, c.len() - 1);
            assert(c[c.len() - 1] == c[0]);
        }
    } else {
        match t.result {
            Err(Fault::Missing(m)) => {
                assert(reaches(g, start, m) && !g.contains_key(m));
            },
            Err(Fault::Cycle(ns)) => {
                let w = ns.last();
                let c = if w != ns[ns.len() - 2] {
                    seq![w] + ns
                } else {
                    seq![ns[ns.len() - 2], w]
                };
                assert forall|k: int| 0 <= k < c.len() - 1 implies g.contains_key(#[trigger] c[k]) && g[c[k]].contains(c[k + 1]) by {
                    if w != ns[ns.len() - 2] {
                        if k == 0 {
                            assert(c[1] == ns[0]);
                        } else {
                            assert(c[k] == ns[k - 1] && c[k + 1] == ns[k]);
                        }
                    } else {
                        assert(g.contains_key(ns[ns.len() - 2]) && g[ns[ns.len() - 2]].contains(ns[ns.len() - 2 + 1]));
                    }
                }
                assert(closed_walk(g, c));
                assert(reaches(g, start, c[0]));
            },
            _ => {},
        }
    }
}

} // verus!
