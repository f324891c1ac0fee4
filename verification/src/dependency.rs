//! Dependency tracking.
//!
//! A `Graph` records which nodes must be evaluated before which others and
//! produces an evaluation order that honors those constraints, or the path of
//! a dependency cycle when no such order exists.
use std::collections::BTreeMap;
use std::collections::BTreeSet;
use std::collections::VecDeque;
use vstd::prelude::*;
use vstd::std_specs::btree::spec_keys_iter;
use vstd::std_specs::btree::spec_btree_keys_iter;
use vstd::std_specs::iter::IteratorSpec;
use vstd::std_specs::btree::increasing_seq;
use vstd::std_specs::cmp::OrdSpec;

verus! {

broadcast use vstd::std_specs::btree::group_btree_axioms;

/// There is an edge `a -> b`: `b` depends on `a`, so `a` is evaluated first.
pub open spec fn edge(g: Map<u64, Set<u64>>, a: u64, b: u64) -> bool {
    g.contains_key(a) && g[a].contains(b)
}

/// A node that is registered in the graph, or that some registered node points to.
pub open spec fn is_vertex(g: Map<u64, Set<u64>>, n: u64) -> bool {
    g.contains_key(n) || exists|a: u64| #[trigger] edge(g, a, n)
}

/// The nodes that `n` depends on: the sources of the edges that end in `n`.
pub open spec fn dependencies(g: Map<u64, Set<u64>>, n: u64) -> Set<u64> {
    Set::new(|a: u64| edge(g, a, n))
}

/// Every consecutive pair of `p` is an edge.
pub open spec fn is_path(g: Map<u64, Set<u64>>, p: Seq<u64>) -> bool {
    forall|i: int| 0 <= i < p.len() - 1 ==> #[trigger] edge(g, p[i], p[i + 1])
}

/// `n` can be reached by following edges from one of `roots`.
pub open spec fn reachable(g: Map<u64, Set<u64>>, roots: Seq<u64>, n: u64) -> bool {
    exists|p: Seq<u64>|
        #![trigger is_path(g, p), p.last()]
        p.len() >= 1 && is_path(g, p) && roots.contains(p[0]) && p.last() == n
}

/// A path whose last node already occurs earlier in it: the tail of the path
/// from that earlier occurrence is a dependency cycle.
pub open spec fn is_cycle_trace(g: Map<u64, Set<u64>>, c: Seq<u64>) -> bool {
    &&& c.len() >= 2
    &&& is_path(g, c)
    &&& exists|k: int| 0 <= k < c.len() - 1 && #[trigger] c[k] == c.last()
}

/// Some dependency cycle can be reached from `roots`.
pub open spec fn has_reachable_cycle(g: Map<u64, Set<u64>>, roots: Seq<u64>) -> bool {
    exists|c: Seq<u64>| #[trigger] is_cycle_trace(g, c) && roots.contains(c[0])
}

/// The graph holds no dependency cycle at all.
pub open spec fn acyclic(g: Map<u64, Set<u64>>) -> bool {
    forall|c: Seq<u64>| !#[trigger] is_cycle_trace(g, c)
}

/// `order` lists distinct nodes, and whenever two of them are joined by an
/// edge the source comes first.
pub open spec fn is_topological(g: Map<u64, Set<u64>>, order: Seq<u64>) -> bool {
    &&& order.no_duplicates()
    &&& forall|i: int, j: int|
        0 <= i < order.len() && 0 <= j < order.len() && #[trigger] edge(g, order[i], order[j])
            ==> i < j
}

proof fn lemma_increasing_keys(keys: Seq<&u64>)
    requires
        increasing_seq(keys),
    ensures
        forall|i: int, j: int| 0 <= i < j < keys.len() ==> *keys[i] < *keys[j],
{
    assert(vstd::laws_cmp::obeys_cmp::<u64>());
    assert(vstd::laws_cmp::obeys_cmp::<&u64>());
    vstd::std_specs::btree::axiom_increasing_seq_meaning::<&u64>(keys);
    assert(forall|i: int, j: int| #![trigger keys[i], keys[j]] 0 <= i < j < keys.len() ==> OrdSpec::cmp_spec(&keys[i], &keys[j]) is Less);
    assert forall|i: int, j: int| 0 <= i < j < keys.len() implies *keys[i] < *keys[j] by {
        assert(OrdSpec::cmp_spec(&keys[i], &keys[j]) is Less);
    }
}

/// The members of `s` in increasing order.
pub(crate) fn sorted_members(s: &BTreeSet<u64>) -> (r: Vec<u64>)
    ensures
        r@.no_duplicates(),
        forall|n: u64| r@.contains(n) <==> s@.contains(n),
        forall|i: int, j: int| 0 <= i < j < r@.len() ==> r@[i] < r@[j],
{
    let mut r: Vec<u64> = Vec::new();
    for k in it: s.iter()
        invariant
            it.seq() == spec_btree_keys_iter(s).remaining(),
            r@ == it.seq().take(it.index() as int).map_values(|x: &u64| *x),
    {
        r.push(*k);
    }
    proof {
        let keys = spec_btree_keys_iter(s).remaining();
        assert(r@ =~= keys.unref());
        assert forall|n: u64| r@.contains(n) <==> s@.contains(n) by {
            if r@.contains(n) {
                assert(r@.to_set().contains(n));
            }
            if s@.contains(n) {
                assert(r@.to_set().contains(n));
            }
        }
        lemma_increasing_keys(keys);
    }
    r
}

/// Represents a dependency graph.
///
/// This graph tracks items and is able to produce an ordering
/// of the items that respects dependency constraints.
pub struct Graph {
    /// Edges in the graph; implicitly stores nodes.
    ///
    /// There's a key for every node in the graph, even if
    /// it doesn't have any edges going out.
    edges: BTreeMap<u64, BTreeSet<u64>>,
    /// The dependencies a node has: the mirror image of `edges`.
    reverse: BTreeMap<u64, BTreeSet<u64>>,
}

impl View for Graph {
    type V = Map<u64, Set<u64>>;

    /// Each registered node and the set of nodes that depend on it.
    closed spec fn view(&self) -> Map<u64, Set<u64>> {
        Map::new(|k: u64| self.edges@.contains_key(k), |k: u64| self.edges@[k]@)
    }
}

impl Graph {
    /// `reverse` mirrors `edges`, and holds only non-empty sets.
    pub closed spec fn wf(&self) -> bool {
        &&& forall|a: u64, b: u64|
            (#[trigger] self.edges@.contains_key(a) && self.edges@[a]@.contains(b)) <==> (
            #[trigger] self.reverse@.contains_key(b) && self.reverse@[b]@.contains(a))
        &&& forall|b: u64| #[trigger]
            self.reverse@.contains_key(b) ==> exists|a: u64| self.reverse@[b]@.contains(a)
    }

    /// Every node that the graph knows of, registered or pointed to.
    closed spec fn universe(&self) -> Set<u64> {
        self.edges@.dom().union(self.reverse@.dom())
    }

    /// The dependencies of a node form a finite set.
    pub proof fn lemma_dependencies_finite(&self, n: u64)
        requires
            self.wf(),
        ensures
            dependencies(self@, n).finite(),
    {
        assert(dependencies(self@, n).subset_of(self.edges@.dom()));
        vstd::set_lib::lemma_len_subset(dependencies(self@, n), self.edges@.dom());
    }

    proof fn lemma_universe_finite(&self)
        ensures
            self.universe().finite(),
            forall|k: u64| self@.contains_key(k) ==> #[trigger] self.universe().contains(k),
    {
    }

    pub fn new() -> (g: Graph)
        ensures
            g.wf(),
            g@ == Map::<u64, Set<u64>>::empty(),
    {
        let g = Graph { edges: BTreeMap::new(), reverse: BTreeMap::new() };
        assert(g@ =~= Map::<u64, Set<u64>>::empty());
        g
    }

    /// Register a node, even one without any edges.
    pub fn add_node(&mut self, node: u64)
        requires
            old(self).wf(),
        ensures
            final(self).wf(),
            final(self)@ == if old(self)@.contains_key(node) {
                old(self)@
            } else {
                old(self)@.insert(node, Set::empty())
            },
    {
        if !self.edges.contains_key(&node) {
            self.edges.insert(node, BTreeSet::new());
            assert(self@ =~= old(self)@.insert(node, Set::empty()));
        }
    }

    /// The nodes in the graph, in increasing order.
    pub fn nodes(&self) -> (r: Vec<u64>)
        ensures
            r@.no_duplicates(),
            forall|n: u64| r@.contains(n) <==> self@.contains_key(n),
            forall|i: int, j: int| 0 <= i < j < r@.len() ==> r@[i] < r@[j],
    {
        let mut r: Vec<u64> = Vec::new();
        for k in it: self.edges.keys()
            invariant
                it.seq() == spec_keys_iter(&self.edges).remaining(),
                r@ == it.seq().take(it.index() as int).map_values(|x: &u64| *x),
        {
            r.push(*k);
        }
        proof {
            let keys = spec_keys_iter(&self.edges).remaining();
            assert(r@ =~= keys.unref());
            assert(keys.unref().to_set() == self.edges@.dom());
            assert forall|n: u64| r@.contains(n) <==> self@.contains_key(n) by {
                if r@.contains(n) {
                    assert(r@.to_set().contains(n));
                }
                if self@.contains_key(n) {
                    assert(r@.to_set().contains(n));
                }
            }
            lemma_increasing_keys(keys);
        }
        r
    }

    /// The dependents a node has: the nodes with an edge from `node`.
    pub fn dependents_of(&self, node: u64) -> (r: Option<&BTreeSet<u64>>)
        requires
            self.wf(),
        ensures
            match r {
                Some(s) => self@.contains_key(node) && s@ == self@[node],
                None => !self@.contains_key(node),
            },
    {
        self.edges.get(&node)
    }

    /// The dependencies a node has: the nodes with an edge into `node`.
    pub fn dependencies_of(&self, node: u64) -> (r: Option<&BTreeSet<u64>>)
        requires
            self.wf(),
        ensures
            match r {
                Some(s) => s@ == dependencies(self@, node) && exists|a: u64| s@.contains(a),
                None => dependencies(self@, node) == Set::<u64>::empty(),
            },
    {
        let r = self.reverse.get(&node);
        proof {
            match r {
                Some(s) => {
                    assert(s@ =~= dependencies(self@, node));
                },
                None => {
                    assert(dependencies(self@, node) =~= Set::<u64>::empty());
                },
            }
        }
        r
    }

    /// The number of dependencies a node has.
    pub fn dependency_count(&self, node: u64) -> (r: usize)
        requires
            self.wf(),
        ensures
            r == dependencies(self@, node).len(),
    {
        match self.dependencies_of(node) {
            Some(s) => s.len(),
            None => 0,
        }
    }

    /// The neighbors of a node in increasing order, or `None` where it has none.
    pub fn neighbors_of(&self, node: u64) -> (r: Option<Vec<u64>>)
        requires
            self.wf(),
        ensures
            match r {
                Some(v) => {
                    &&& self@.contains_key(node)
                    &&& !self@[node].is_empty()
                    &&& v@.no_duplicates()
                    &&& forall|n: u64| v@.contains(n) <==> self@[node].contains(n)
                    &&& forall|i: int, j: int| 0 <= i < j < v@.len() ==> v@[i] < v@[j]
                },
                None => !self@.contains_key(node) || self@[node].is_empty(),
            },
    {
        match self.edges.get(&node) {
            Some(s) => {
                if s.is_empty() {
                    None
                } else {
                    Some(sorted_members(s))
                }
            },
            None => None,
        }
    }

    /// Topological ordering from a specific set of source nodes: the given
    /// nodes and every node that depends on them, each exactly once, every
    /// node before the nodes that depend on it.
    pub fn resolve(&self, nodes: Vec<u64>) -> (r: Result<VecDeque<u64>, CycleError>)
        requires
            self.wf(),
        ensures
            r is Ok <==> !has_reachable_cycle(self@, nodes@),
            match r {
                Ok(order) => {
                    &&& is_topological(self@, order@)
                    &&& forall|n: u64| #[trigger] order@.contains(n) <==> reachable(self@, nodes@, n)
                },
                Err(e) => is_cycle_trace(self@, e.path()) && nodes@.contains(e.path()[0]),
            },
    {
        let ghost roots = nodes@;
        let r = Topological::new(self).from(nodes);
        proof {
            match &r {
                Ok(order) => lemma_topological_order_excludes_cycles(self@, roots, order@),
                Err(e) => assert(is_cycle_trace(self@, e.path()) && roots.contains(e.path()[0])),
            }
        }
        r
    }

    /// Topological ordering starting at the provided node: the node plus all
    /// nodes that depend on it.
    pub fn resolve_only(&self, node: u64) -> (r: Result<VecDeque<u64>, CycleError>)
        requires
            self.wf(),
        ensures
            r is Ok <==> !has_reachable_cycle(self@, seq![node]),
            match r {
                Ok(order) => {
                    &&& is_topological(self@, order@)
                    &&& forall|n: u64| #[trigger]
                        order@.contains(n) <==> reachable(self@, seq![node], n)
                },
                Err(e) => is_cycle_trace(self@, e.path()) && e.path()[0] == node,
            },
    {
        let mut nodes: Vec<u64> = Vec::new();
        nodes.push(node);
        assert(nodes@ =~= seq![node]);
        let r = self.resolve(nodes);
        proof {
            if let Err(e) = &r {
                assert(seq![node].contains(e.path()[0]));
            }
        }
        r
    }

    /// Topological ordering of the entire graph: every node exactly once,
    /// every node before the nodes that depend on it.
    pub fn resolve_all(&self) -> (r: Result<VecDeque<u64>, CycleError>)
        requires
            self.wf(),
        ensures
            r is Ok <==> acyclic(self@),
            match r {
                Ok(order) => {
                    &&& is_topological(self@, order@)
                    &&& forall|n: u64| #[trigger] order@.contains(n) <==> is_vertex(self@, n)
                },
                Err(e) => is_cycle_trace(self@, e.path()),
            },
    {
        let r = Topological::new(self).all();
        proof {
            match &r {
                Ok(order) => {
                    let g = self@;
                    if !acyclic(g) {
                        let c = choose|c: Seq<u64>| #[trigger] is_cycle_trace(g, c);
                        assert forall|i: int| 0 <= i < c.len() implies order@.contains(#[trigger] c[i]) by {
                            if i == 0 {
                                let j = 0int;
                                assert(edge(g, c[j], c[j + 1]));
                                assert(is_vertex(g, c[0]));
                            } else {
                                let j = i - 1;
                                assert(edge(g, c[j], c[j + 1]));
                                assert(is_vertex(g, c[i]));
                            }
                        }
                        let k = choose|k: int| 0 <= k < c.len() - 1 && #[trigger] c[k] == c.last();
                        lemma_path_positions(g, order@, c, k, c.len() - 1);
                    }
                },
                Err(e) => {
                    assert(!acyclic(self@));
                },
            }
        }
        r
    }

    /// Register a dependency constraint: `b` depends on `a`. Both become
    /// nodes of the graph.
    pub fn add_edge(&mut self, a: u64, b: u64)
        requires
            old(self).wf(),
        ensures
            final(self).wf(),
            final(self)@ == with_node(
                old(self)@.insert(
                    a,
                    if old(self)@.contains_key(a) {
                        old(self)@[a]
                    } else {
                        Set::empty()
                    }.insert(b),
                ),
                b,
            ),
    {
        let mut targets = match self.edges.remove(&a) {
            Some(s) => s,
            None => BTreeSet::new(),
        };
        targets.insert(b);
        self.edges.insert(a, targets);

        let mut sources = match self.reverse.remove(&b) {
            Some(s) => s,
            None => BTreeSet::new(),
        };
        sources.insert(a);
        self.reverse.insert(b, sources);

        assert(self@ =~= old(self)@.insert(
            a,
            if old(self)@.contains_key(a) {
                old(self)@[a]
            } else {
                Set::empty()
            }.insert(b),
        ));
        assert forall|x: u64, y: u64|
            (#[trigger] self.edges@.contains_key(x) && self.edges@[x]@.contains(y)) <==> (
            #[trigger] self.reverse@.contains_key(y) && self.reverse@[y]@.contains(x)) by {
            if old(self).edges@.contains_key(x) && old(self).edges@[x]@.contains(y) {
                assert(old(self).reverse@.contains_key(y) && old(self).reverse@[y]@.contains(x));
            }
            if old(self).reverse@.contains_key(y) && old(self).reverse@[y]@.contains(x) {
                assert(old(self).edges@.contains_key(x) && old(self).edges@[x]@.contains(y));
            }
        }
        assert forall|x: u64| #[trigger] self.reverse@.contains_key(x) implies exists|y: u64|
            self.reverse@[x]@.contains(y) by {
            if x == b {
                assert(self.reverse@[x]@.contains(a));
            } else {
                assert(old(self).reverse@.contains_key(x));
                let y = choose|y: u64| old(self).reverse@[x]@.contains(y);
                assert(self.reverse@[x]@.contains(y));
            }
        }
        self.add_node(b);
    }
}

/// The graph with `n` registered as a node, without edges where it was not
/// one.
pub open spec fn with_node(g: Map<u64, Set<u64>>, n: u64) -> Map<u64, Set<u64>> {
    if g.contains_key(n) {
        g
    } else {
        g.insert(n, Set::empty())
    }
}


/// The error raised when the dependency graph holds a cycle.
#[derive(Debug)]
pub struct CycleError {
    cycle: VecDeque<u64>,
}

impl CycleError {
    /// The path that was being followed when the cycle was found: it starts
    /// at the node the search began from and its last node occurs earlier in it.
    pub closed spec fn path(&self) -> Seq<u64> {
        self.cycle@
    }

    /// The nodes of the path that closes the cycle, in order.
    pub fn cycle(&self) -> (r: &VecDeque<u64>)
        ensures
            r@ == self.path(),
    {
        &self.cycle
    }

    pub fn description(&self) -> (r: &'static str)
        ensures
            r@ == "dependency cycle detected"@,
    {
        "dependency cycle detected"
    }
}

/// Position of `x` in a sequence that holds it.
pub(crate) open spec fn pos(s: Seq<u64>, x: u64) -> int {
    choose|i: int| 0 <= i < s.len() && s[i] == x
}

pub(crate) proof fn lemma_pos(s: Seq<u64>, x: u64)
    requires
        s.contains(x),
    ensures
        0 <= pos(s, x) < s.len(),
        s[pos(s, x)] == x,
{
}

/// Following edges from a node of a closed set stays inside it.
proof fn lemma_closed_path(g: Map<u64, Set<u64>>, order: Seq<u64>, p: Seq<u64>)
    requires
        forall|i: int, y: u64|
            0 <= i < order.len() && #[trigger] edge(g, order[i], y) ==> order.contains(y),
        p.len() >= 1,
        is_path(g, p),
        order.contains(p[0]),
    ensures
        order.contains(p.last()),
    decreases p.len(),
{
    if p.len() > 1 {
        let q = p.drop_last();
        assert(is_path(g, q)) by {
            assert forall|i: int| 0 <= i < q.len() - 1 implies #[trigger] edge(g, q[i], q[i + 1]) by {
                assert(edge(g, p[i], p[i + 1]));
            }
        }
        lemma_closed_path(g, order, q);
        let a = q.last();
        lemma_pos(order, a);
        let j = p.len() - 2;
        assert(edge(g, p[j], p[j + 1]));
        assert(edge(g, order[pos(order, a)], p.last()));
    }
}

/// Extending a path to a reachable node by one edge reaches its target.
proof fn lemma_reachable_step(g: Map<u64, Set<u64>>, roots: Seq<u64>, a: u64, b: u64)
    requires
        reachable(g, roots, a),
        edge(g, a, b),
    ensures
        reachable(g, roots, b),
{
    let p = choose|p: Seq<u64>|
        #![trigger is_path(g, p), p.last()]
        p.len() >= 1 && is_path(g, p) && roots.contains(p[0]) && p.last() == a;
    let q = p.push(b);
    assert forall|i: int| 0 <= i < q.len() - 1 implies #[trigger] edge(g, q[i], q[i + 1]) by {
        if i < p.len() - 1 {
            assert(edge(g, p[i], p[i + 1]));
        }
    }
    assert(is_path(g, q));
    assert(q.last() == b);
    assert(q[0] == p[0]);
}

/// Along a path inside a topological order, positions strictly increase.
proof fn lemma_path_positions(g: Map<u64, Set<u64>>, order: Seq<u64>, c: Seq<u64>, k: int, m: int)
    requires
        is_topological(g, order),
        is_path(g, c),
        0 <= k < m < c.len(),
        forall|i: int| 0 <= i < c.len() ==> order.contains(#[trigger] c[i]),
    ensures
        pos(order, c[k]) < pos(order, c[m]),
    decreases m - k,
{
    let j = m - 1;
    lemma_pos(order, c[j]);
    lemma_pos(order, c[m]);
    assert(edge(g, c[j], c[j + 1]));
    assert(edge(g, order[pos(order, c[j])], order[pos(order, c[m])]));
    if k < m - 1 {
        lemma_path_positions(g, order, c, k, m - 1);
    }
}

/// Law: an order that honors every dependency and holds every node reachable
/// from `roots` can exist only when no dependency cycle is reachable from them.
pub proof fn lemma_topological_order_excludes_cycles(
    g: Map<u64, Set<u64>>,
    roots: Seq<u64>,
    order: Seq<u64>,
)
    requires
        is_topological(g, order),
        forall|n: u64| reachable(g, roots, n) ==> #[trigger] order.contains(n),
    ensures
        !has_reachable_cycle(g, roots),
{
    if has_reachable_cycle(g, roots) {
        let c = choose|c: Seq<u64>| #[trigger] is_cycle_trace(g, c) && roots.contains(c[0]);
        assert forall|i: int| 0 <= i < c.len() implies order.contains(#[trigger] c[i]) by {
            let p = c.take(i + 1);
            assert(is_path(g, p)) by {
                assert forall|j: int| 0 <= j < p.len() - 1 implies #[trigger] edge(g, p[j], p[j + 1]) by {
                    assert(edge(g, c[j], c[j + 1]));
                }
            }
            assert(p.last() == c[i]);
            assert(reachable(g, roots, c[i]));
        }
        let k = choose|k: int| 0 <= k < c.len() - 1 && #[trigger] c[k] == c.last();
        lemma_path_positions(g, order, c, k, c.len() - 1);
    }
}

/// Encapsulates a topological sorting algorithm.
///
/// Performs a topological sorting of the provided graph
/// via a depth-first search. This ordering is such that
/// every node comes before the node(s) that depends on it.
pub struct Topological<'a> {
    /// The graph to traverse.
    graph: &'a Graph,
    /// The nodes that have been visited so far
    visited: BTreeSet<u64>,
    /// Nodes that are on the path to the current node.
    on_stack: BTreeSet<u64>,
    /// Trace back a path in the case of a cycle.
    edge_to: BTreeMap<u64, u64>,
}

impl<'a> Topological<'a> {
    /// The graph being traversed.
    pub closed spec fn graph_view(&self) -> Map<u64, Set<u64>> {
        self.graph@
    }

    /// A traversal of a well-formed graph that has visited nothing yet.
    pub closed spec fn fresh(&self) -> bool {
        &&& self.graph.wf()
        &&& self.visited@ == Set::<u64>::empty()
        &&& self.on_stack@ == Set::<u64>::empty()
        &&& self.edge_to@ == Map::<u64, u64>::empty()
    }

    /// The search state: `out` is the finished part of the order and `stack`
    /// the path from the current root to the node being explored.
    spec fn inv(&self, out: Seq<u64>, stack: Seq<u64>, roots: Seq<u64>) -> bool {
        let g = self.graph@;
        &&& self.graph.wf()
        &&& is_topological(g, out)
        &&& stack.no_duplicates()
        &&& forall|x: u64| #[trigger]
            self.visited@.contains(x) <==> (out.contains(x) || stack.contains(x))
        &&& forall|x: u64| #[trigger] self.on_stack@.contains(x) <==> stack.contains(x)
        &&& forall|x: u64| #[trigger] stack.contains(x) ==> !out.contains(x)
        &&& forall|i: int, y: u64|
            0 <= i < out.len() && #[trigger] edge(g, out[i], y) ==> out.contains(y)
        &&& is_path(g, stack)
        &&& stack.len() > 0 ==> roots.contains(stack[0]) && !self.edge_to@.contains_key(stack[0])
        &&& forall|i: int|
            1 <= i < stack.len() ==> self.edge_to@.contains_key(#[trigger] stack[i])
                && self.edge_to@[stack[i]] == stack[i - 1]
        &&& forall|x: u64| #[trigger] self.visited@.contains(x) ==> reachable(g, roots, x)
    }

    /// How many known nodes are still unvisited.
    spec fn measure(&self) -> nat {
        self.graph.universe().difference(self.visited@).len()
    }

    /// Only visited nodes have breadcrumbs.
    spec fn crumbs_visited(&self) -> bool {
        forall|k: u64| #[trigger] self.edge_to@.contains_key(k) ==> self.visited@.contains(k)
    }

    proof fn lemma_measure(&self, visited1: Set<u64>, node: u64)
        requires
            self.graph@.contains_key(node),
            visited1.subset_of(self.visited@),
            !visited1.contains(node),
            self.visited@.contains(node),
        ensures
            self.measure() < self.graph.universe().difference(visited1).len(),
    {
        let u = self.graph.universe();
        self.graph.lemma_universe_finite();
        let a = u.difference(self.visited@);
        let b = u.difference(visited1);
        assert(b.contains(node));
        assert(a.subset_of(b.remove(node)));
        vstd::set_lib::lemma_len_subset(a, b.remove(node));
        vstd::set_lib::lemma_len_subset(b, u);
    }

    /// Construct the initial algorithm state.
    /// A traversal of `graph` that has visited nothing yet.
    pub fn new(graph: &'a Graph) -> (t: Topological<'a>)
        requires
            graph.wf(),
        ensures
            t.fresh(),
            t.graph_view() == graph@,
    {
        Topological {
            graph: graph,
            visited: BTreeSet::new(),
            on_stack: BTreeSet::new(),
            edge_to: BTreeMap::new(),
        }
    }

    /// Generate the topological ordering from a given node.
    ///
    /// This uses a recursive depth-first search, as it facilitates
    /// keeping track of a cycle, if any is present.
    fn dfs(
        &mut self,
        node: u64,
        out: &mut VecDeque<u64>,
        Ghost(stack): Ghost<Seq<u64>>,
        Ghost(roots): Ghost<Seq<u64>>,
    ) -> (r: Result<(), CycleError>)
        requires
            old(self).inv(old(out)@, stack, roots),
            forall|k: u64| #[trigger]
                old(self).edge_to@.contains_key(k) && k != node ==> old(self).visited@.contains(k),
            !old(self).visited@.contains(node),
            reachable(old(self).graph@, roots, node),
            stack.len() == 0 ==> roots.contains(node) && !old(self).edge_to@.contains_key(node),
            stack.len() > 0 ==> edge(old(self).graph@, stack.last(), node)
                && old(self).edge_to@.contains_key(node) && old(self).edge_to@[node]
                == stack.last(),
        ensures
            final(self).graph == old(self).graph,
            r is Ok ==> {
                &&& final(self).inv(final(out)@, stack, roots)
                &&& final(self).crumbs_visited()
                &&& final(out)@.contains(node)
                &&& final(out)@.len() >= old(out)@.len()
                &&& final(out)@.subrange(
                    final(out)@.len() - old(out)@.len(),
                    final(out)@.len() as int,
                ) == old(out)@
                &&& old(self).visited@.subset_of(final(self).visited@)
            },
            r matches Err(e) ==> is_cycle_trace(old(self).graph@, e.path()) && e.path()[0]
                == stack.push(node)[0],
        decreases old(self).measure(),
    {
        let ghost g = self.graph@;
        let ghost visited0 = self.visited@;
        let ghost out0 = out@;
        let ghost full = stack.push(node);
        self.on_stack.insert(node);
        self.visited.insert(node);
        assert(self.inv(out@, full, roots)) by {
            assert forall|i: int| 0 <= i < full.len() - 1 implies #[trigger] edge(
                g,
                full[i],
                full[i + 1],
            ) by {
                if i < stack.len() - 1 {
                    assert(edge(g, stack[i], stack[i + 1]));
                }
            }
            assert forall|i: int| 1 <= i < full.len() implies self.edge_to@.contains_key(
                #[trigger] full[i],
            ) && self.edge_to@[full[i]] == full[i - 1] by {
                if i < stack.len() {
                    assert(stack[i] == full[i]);
                }
            }
            assert forall|x: u64| #[trigger] full.contains(x) implies !out@.contains(x) by {
                if x != node {
                    assert(stack.contains(x));
                }
            }
            assert(full[full.len() - 1] == node);
            assert forall|x: u64| #[trigger]
                self.visited@.contains(x) <==> (out@.contains(x) || full.contains(x)) by {
                if stack.contains(x) {
                    let i = choose|i: int| 0 <= i < stack.len() && stack[i] == x;
                    assert(full[i] == x);
                }
                if full.contains(x) && x != node {
                    let i = choose|i: int| 0 <= i < full.len() && full[i] == x;
                    assert(stack[i] == x);
                }
            }
            assert forall|x: u64| #[trigger] self.on_stack@.contains(x) <==> full.contains(x) by {
                if stack.contains(x) {
                    let i = choose|i: int| 0 <= i < stack.len() && stack[i] == x;
                    assert(full[i] == x);
                }
                if full.contains(x) && x != node {
                    let i = choose|i: int| 0 <= i < full.len() && full[i] == x;
                    assert(stack[i] == x);
                }
            }
            if stack.len() > 0 {
                assert(full[0] == stack[0]);
            }
        }
        let neighbors: Vec<u64> = match self.graph.dependents_of(node) {
            Some(set) => sorted_members(set),
            None => Vec::new(),
        };
        assert(forall|y: u64| neighbors@.contains(y) <==> edge(g, node, y));
        let mut i: usize = 0;
        while i < neighbors.len()
            invariant
                self.graph@ == g,
                self.graph == old(self).graph,
                g == old(self).graph@,
                full == stack.push(node),
                self.inv(out@, full, roots),
                self.crumbs_visited(),
                forall|y: u64| neighbors@.contains(y) <==> edge(g, node, y),
                i <= neighbors.len(),
                forall|j: int| 0 <= j < i ==> out@.contains(#[trigger] neighbors@[j]),
                out@.len() >= out0.len(),
                out@.subrange(out@.len() - out0.len(), out@.len() as int) == out0,
                visited0.subset_of(self.visited@),
                visited0 == old(self).visited@,
                self.visited@.contains(node),
                !visited0.contains(node),
                reachable(g, roots, node),
            decreases neighbors.len() - i,
        {
            let neighbor = neighbors[i];
            assert(neighbors@.contains(neighbor));
            if !self.visited.contains(&neighbor) {
                // node isn't visited yet, so visit it
                // make sure to add a breadcrumb to trace our path
                // backwards in case there's a cycle
                let ghost visited1 = self.visited@;
                let ghost out1 = out@;
                self.edge_to.insert(neighbor, node);
                proof {
                    lemma_reachable_step(g, roots, node, neighbor);
                    assert forall|j: int| 1 <= j < full.len() implies self.edge_to@.contains_key(
                        #[trigger] full[j],
                    ) && self.edge_to@[full[j]] == full[j - 1] by {
                        assert(full.contains(full[j]));
                    }
                    assert(full.contains(full[0]));
                    self.lemma_measure(visited0, node);
                    assert(self.measure() < old(self).measure());
                }
                self.dfs(neighbor, out, Ghost(full), Ghost(roots))?;
                proof {
                    assert forall|j: int| 0 <= j < i + 1 implies out@.contains(
                        #[trigger] neighbors@[j],
                    ) by {
                        if j < i {
                            let p = choose|p: int| 0 <= p < out1.len() && out1[p] == neighbors@[j];
                            assert(out@[out@.len() - out1.len() + p] == out1[p]);
                        }
                    }
                    assert(out@.subrange(out@.len() - out0.len(), out@.len() as int) =~= out0) by {
                        assert forall|q: int| 0 <= q < out0.len() implies out@[out@.len()
                            - out0.len() + q] == out0[q] by {
                            assert(out1[out1.len() - out0.len() + q] == out0[q]);
                            assert(out@[out@.len() - out1.len() + (out1.len() - out0.len() + q)]
                                == out1[out1.len() - out0.len() + q]);
                        }
                    }
                }
            } else if self.on_stack.contains(&neighbor) {
                // cycle detected
                // trace back breadcrumbs to reconstruct the cycle's path
                let mut path: VecDeque<u64> = VecDeque::new();
                path.push_front(neighbor);
                path.push_front(node);
                let mut current = node;
                let ghost mut k: int = full.len() - 1;
                loop
                    invariant
                        self.inv(out@, full, roots),
                        full == stack.push(node),
                        0 <= k < full.len(),
                        current == full[k],
                        path@ == full.subrange(k, full.len() as int).push(neighbor),
                    ensures
                        k == 0,
                        path@ == full.subrange(0, full.len() as int).push(neighbor),
                    decreases k,
                {
                    match self.edge_to.get(&current) {
                        Some(found) => {
                            assert(k >= 1);
                            path.push_front(*found);
                            current = *found;
                            proof {
                                assert(path@ =~= full.subrange(k - 1, full.len() as int).push(
                                    neighbor,
                                ));
                                k = k - 1;
                            }
                        },
                        None => {
                            assert(k == 0);
                            break ;
                        },
                    }
                }
                proof {
                    let c = path@;
                    assert(full.subrange(0, full.len() as int) =~= full);
                    assert(c =~= full.push(neighbor));
                    assert forall|j: int| 0 <= j < c.len() - 1 implies #[trigger] edge(
                        g,
                        c[j],
                        c[j + 1],
                    ) by {
                        if j < full.len() - 1 {
                            assert(edge(g, full[j], full[j + 1]));
                        }
                    }
                    let w = choose|w: int| 0 <= w < full.len() && full[w] == neighbor;
                    assert(c[w] == c.last());
                }
                return Err(CycleError { cycle: path });
            } else {
                proof {
                    assert(out@.contains(neighbor));
                }
            }
            i = i + 1;
        }
        self.on_stack.remove(&node);
        let ghost out2 = out@;
        out.push_front(node);
        proof {
            assert forall|y: u64| edge(g, node, y) implies out2.contains(y) by {
                assert(neighbors@.contains(y));
                let j = choose|j: int| 0 <= j < neighbors@.len() && neighbors@[j] == y;
                assert(out2.contains(neighbors@[j]));
            }
            assert(full[full.len() - 1] == node);
            assert(full.contains(node));
            assert(!out2.contains(node));
            let o = out@;
            assert(o.no_duplicates()) by {
                assert forall|a: int, b: int|
                    0 <= a < o.len() && 0 <= b < o.len() && a != b implies o[a] != o[b] by {
                    if a == 0 {
                        assert(out2.contains(o[b]));
                    } else if b == 0 {
                        assert(out2.contains(o[a]));
                    }
                }
            }
            assert forall|a: int, b: int|
                0 <= a < o.len() && 0 <= b < o.len() && #[trigger] edge(g, o[a], o[b]) implies a
                < b by {
                if b == 0 {
                    if a == 0 {
                        assert(out2.contains(node));
                    } else {
                        assert(edge(g, out2[a - 1], node));
                        assert(out2.contains(node));
                    }
                } else if a > 0 {
                    assert(edge(g, out2[a - 1], out2[b - 1]));
                }
            }
            assert forall|a: int, y: u64| 0 <= a < o.len() && #[trigger] edge(g, o[a], y) implies o.contains(
                y,
            ) by {
                if a == 0 {
                    let p = choose|p: int| 0 <= p < out2.len() && out2[p] == y;
                    assert(o[p + 1] == y);
                } else {
                    assert(edge(g, out2[a - 1], y));
                    let p = choose|p: int| 0 <= p < out2.len() && out2[p] == y;
                    assert(o[p + 1] == y);
                }
            }
            assert forall|x: u64| #[trigger]
                self.visited@.contains(x) <==> (o.contains(x) || stack.contains(x)) by {
                if o.contains(x) && x != node {
                    let p = choose|p: int| 0 <= p < o.len() && o[p] == x;
                    assert(out2[p - 1] == x);
                }
                if out2.contains(x) {
                    let p = choose|p: int| 0 <= p < out2.len() && out2[p] == x;
                    assert(o[p + 1] == x);
                }
                if full.contains(x) && x != node {
                    let p = choose|p: int| 0 <= p < full.len() && full[p] == x;
                    assert(stack[p] == x);
                }
                if stack.contains(x) {
                    let p = choose|p: int| 0 <= p < stack.len() && stack[p] == x;
                    assert(full[p] == x);
                }
                assert(o[0] == node);
            }
            assert forall|x: u64| #[trigger] self.on_stack@.contains(x) <==> stack.contains(x) by {
                if stack.contains(x) {
                    let p = choose|p: int| 0 <= p < stack.len() && stack[p] == x;
                    assert(full[p] == x);
                }
                if full.contains(x) && x != node {
                    let p = choose|p: int| 0 <= p < full.len() && full[p] == x;
                    assert(stack[p] == x);
                }
            }
            assert forall|x: u64| #[trigger] stack.contains(x) implies !o.contains(x) by {
                let p = choose|p: int| 0 <= p < stack.len() && stack[p] == x;
                assert(full[p] == x);
                assert(full.contains(x));
                assert(!out2.contains(x));
                if o.contains(x) {
                    let q = choose|q: int| 0 <= q < o.len() && o[q] == x;
                    if q > 0 {
                        assert(out2[q - 1] == x);
                    }
                }
            }
            assert forall|j: int| 1 <= j < stack.len() implies self.edge_to@.contains_key(
                #[trigger] stack[j],
            ) && self.edge_to@[stack[j]] == stack[j - 1] by {
                assert(full[j] == stack[j]);
            }
            assert(is_path(g, stack)) by {
                assert forall|j: int| 0 <= j < stack.len() - 1 implies #[trigger] edge(
                    g,
                    stack[j],
                    stack[j + 1],
                ) by {
                    assert(edge(g, full[j], full[j + 1]));
                }
            }
            if stack.len() > 0 {
                assert(full[0] == stack[0]);
            }
            assert(o[0] == node);
            assert(o.subrange(o.len() - out0.len(), o.len() as int) =~= out0) by {
                assert forall|q: int| 0 <= q < out0.len() implies o[o.len() - out0.len() + q]
                    == out0[q] by {
                    assert(out2[out2.len() - out0.len() + q] == out0[q]);
                }
            }
        }
        Ok(())
    }

    /// Ordering from select nodes.
    pub fn from(self, nodes: Vec<u64>) -> (r: Result<VecDeque<u64>, CycleError>)
        requires
            self.fresh(),
        ensures
            match r {
                Ok(order) => {
                    &&& is_topological(self.graph_view(), order@)
                    &&& forall|n: u64| #[trigger]
                        order@.contains(n) <==> reachable(self.graph_view(), nodes@, n)
                },
                Err(e) => is_cycle_trace(self.graph_view(), e.path()) && nodes@.contains(e.path()[0]),
            },
    {
        let mut this = self;
        let ghost g = this.graph@;
        let ghost roots = nodes@;
        let mut order: VecDeque<u64> = VecDeque::new();
        assert(this.inv(order@, Seq::empty(), roots));
        let mut i: usize = 0;
        while i < nodes.len()
            invariant
                this.graph == self.graph,
                g == self.graph@,
                roots == nodes@,
                this.inv(order@, Seq::empty(), roots),
                this.crumbs_visited(),
                i <= nodes.len(),
                forall|j: int| 0 <= j < i ==> order@.contains(#[trigger] nodes@[j]),
            decreases nodes.len() - i,
        {
            let node = nodes[i];
            if !this.visited.contains(&node) {
                let ghost order1 = order@;
                proof {
                    assert(roots.contains(node));
                    let p = seq![node];
                    assert(is_path(g, p));
                    assert(p.last() == node);
                    assert(reachable(g, roots, node));
                }
                this.dfs(node, &mut order, Ghost(Seq::empty()), Ghost(roots))?;
                proof {
                    assert forall|j: int| 0 <= j < i implies order@.contains(#[trigger] nodes@[j]) by {
                        let p = choose|p: int| 0 <= p < order1.len() && order1[p] == nodes@[j];
                        assert(order@[order@.len() - order1.len() + p] == order1[p]);
                    }
                }
            } else {
                assert(order@.contains(node));
            }
            i = i + 1;
        }
        proof {
            assert forall|n: u64| #[trigger] order@.contains(n) <==> reachable(g, roots, n) by {
                if order@.contains(n) {
                    assert(this.visited@.contains(n));
                }
                if reachable(g, roots, n) {
                    let p = choose|p: Seq<u64>|
                        #![trigger is_path(g, p), p.last()]
                        p.len() >= 1 && is_path(g, p) && roots.contains(p[0]) && p.last() == n;
                    let j = choose|j: int| 0 <= j < roots.len() && roots[j] == p[0];
                    assert(order@.contains(nodes@[j]));
                    lemma_closed_path(g, order@, p);
                }
            }
        }
        Ok(order)
    }

    /// The typical resolution algorithm, returns a topological ordering
    /// of the nodes which honors the dependencies.
    pub fn all(self) -> (r: Result<VecDeque<u64>, CycleError>)
        requires
            self.fresh(),
        ensures
            match r {
                Ok(order) => {
                    &&& is_topological(self.graph_view(), order@)
                    &&& forall|n: u64| #[trigger] order@.contains(n) <==> is_vertex(self.graph_view(), n)
                },
                Err(e) => is_cycle_trace(self.graph_view(), e.path()),
            },
    {
        let g = self.graph;
        let nodes = g.nodes();
        let r = self.from(nodes);
        proof {
            if let Ok(order) = &r {
                assert forall|n: u64| #[trigger] order@.contains(n) <==> is_vertex(g@, n) by {
                    if order@.contains(n) {
                        lemma_reachable_vertex(g@, nodes@, n);
                    }
                    if is_vertex(g@, n) {
                        lemma_vertex_reachable(g@, nodes@, n);
                    }
                }
            }
        }
        r
    }
}

/// Every node reachable from registered nodes is a vertex.
proof fn lemma_reachable_vertex(g: Map<u64, Set<u64>>, keys: Seq<u64>, n: u64)
    requires
        forall|k: u64| keys.contains(k) <==> g.contains_key(k),
        reachable(g, keys, n),
    ensures
        is_vertex(g, n),
{
    let p = choose|p: Seq<u64>|
        #![trigger is_path(g, p), p.last()]
        p.len() >= 1 && is_path(g, p) && keys.contains(p[0]) && p.last() == n;
    if p.len() > 1 {
        let j = p.len() - 2;
        assert(edge(g, p[j], p[j + 1]));
    }
}

/// Every vertex is reachable from the registered nodes.
proof fn lemma_vertex_reachable(g: Map<u64, Set<u64>>, keys: Seq<u64>, n: u64)
    requires
        forall|k: u64| keys.contains(k) <==> g.contains_key(k),
        is_vertex(g, n),
    ensures
        reachable(g, keys, n),
{
    if g.contains_key(n) {
        let p = seq![n];
        assert(is_path(g, p));
        assert(p.last() == n);
    } else {
        let a = choose|a: u64| #[trigger] edge(g, a, n);
        let p = seq![a, n];
        assert(is_path(g, p)) by {
            assert forall|i: int| 0 <= i < p.len() - 1 implies #[trigger] edge(g, p[i], p[i + 1]) by {
                assert(i == 0);
            }
        }
        assert(p.last() == n);
        assert(keys.contains(p[0]));
    }
}

} // verus!
