//! Job scheduling.
//!
//! The `Manager` decides, from the dependency graph of the registered rules,
//! which binds may be processed and when: a bind is released for processing
//! only once every bind it depends on has finished. Running the released work
//! and reporting back when it finished is left to the caller.
use std::collections::BTreeMap;
use std::collections::BTreeSet;
use std::collections::VecDeque;
use vstd::prelude::*;

use crate::dependency::{
    acyclic,
    dependencies,
    edge,
    is_topological,
    is_cycle_trace,
    is_vertex,
    lemma_pos,
    pos,
    CycleError,
    Graph,
};

verus! {

broadcast use vstd::std_specs::btree::group_btree_axioms;

/// The number of dependencies of `j` that have not finished yet.
pub open spec fn pending_dependencies(g: Map<u64, Set<u64>>, finished: Set<u64>, j: u64) -> Set<u64> {
    dependencies(g, j).difference(finished)
}

/// What filtering keeps: exactly the members that satisfy the predicate, and
/// no member twice if there was none twice before.
pub(crate) proof fn lemma_filter_members(s: Seq<u64>, p: spec_fn(u64) -> bool)
    ensures
        forall|x: u64| #[trigger] s.filter(p).contains(x) <==> (s.contains(x) && p(x)),
        s.no_duplicates() ==> s.filter(p).no_duplicates(),
    decreases s.len(),
{
    reveal(Seq::filter);
    if s.len() > 0 {
        let t = s.drop_last();
        lemma_filter_members(t, p);
        if p(s.last()) {
            assert(s.filter(p) == t.filter(p).push(s.last()));
        } else {
            assert(s.filter(p) == t.filter(p));
        }
        assert forall|x: u64| #[trigger] s.filter(p).contains(x) <==> (s.contains(x) && p(x)) by {
            if s.filter(p).contains(x) && !p(s.last()) {
                assert(t.filter(p).contains(x));
                assert(t.contains(x));
            }
            if s.contains(x) && x != s.last() {
                let q = choose|q: int| 0 <= q < s.len() && s[q] == x;
                assert(t[q] == x);
            }
            if t.contains(x) {
                let q = choose|q: int| 0 <= q < t.len() && t[q] == x;
                assert(s[q] == x);
            }
            if s.filter(p).contains(x) && p(s.last()) && x == s.last() {
                assert(s[s.len() - 1] == x);
            }
            if p(s.last()) && x == s.last() {
                assert(s.filter(p) == t.filter(p).push(x));
                assert(s.filter(p)[t.filter(p).len() as int] == x);
            }
            if p(s.last()) && t.filter(p).contains(x) {
                let q = choose|q: int| 0 <= q < t.filter(p).len() && t.filter(p)[q] == x;
                assert(s.filter(p)[q] == x);
            }
            if p(s.last()) && s.filter(p).contains(x) && x != s.last() {
                let q = choose|q: int| 0 <= q < s.filter(p).len() && s.filter(p)[q] == x;
                assert(t.filter(p)[q] == x);
            }
        }
        if s.no_duplicates() {
            assert(t.no_duplicates());
            if p(s.last()) {
                assert(!t.contains(s.last())) by {
                    if t.contains(s.last()) {
                        let q = choose|q: int| 0 <= q < t.len() && t[q] == s.last();
                        assert(s[q] == s[s.len() - 1]);
                    }
                }
                assert(!t.filter(p).contains(s.last()));
                let f = s.filter(p);
                assert forall|a: int, b: int| 0 <= a < f.len() && 0 <= b < f.len() && a != b implies f[a]
                    != f[b] by {
                    if a == f.len() - 1 {
                        assert(t.filter(p).contains(f[b]));
                    } else if b == f.len() - 1 {
                        assert(t.filter(p).contains(f[a]));
                    } else {
                        assert(t.filter(p)[a] == f[a]);
                        assert(t.filter(p)[b] == f[b]);
                    }
                }
            }
        }
    }
}

/// Filtering by predicates that agree on the members gives the same result.
proof fn lemma_filter_congruent(s: Seq<u64>, p: spec_fn(u64) -> bool, q: spec_fn(u64) -> bool)
    requires
        forall|i: int| 0 <= i < s.len() ==> p(#[trigger] s[i]) == q(s[i]),
    ensures
        s.filter(p) == s.filter(q),
    decreases s.len(),
{
    reveal(Seq::filter);
    if s.len() > 0 {
        let t = s.drop_last();
        assert forall|i: int| 0 <= i < t.len() implies p(#[trigger] t[i]) == q(t[i]) by {
            assert(t[i] == s[i]);
        }
        lemma_filter_congruent(t, p, q);
        assert(p(s[s.len() - 1]) == q(s[s.len() - 1]));
    }
}

/// The members of `s` whose dependencies have all finished, in order.
pub open spec fn released_binds(g: Map<u64, Set<u64>>, finished: Set<u64>, s: Seq<u64>) -> Seq<u64> {
    s.filter(|j: u64| dependencies(g, j).subset_of(finished))
}

/// The members of `s` with a dependency that has not finished, in order.
pub open spec fn held_binds(g: Map<u64, Set<u64>>, finished: Set<u64>, s: Seq<u64>) -> Seq<u64> {
    s.filter(|j: u64| !dependencies(g, j).subset_of(finished))
}

/// Which binds `released_binds` and `held_binds` keep, and that they keep
/// each once.
pub proof fn lemma_release_members(g: Map<u64, Set<u64>>, finished: Set<u64>, s: Seq<u64>)
    ensures
        forall|x: u64| #[trigger]
            released_binds(g, finished, s).contains(x) <==> (s.contains(x) && dependencies(
                g,
                x,
            ).subset_of(finished)),
        forall|x: u64| #[trigger]
            held_binds(g, finished, s).contains(x) <==> (s.contains(x) && !dependencies(
                g,
                x,
            ).subset_of(finished)),
        s.no_duplicates() ==> released_binds(g, finished, s).no_duplicates(),
        s.no_duplicates() ==> held_binds(g, finished, s).no_duplicates(),
{
    lemma_filter_members(s, |j: u64| dependencies(g, j).subset_of(finished));
    lemma_filter_members(s, |j: u64| !dependencies(g, j).subset_of(finished));
}

/// Tracks the binds of the rules and their progress through a build.
pub struct Manager {
    /// Bind names; a bind is identified by its position here.
    names: Vec<String>,
    /// `b` depends on `a` when there is an edge `a -> b`.
    graph: Graph,
    /// The dependency count of each bind that has not been satisfied yet.
    dependencies: BTreeMap<u64, usize>,
    /// Binds that have not been released for processing yet.
    waiting: Vec<u64>,
    /// Binds whose processing has finished.
    finished: BTreeSet<u64>,
    /// The order in which the binds were sorted.
    order: Ghost<Seq<u64>>,
}

impl Manager {
    pub closed spec fn names_view(&self) -> Seq<Seq<char>> {
        self.names@.map_values(|s: String| s@)
    }

    pub closed spec fn graph_view(&self) -> Map<u64, Set<u64>> {
        self.graph@
    }

    pub closed spec fn waiting_view(&self) -> Seq<u64> {
        self.waiting@
    }

    pub closed spec fn finished_view(&self) -> Set<u64> {
        self.finished@
    }

    pub closed spec fn counts_view(&self) -> Map<u64, usize> {
        self.dependencies@
    }

    /// The order in which the binds were sorted by the last build.
    pub closed spec fn order_view(&self) -> Seq<u64> {
        self.order@
    }

    /// The number of binds known by name.
    pub open spec fn bind_count(&self) -> nat {
        self.names_view().len()
    }

    /// Binds being collected: nothing has been sorted or finished yet.
    pub closed spec fn wf_setup(&self) -> bool {
        &&& self.graph.wf()
        &&& self.names_view().no_duplicates()
        &&& self.names@.len() < u64::MAX
        &&& forall|v: u64| #[trigger] is_vertex(self.graph@, v) ==> v < self.names@.len()
        &&& forall|i: int|
            0 <= i < self.waiting@.len() ==> #[trigger] self.waiting@[i] < self.names@.len()
                && self.graph@.contains_key(self.waiting@[i])
        &&& self.dependencies@ == Map::<u64, usize>::empty()
        &&& self.finished@ == Set::<u64>::empty()
    }

    /// Every known name belongs to exactly one registered bind.
    pub open spec fn registered(&self) -> bool {
        &&& self.waiting_view().no_duplicates()
        &&& forall|id: u64| id < self.bind_count() ==> #[trigger] self.waiting_view().contains(id)
    }

    /// A build in progress, with every ready bind released.
    pub closed spec fn wf_running(&self) -> bool {
        &&& self.wf_core()
        &&& forall|i: int|
            0 <= i < self.waiting@.len() ==> #[trigger] self.dependencies@[self.waiting@[i]] > 0
    }

    /// A build in progress: the binds are sorted and the counts of
    /// unsatisfied dependencies are kept up to date.
    pub closed spec fn wf_core(&self) -> bool {
        let g = self.graph@;
        let n = self.names@.len();
        let order = self.order@;
        &&& self.graph.wf()
        &&& acyclic(g)
        &&& forall|v: u64| #[trigger] is_vertex(g, v) <==> v < n
        &&& is_topological(g, order)
        &&& forall|v: u64| #[trigger] order.contains(v) <==> v < n
        &&& self.waiting@.no_duplicates()
        &&& forall|i: int| 0 <= i < self.waiting@.len() ==> #[trigger] self.waiting@[i] < n
        &&& forall|v: u64| #[trigger] self.finished@.contains(v) ==> v < n && !self.waiting@.contains(v)
        &&& forall|j: u64|
            j < n ==> #[trigger] self.dependencies@.contains_key(j) && self.dependencies@[j]
                == pending_dependencies(g, self.finished@, j).len()
        &&& forall|j: u64|
            j < n && !self.waiting@.contains(j) ==> #[trigger] dependencies(g, j).subset_of(
                self.finished@,
            )
    }

    pub fn new() -> (m: Manager)
        ensures
            m.wf_setup(),
            m.names_view() == Seq::<Seq<char>>::empty(),
            m.waiting_view() == Seq::<u64>::empty(),
            m.graph_view() == Map::<u64, Set<u64>>::empty(),
    {
        let m = Manager {
            names: Vec::new(),
            graph: Graph::new(),
            dependencies: BTreeMap::new(),
            waiting: Vec::new(),
            finished: BTreeSet::new(),
            order: Ghost(Seq::empty()),
        };
        assert(m.names_view() =~= Seq::<Seq<char>>::empty());
        m
    }

    /// The identifier of the bind named `name`, which becomes known if it was not.
    fn id_of(&mut self, name: &str) -> (id: u64)
        requires
            old(self).names_view().no_duplicates(),
            old(self).names@.len() + 1 < u64::MAX,
        ensures
            final(self).graph == old(self).graph,
            final(self).waiting == old(self).waiting,
            final(self).dependencies == old(self).dependencies,
            final(self).finished == old(self).finished,
            final(self).names_view().no_duplicates(),
            if old(self).names_view().contains(name@) {
                final(self).names_view() == old(self).names_view()
            } else {
                final(self).names_view() == old(self).names_view().push(name@)
            },
            id < final(self).names@.len(),
            final(self).names_view()[id as int] == name@,
    {
        let wanted = String::from_str(name);
        let mut i: usize = 0;
        while i < self.names.len()
            invariant
                self.names == old(self).names,
                self.graph == old(self).graph,
                self.waiting == old(self).waiting,
                self.dependencies == old(self).dependencies,
                self.finished == old(self).finished,
                wanted@ == name@,
                old(self).names_view().no_duplicates(),
                i <= self.names@.len(),
                forall|j: int| 0 <= j < i ==> #[trigger] self.names@[j]@ != name@,
            decreases self.names@.len() - i,
        {
            if self.names[i] == wanted {
                assert(self.names_view() == old(self).names_view());
                assert(self.names_view()[i as int] == name@);
                assert(self.names_view().contains(name@));
                return i as u64;
            }
            i = i + 1;
        }
        assert(!self.names_view().contains(name@)) by {
            if self.names_view().contains(name@) {
                let j = choose|j: int| 0 <= j < self.names_view().len() && self.names_view()[j] == name@;
                assert(self.names@[j]@ == name@);
            }
        }
        let id = self.names.len() as u64;
        self.names.push(wanted);
        assert(self.names_view() =~= old(self).names_view().push(name@));
        id
    }

    /// Register the bind of a rule named `name` that depends on the binds named
    /// in `dependencies`; returns the bind's identifier.
    pub fn add(&mut self, name: &str, dependencies: &Vec<String>) -> (id: u64)
        requires
            old(self).wf_setup(),
            old(self).bind_count() + dependencies@.len() + 2 < u64::MAX,
        ensures
            final(self).wf_setup(),
            final(self).names_view().no_duplicates(),
            id < final(self).bind_count(),
            final(self).names_view()[id as int] == name@,
            final(self).waiting_view() == old(self).waiting_view().push(id),
            final(self).names_view().len() >= old(self).names_view().len(),
            final(self).names_view().subrange(0, old(self).bind_count() as int)
                == old(self).names_view(),
            forall|s: Seq<char>| #[trigger]
                final(self).names_view().contains(s) <==> (old(self).names_view().contains(s)
                    || s == name@ || dependencies@.map_values(|d: String| d@).contains(s)),
            forall|a: u64, b: u64| #[trigger]
                edge(final(self).graph_view(), a, b) <==> (edge(old(self).graph_view(), a, b) || (b
                    == id && a < final(self).bind_count() && dependencies@.map_values(
                    |d: String| d@,
                ).contains(final(self).names_view()[a as int]))),
            forall|k: u64| #[trigger]
                final(self).graph_view().contains_key(k) <==> (old(self).graph_view().contains_key(k)
                    || k == id || (k < final(self).bind_count() && dependencies@.map_values(
                    |d: String| d@,
                ).contains(final(self).names_view()[k as int]))),
    {
        let ghost deps = dependencies@.map_values(|d: String| d@);
        let ghost names0 = self.names_view();
        let ghost g0 = self.graph@;
        let id = self.id_of(name);
        self.waiting.push(id);
        self.graph.add_node(id);
        proof {
            assert(self.names_view().len() == self.names@.len());
            assert(names0.len() == old(self).names@.len());
            assert(deps.subrange(0, 0) =~= Seq::<Seq<char>>::empty());
            assert(self.names_view().subrange(0, names0.len() as int) =~= names0);
            assert forall|s: Seq<char>| #[trigger]
                self.names_view().contains(s) <==> (names0.contains(s) || s == name@
                    || deps.subrange(0, 0).contains(s)) by {
                if names0.contains(s) {
                    let q = choose|q: int| 0 <= q < names0.len() && names0[q] == s;
                    assert(self.names_view()[q] == s);
                }
            }
        }
        let mut i: usize = 0;
        while i < dependencies.len()
            invariant
                self.graph.wf(),
                self.names_view().no_duplicates(),
                self.names@.len() + dependencies@.len() - i + 1 < u64::MAX,
                self.names@.len() >= names0.len(),
                self.names_view().subrange(0, names0.len() as int) == names0,
                id < self.names@.len(),
                self.names_view()[id as int] == name@,
                self.waiting@ == old(self).waiting@.push(id),
                self.dependencies@ == Map::<u64, usize>::empty(),
                self.finished@ == Set::<u64>::empty(),
                deps == dependencies@.map_values(|d: String| d@),
                i <= dependencies@.len(),
                forall|s: Seq<char>| #[trigger]
                    self.names_view().contains(s) <==> (names0.contains(s) || s == name@
                        || deps.subrange(0, i as int).contains(s)),
                forall|a: u64, b: u64| #[trigger]
                    edge(self.graph@, a, b) <==> (edge(g0, a, b) || (b == id && a
                        < self.names@.len() && deps.subrange(0, i as int).contains(
                        self.names_view()[a as int],
                    ))),
                forall|k: u64| #[trigger]
                    self.graph@.contains_key(k) <==> (g0.contains_key(k) || k == id || (k
                        < self.names@.len() && deps.subrange(0, i as int).contains(
                        self.names_view()[k as int],
                    ))),
            decreases dependencies@.len() - i,
        {
            let ghost names1 = self.names_view();
            let d = self.id_of(dependencies[i].as_str());
            let ghost g1 = self.graph@;
            self.graph.add_edge(d, id);
            proof {
                assert forall|a: u64, b: u64|
                    #[trigger] edge(self.graph@, a, b) <==> (edge(g1, a, b) || (a == d && b == id)) by {
                }
                assert(self.names_view().len() == self.names@.len());
                let dn = dependencies@[i as int]@;
                let ds1 = deps.subrange(0, i + 1);
                let ds0 = deps.subrange(0, i as int);
                assert(deps[i as int] == dn);
                assert(deps.subrange(0, i + 1) =~= deps.subrange(0, i as int).push(dn));
                assert(self.names_view().subrange(0, names1.len() as int) =~= names1);
                assert(self.names_view().subrange(0, names0.len() as int) =~= names0) by {
                    assert forall|q: int| 0 <= q < names0.len() implies self.names_view()[q]
                        == names0[q] by {
                        assert(names1[q] == names0[q]);
                    }
                }
                assert forall|s: Seq<char>| #[trigger]
                    self.names_view().contains(s) <==> (names0.contains(s) || s == name@
                        || deps.subrange(0, i + 1).contains(s)) by {
                    if self.names_view().contains(s) && !names1.contains(s) {
                        assert(s == dn);
                        assert(deps.subrange(0, i + 1)[i as int] == dn);
                    }
                    if names1.contains(s) {
                        let q = choose|q: int| 0 <= q < names1.len() && names1[q] == s;
                        assert(self.names_view()[q] == s);
                    }
                    if deps.subrange(0, i + 1).contains(s) && !deps.subrange(0, i as int).contains(s) {
                        let q = choose|q: int| 0 <= q < i + 1 && ds1[q] == s;
                        if q < i {
                            assert(deps.subrange(0, i as int)[q] == s);
                        }
                        assert(s == dn);
                        assert(self.names_view()[d as int] == s);
                    }
                }
                assert forall|a: u64, b: u64| #[trigger]
                    edge(self.graph@, a, b) <==> (edge(g0, a, b) || (b == id && a < self.names@.len()
                        && deps.subrange(0, i + 1).contains(self.names_view()[a as int]))) by {
                    if a < names1.len() {
                        assert(self.names_view()[a as int] == names1[a as int]);
                    }
                    if b == id && a < self.names@.len() && deps.subrange(0, i + 1).contains(
                        self.names_view()[a as int],
                    ) && !deps.subrange(0, i as int).contains(self.names_view()[a as int]) {
                        let q = choose|q: int| 0 <= q < i + 1 && ds1[q] == self.names_view()[a as int];
                        if q < i {
                            assert(deps.subrange(0, i as int)[q] == self.names_view()[a as int]);
                        }
                        assert(self.names_view()[a as int] == dn);
                        assert(self.names_view()[d as int] == dn);
                        assert(a == d);
                    }
                    if a == d && b == id {
                        assert(deps.subrange(0, i + 1)[i as int] == dn);
                    }
                    if a >= names1.len() && a < self.names@.len() {
                        assert(a == d);
                    }
                }
                assert forall|k: u64| #[trigger]
                    self.graph@.contains_key(k) <==> (g0.contains_key(k) || k == id || (k
                        < self.names@.len() && deps.subrange(0, i + 1).contains(
                        self.names_view()[k as int],
                    ))) by {
                    if k < names1.len() {
                        assert(self.names_view()[k as int] == names1[k as int]);
                    }
                    if k < self.names@.len() && deps.subrange(0, i + 1).contains(
                        self.names_view()[k as int],
                    ) && !deps.subrange(0, i as int).contains(self.names_view()[k as int]) {
                        let q = choose|q: int| 0 <= q < i + 1 && ds1[q] == self.names_view()[k as int];
                        if q < i {
                            assert(deps.subrange(0, i as int)[q] == self.names_view()[k as int]);
                        }
                        assert(self.names_view()[k as int] == dn);
                        assert(self.names_view()[d as int] == dn);
                        assert(k == d);
                    }
                    if k == d {
                        assert(deps.subrange(0, i + 1)[i as int] == dn);
                    }
                    if k >= names1.len() && k < self.names@.len() {
                        assert(k == d);
                    }
                }
            }
            i = i + 1;
        }
        proof {
            assert(deps.subrange(0, dependencies@.len() as int) =~= deps);
            assert forall|v: u64| #[trigger] is_vertex(self.graph@, v) implies v < self.names@.len() by {
                if self.graph@.contains_key(v) {
                    if g0.contains_key(v) {
                        assert(is_vertex(g0, v));
                    }
                } else {
                    let a = choose|a: u64| #[trigger] edge(self.graph@, a, v);
                    if edge(g0, a, v) {
                        assert(is_vertex(g0, v));
                    }
                }
            }
            assert forall|q: int| 0 <= q < self.waiting@.len() implies #[trigger] self.waiting@[q]
                < self.names@.len() && self.graph@.contains_key(self.waiting@[q]) by {
                if q < old(self).waiting@.len() {
                    assert(self.waiting@[q] == old(self).waiting@[q]);
                }
            }
        }
        id
    }

    /// The name of the bind `id`.
    pub fn name(&self, id: u64) -> (r: &str)
        requires
            id < self.bind_count(),
        ensures
            r@ == self.names_view()[id as int],
    {
        assert(self.names_view().len() == self.names@.len());
        assert(self.names_view()[id as int] == self.names@[id as int]@);
        let n = self.names.len();
        assert(id < n);
        self.names[id as usize].as_str()
    }

    /// Whether every known name belongs to exactly one registered bind.
    pub fn all_registered(&self) -> (r: bool)
        requires
            self.wf_setup(),
        ensures
            r == self.registered(),
    {
        let n = self.names.len();
        let mut seen: Vec<bool> = Vec::new();
        let mut k: usize = 0;
        while k < n
            invariant
                k <= n,
                n == self.names@.len(),
                seen@.len() == k,
                forall|x: int| 0 <= x < k ==> !#[trigger] seen@[x],
            decreases n - k,
        {
            seen.push(false);
            k = k + 1;
        }
        let mut i: usize = 0;
        while i < self.waiting.len()
            invariant
                self.wf_setup(),
                n == self.names@.len(),
                seen@.len() == n,
                i <= self.waiting@.len(),
                self.waiting@.subrange(0, i as int).no_duplicates(),
                forall|x: u64| x < n ==> (#[trigger] seen@[x as int] <==> self.waiting@.subrange(
                    0,
                    i as int,
                ).contains(x)),
            decreases self.waiting@.len() - i,
        {
            let w = self.waiting[i];
            assert(w < n);
            if seen[w as usize] {
                proof {
                    let q = choose|q: int| 0 <= q < i && self.waiting@.subrange(0, i as int)[q] == w;
                    assert(self.waiting@[q] == self.waiting@[i as int]);
                    assert(!self.waiting_view().no_duplicates());
                }
                return false;
            }
            seen.set(w as usize, true);
            proof {
                let prefix = self.waiting@.subrange(0, i + 1);
                assert(prefix =~= self.waiting@.subrange(0, i as int).push(w));
                assert forall|x: u64| x < n implies (#[trigger] seen@[x as int] <==> prefix.contains(x)) by {
                    if x == w {
                        assert(prefix[i as int] == w);
                    }
                    if prefix.contains(x) && x != w {
                        let q = choose|q: int| 0 <= q < i + 1 && prefix[q] == x;
                        assert(self.waiting@.subrange(0, i as int)[q] == x);
                    }
                }
            }
            i = i + 1;
        }
        assert(self.waiting@.subrange(0, self.waiting@.len() as int) =~= self.waiting@);
        let mut id: usize = 0;
        while id < n
            invariant
                n == self.names@.len(),
                seen@.len() == n,
                id <= n,
                self.waiting_view().no_duplicates(),
                forall|x: u64| x < n ==> (#[trigger] seen@[x as int] <==> self.waiting@.contains(x)),
                forall|x: u64| x < id ==> #[trigger] self.waiting_view().contains(x),
            decreases n - id,
        {
            if !seen[id] {
                assert(!self.waiting_view().contains(id as u64));
                return false;
            }
            id = id + 1;
        }
        true
    }

    /// Take the binds whose dependencies are all satisfied out of the waiting
    /// list, keeping the order of both parts.
    fn ready(&mut self) -> (r: Vec<u64>)
        requires
            old(self).wf_core(),
        ensures
            final(self).wf_running(),
            final(self).names == old(self).names,
            final(self).graph == old(self).graph,
            final(self).dependencies == old(self).dependencies,
            final(self).finished == old(self).finished,
            final(self).order == old(self).order,
            r@ == old(self).waiting@.filter(|j: u64| old(self).dependencies@[j] == 0),
            final(self).waiting@ == old(self).waiting@.filter(
                |j: u64| old(self).dependencies@[j] != 0,
            ),
    {
        let ghost w0 = self.waiting@;
        let ghost counts = self.dependencies@;
        let ghost is_ready = |j: u64| counts[j] == 0;
        let ghost not_ready = |j: u64| counts[j] != 0;
        let mut ready: Vec<u64> = Vec::new();
        let mut rest: Vec<u64> = Vec::new();
        let mut i: usize = 0;
        while i < self.waiting.len()
            invariant
                self.wf_core(),
                self.waiting@ == w0,
                self.dependencies@ == counts,
                is_ready == (|j: u64| counts[j] == 0),
                not_ready == (|j: u64| counts[j] != 0),
                i <= w0.len(),
                ready@ == w0.take(i as int).filter(is_ready),
                rest@ == w0.take(i as int).filter(not_ready),
            decreases w0.len() - i,
        {
            let job = self.waiting[i];
            assert(w0[i as int] < self.names@.len());
            let count = *self.dependencies.get(&job).unwrap();
            proof {
                reveal_with_fuel(Seq::filter, 1);
                assert(w0.take(i + 1).drop_last() =~= w0.take(i as int));
                assert(w0.take(i + 1).last() == job);
            }
            if count == 0 {
                ready.push(job);
            } else {
                rest.push(job);
            }
            i = i + 1;
        }
        proof {
            assert(w0.take(w0.len() as int) =~= w0);
            lemma_filter_members(w0, is_ready);
            lemma_filter_members(w0, not_ready);
        }
        self.waiting = rest;
        proof {
            let n = self.names@.len();
            assert forall|q: int| 0 <= q < self.waiting@.len() implies #[trigger] self.waiting@[q]
                < n by {
                assert(w0.filter(not_ready).contains(self.waiting@[q]));
            }
            assert forall|v: u64| #[trigger] self.finished@.contains(v) implies v < n
                && !self.waiting@.contains(v) by {
                if self.waiting@.contains(v) {
                    assert(w0.filter(not_ready).contains(v));
                }
            }
            assert forall|j: u64| j < n && !self.waiting@.contains(j) implies #[trigger] dependencies(
                self.graph@,
                j,
            ).subset_of(self.finished@) by {
                if w0.contains(j) {
                    assert(!not_ready(j));
                    assert(self.dependencies@.contains_key(j));
                    self.graph.lemma_dependencies_finite(j);
                    let pend = pending_dependencies(self.graph@, self.finished@, j);
                    assert(pend.len() == 0);
                    pend.lemma_len0_is_empty();
                    assert forall|a: u64| dependencies(self.graph@, j).contains(a) implies self.finished@.contains(
                        a,
                    ) by {
                        if !self.finished@.contains(a) {
                            assert(pend.contains(a));
                        }
                    }
                }
            }
            assert forall|q: int| 0 <= q < self.waiting@.len() implies #[trigger] self.dependencies@[self.waiting@[q]]
                > 0 by {
                assert(w0.filter(not_ready).contains(self.waiting@[q]));
            }
        }
        ready
    }

    /// Count the finished bind `id` as satisfied for every bind that depends on it.
    fn satisfy(&mut self, id: u64)
        requires
            old(self).graph.wf(),
            id < old(self).names@.len(),
            old(self).finished@.contains(id),
            forall|v: u64| #[trigger] is_vertex(old(self).graph@, v) <==> v < old(self).names@.len(),
            forall|j: u64|
                j < old(self).names@.len() ==> #[trigger] old(self).dependencies@.contains_key(j)
                    && old(self).dependencies@[j] == pending_dependencies(
                    old(self).graph@,
                    old(self).finished@.remove(id),
                    j,
                ).len(),
        ensures
            final(self).names == old(self).names,
            final(self).graph == old(self).graph,
            final(self).waiting == old(self).waiting,
            final(self).finished == old(self).finished,
            final(self).order == old(self).order,
            final(self).dependencies@.dom() == old(self).dependencies@.dom(),
            forall|j: u64|
                j < final(self).names@.len() ==> #[trigger] final(self).dependencies@[j]
                    == pending_dependencies(final(self).graph@, final(self).finished@, j).len(),
    {
        let ghost g = self.graph@;
        let ghost f = self.finished@;
        let ghost f0 = self.finished@.remove(id);
        let ghost n = self.names@.len();
        proof {
            assert forall|j: u64| j < n && !edge(g, id, j) implies pending_dependencies(g, f, j)
                == pending_dependencies(g, f0, j) by {
                assert(pending_dependencies(g, f, j) =~= pending_dependencies(g, f0, j));
            }
        }
        if let Some(dependents) = self.graph.neighbors_of(id) {
            let mut k: usize = 0;
            proof {
                assert(dependents@.take(0) =~= Seq::<u64>::empty());
                assert forall|j: u64| j < n implies #[trigger] self.dependencies@[j] == if dependents@.take(
                    0,
                ).contains(j) {
                    pending_dependencies(g, f, j).len()
                } else {
                    pending_dependencies(g, f0, j).len()
                } by {
                    assert(self.dependencies@.contains_key(j));
                }
            }
            while k < dependents.len()
                invariant
                    self.names == old(self).names,
                    self.graph == old(self).graph,
                    self.waiting == old(self).waiting,
                    self.finished == old(self).finished,
                    self.order == old(self).order,
                    self.graph.wf(),
                    g == self.graph@,
                    f == self.finished@,
                    f0 == f.remove(id),
                    f.contains(id),
                    n == self.names@.len(),
                    forall|v: u64| #[trigger] is_vertex(g, v) <==> v < n,
                    dependents@.no_duplicates(),
                    forall|j: u64| dependents@.contains(j) <==> edge(g, id, j),
                    k <= dependents@.len(),
                    self.dependencies@.dom() == old(self).dependencies@.dom(),
                    forall|j: u64| j < n ==> #[trigger] self.dependencies@.contains_key(j),
                    forall|j: u64|
                        j < n ==> #[trigger] self.dependencies@[j] == if dependents@.take(
                            k as int,
                        ).contains(j) {
                            pending_dependencies(g, f, j).len()
                        } else {
                            pending_dependencies(g, f0, j).len()
                        },
                decreases dependents@.len() - k,
            {
                let j = dependents[k];
                assert(dependents@.contains(j));
                assert(is_vertex(g, j));
                assert(!dependents@.take(k as int).contains(j)) by {
                    if dependents@.take(k as int).contains(j) {
                        let q = choose|q: int| 0 <= q < k && dependents@.take(k as int)[q] == j;
                        assert(dependents@[q] == dependents@[k as int]);
                    }
                }
                proof {
                    self.graph.lemma_dependencies_finite(j);
                    assert(pending_dependencies(g, f0, j).contains(id));
                    assert(pending_dependencies(g, f, j) =~= pending_dependencies(g, f0, j).remove(id));
                }
                let count = *self.dependencies.get(&j).unwrap();
                self.dependencies.insert(j, count - 1);
                proof {
                    let t1 = dependents@.take(k + 1);
                    assert(t1 =~= dependents@.take(k as int).push(j));
                    assert forall|x: u64| x < n implies #[trigger] self.dependencies@[x] == if t1.contains(
                        x,
                    ) {
                        pending_dependencies(g, f, x).len()
                    } else {
                        pending_dependencies(g, f0, x).len()
                    } by {
                        if x == j {
                            assert(t1[k as int] == j);
                        } else if t1.contains(x) {
                            let q = choose|q: int| 0 <= q < k + 1 && t1[q] == x;
                            assert(dependents@.take(k as int)[q] == x);
                        } else if dependents@.take(k as int).contains(x) {
                            let q = choose|q: int| 0 <= q < k && dependents@.take(k as int)[q] == x;
                            assert(t1[q] == x);
                        }
                    }
                }
                k = k + 1;
            }
            proof {
                assert(dependents@.take(dependents@.len() as int) =~= dependents@);
                assert forall|j: u64| j < n implies #[trigger] self.dependencies@[j]
                    == pending_dependencies(g, f, j).len() by {
                    if !dependents@.contains(j) {
                        assert(!edge(g, id, j));
                    }
                }
            }
        } else {
            proof {
                assert forall|j: u64| j < n implies #[trigger] self.dependencies@[j]
                    == pending_dependencies(g, f, j).len() by {
                    assert(!edge(g, id, j));
                    assert(self.dependencies@.contains_key(j));
                }
            }
        }
    }

    /// Release the binds whose dependencies are all satisfied.
    fn enqueue_ready(&mut self) -> (r: Vec<u64>)
        requires
            old(self).wf_core(),
        ensures
            final(self).wf_running(),
            final(self).names == old(self).names,
            final(self).graph == old(self).graph,
            final(self).finished == old(self).finished,
            final(self).order == old(self).order,
            r@ == released_binds(old(self).graph@, old(self).finished@, old(self).waiting@),
            final(self).waiting@ == held_binds(old(self).graph@, old(self).finished@, old(self).waiting@),
    {
        let ghost g = self.graph@;
        let ghost f = self.finished@;
        let ghost w0 = self.waiting@;
        let ghost counts = self.dependencies@;
        proof {
            assert forall|i: int| 0 <= i < w0.len() implies (counts[#[trigger] w0[i]] == 0)
                == dependencies(g, w0[i]).subset_of(f) by {
                let j = w0[i];
                assert(j < self.names@.len());
                assert(self.dependencies@.contains_key(j));
                self.graph.lemma_dependencies_finite(j);
                let pend = pending_dependencies(g, f, j);
                if counts[j] == 0 {
                    pend.lemma_len0_is_empty();
                    assert forall|a: u64| dependencies(g, j).contains(a) implies f.contains(a) by {
                        if !f.contains(a) {
                            assert(pend.contains(a));
                        }
                    }
                } else if dependencies(g, j).subset_of(f) {
                    assert(pend =~= Set::<u64>::empty());
                }
            }
            lemma_filter_congruent(
                w0,
                |j: u64| counts[j] == 0,
                |j: u64| dependencies(g, j).subset_of(f),
            );
            lemma_filter_congruent(
                w0,
                |j: u64| counts[j] != 0,
                |j: u64| !dependencies(g, j).subset_of(f),
            );
        }
        self.ready()
    }

    /// Record that the bind `id` finished, and release the binds that were
    /// waiting only for it: those now returned, in waiting order.
    pub fn handle_done(&mut self, id: u64) -> (r: Vec<u64>)
        requires
            old(self).wf_running(),
            id < old(self).bind_count(),
            !old(self).waiting_view().contains(id),
            !old(self).finished_view().contains(id),
        ensures
            final(self).wf_running(),
            final(self).names_view() == old(self).names_view(),
            final(self).graph_view() == old(self).graph_view(),
            final(self).finished_view() == old(self).finished_view().insert(id),
            r@ == released_binds(
                old(self).graph_view(),
                final(self).finished_view(),
                old(self).waiting_view(),
            ),
            final(self).waiting_view() == held_binds(
                old(self).graph_view(),
                final(self).finished_view(),
                old(self).waiting_view(),
            ),
    {
        let ghost f0 = self.finished@;
        assert(self.names_view().len() == self.names@.len());
        self.finished.insert(id);
        proof {
            assert(self.finished@.remove(id) =~= f0);
        }
        self.satisfy(id);
        proof {
            let n = self.names@.len();
            assert forall|v: u64| #[trigger] self.finished@.contains(v) implies v < n
                && !self.waiting@.contains(v) by {
                if v != id {
                    assert(f0.contains(v));
                }
            }
            assert forall|j: u64|
                j < n && !self.waiting@.contains(j) implies #[trigger] dependencies(
                self.graph@,
                j,
            ).subset_of(self.finished@) by {
                assert(dependencies(self.graph@, j).subset_of(f0));
            }
            assert forall|j: u64| j < n implies #[trigger] self.dependencies@.contains_key(j)
                && self.dependencies@[j] == pending_dependencies(self.graph@, self.finished@, j).len() by {
                assert(old(self).dependencies@.contains_key(j));
            }
        }
        self.enqueue_ready()
    }

    /// Sort the registered binds so that every bind comes after its
    /// dependencies and release those that have no dependency; fails with the
    /// path of a cycle when the dependencies form one.
    pub fn build(&mut self) -> (r: Result<Vec<u64>, CycleError>)
        requires
            old(self).wf_setup(),
            old(self).registered(),
        ensures
            r is Ok <==> acyclic(old(self).graph_view()),
            final(self).names_view() == old(self).names_view(),
            final(self).graph_view() == old(self).graph_view(),
            match r {
                Ok(ready) => {
                    &&& final(self).wf_running()
                    &&& final(self).finished_view() == Set::<u64>::empty()
                    &&& is_topological(final(self).graph_view(), final(self).order_view())
                    &&& forall|v: u64| #[trigger]
                        final(self).order_view().contains(v) <==> v < final(self).bind_count()
                    &&& ready@ == released_binds(
                        final(self).graph_view(),
                        Set::empty(),
                        final(self).order_view(),
                    )
                    &&& final(self).waiting_view() == held_binds(
                        final(self).graph_view(),
                        Set::empty(),
                        final(self).order_view(),
                    )
                },
                Err(e) => is_cycle_trace(old(self).graph_view(), e.path()),
            },
    {
        let ghost g = self.graph@;
        if self.waiting.len() == 0 {
            proof {
                assert(self.names_view().len() == self.names@.len());
                assert(self.names@.len() == 0) by {
                    if self.names@.len() > 0 {
                        assert(self.waiting_view().contains(0));
                    }
                }
                assert(acyclic(g)) by {
                    assert forall|c: Seq<u64>| !#[trigger] is_cycle_trace(g, c) by {
                        if is_cycle_trace(g, c) {
                            let j = 0int;
                            assert(edge(g, c[j], c[j + 1]));
                            assert(is_vertex(g, c[1]));
                        }
                    }
                }
                assert(self.waiting@ =~= Seq::<u64>::empty());
                assert(released_binds(g, Set::empty(), Seq::<u64>::empty()) =~= Seq::<u64>::empty()) by {
                    reveal(Seq::filter);
                }
                assert(held_binds(g, Set::empty(), Seq::<u64>::empty()) =~= Seq::<u64>::empty()) by {
                    reveal(Seq::filter);
                }
                assert(self.waiting@ =~= Seq::<u64>::empty());
            }
            self.order = Ghost(Seq::empty());
            return Ok(Vec::new());
        }
        let order = match self.graph.resolve_all() {
            Ok(order) => order,
            Err(e) => {
                return Err(e);
            },
        };
        self.sort_jobs(order);
        let ghost pre = *self;
        let ready = self.enqueue_ready();
        proof {
            assert(pre.finished@ == Set::<u64>::empty());
            assert(pre.waiting@ == self.order@);
            assert(ready@ == released_binds(pre.graph@, pre.finished@, pre.waiting@));
            assert(ready@ == released_binds(self.graph@, Set::empty(), self.order@));
        }
        Ok(ready)
    }

    /// Forget the graph and the waiting binds once a build is over.
    pub fn reset(&mut self)
        ensures
            final(self).names_view() == old(self).names_view(),
            final(self).graph_view() == Map::<u64, Set<u64>>::empty(),
            final(self).waiting_view() == Seq::<u64>::empty(),
            final(self).finished_view() == old(self).finished_view(),
            final(self).counts_view() == old(self).counts_view(),
    {
        self.graph = Graph::new();
        self.waiting.clear();
    }

    /// The binds that `id` depends on, once they are all finished.
    pub fn dependencies_of(&self, id: u64) -> (r: Vec<u64>)
        requires
            self.wf_running(),
        ensures
            r@.no_duplicates(),
            forall|a: u64| r@.contains(a) <==> dependencies(self.graph_view(), id).contains(a),
    {
        match self.graph.dependencies_of(id) {
            Some(set) => crate::dependency::sorted_members(set),
            None => Vec::new(),
        }
    }

    /// Put the binds into the given order and set each one's count of
    /// unsatisfied dependencies to its number of dependencies.
    pub fn sort_jobs(&mut self, order: VecDeque<u64>)
        requires
            old(self).wf_setup(),
            old(self).registered(),
            acyclic(old(self).graph_view()),
            is_topological(old(self).graph_view(), order@),
            forall|v: u64| #[trigger] order@.contains(v) <==> is_vertex(old(self).graph_view(), v),
        ensures
            final(self).wf_core(),
            final(self).names_view() == old(self).names_view(),
            final(self).graph_view() == old(self).graph_view(),
            final(self).waiting_view() == order@,
            final(self).order_view() == order@,
            final(self).finished_view() == Set::<u64>::empty(),
            forall|j: u64|
                j < final(self).bind_count() ==> #[trigger] final(self).counts_view()[j]
                    == dependencies(final(self).graph_view(), j).len(),
    {
        let ghost g = self.graph@;
        let n = self.names.len();
        proof {
            assert forall|v: u64| #[trigger] is_vertex(g, v) <==> v < n by {
                if v < n {
                    assert(self.waiting_view().contains(v));
                    let q = choose|q: int| 0 <= q < self.waiting@.len() && self.waiting@[q] == v;
                    assert(g.contains_key(self.waiting@[q]));
                }
            }
        }
        let mut ordered: Vec<u64> = Vec::new();
        let mut i: usize = 0;
        while i < order.len()
            invariant
                self.graph.wf(),
                self.graph@ == g,
                self.graph == old(self).graph,
                self.names == old(self).names,
                self.finished == old(self).finished,
                self.finished@ == Set::<u64>::empty(),
                self.names@.len() == n,
                forall|v: u64| #[trigger] is_vertex(g, v) <==> v < n,
                forall|v: u64| #[trigger] order@.contains(v) <==> is_vertex(g, v),
                i <= order@.len(),
                ordered@ == order@.subrange(0, i as int),
                forall|j: u64| #[trigger]
                    self.dependencies@.contains_key(j) <==> ordered@.contains(j),
                forall|j: u64|
                    #[trigger] self.dependencies@.contains_key(j) ==> self.dependencies@[j]
                        == dependencies(g, j).len(),
            decreases order@.len() - i,
        {
            let job = order[i];
            assert(order@.contains(job));
            let count = self.graph.dependency_count(job);
            self.dependencies.insert(job, count);
            ordered.push(job);
            proof {
                assert(ordered@ =~= order@.subrange(0, i + 1));
                assert forall|j: u64| #[trigger]
                    self.dependencies@.contains_key(j) <==> ordered@.contains(j) by {
                    if ordered@.contains(j) && j != job {
                        let q = choose|q: int| 0 <= q < ordered@.len() && ordered@[q] == j;
                        assert(ordered@.drop_last()[q] == j);
                        assert(order@.subrange(0, i as int)[q] == j);
                    }
                    if j == job {
                        assert(ordered@[i as int] == job);
                    }
                    if self.dependencies@.contains_key(j) && j != job {
                        let q = choose|q: int| 0 <= q < i && order@.subrange(0, i as int)[q] == j;
                        assert(ordered@[q] == j);
                    }
                }
            }
            i = i + 1;
        }
        self.waiting = ordered;
        self.order = Ghost(order@);
        proof {
            assert(order@.subrange(0, order@.len() as int) =~= order@);
            assert(self.names_view().len() == self.names@.len());
            assert forall|j: u64| j < n implies #[trigger] self.dependencies@.contains_key(j) by {
                assert(is_vertex(g, j));
                assert(order@.contains(j));
            }
            assert forall|j: u64| j < n implies #[trigger] self.dependencies@.contains_key(j)
                && self.dependencies@[j] == pending_dependencies(g, self.finished@, j).len() by {
                assert(is_vertex(g, j));
                assert(order@.contains(j));
                assert(self.dependencies@.contains_key(j));
                assert(self.dependencies@[j] == dependencies(g, j).len());
                assert(self.finished@ == Set::<u64>::empty());
                assert(pending_dependencies(g, self.finished@, j) =~= dependencies(g, j));
            }
            assert forall|j: u64| j < n && !self.waiting@.contains(j) implies #[trigger] dependencies(
                g,
                j,
            ).subset_of(self.finished@) by {
                assert(is_vertex(g, j));
            }
            assert forall|q: int| 0 <= q < self.waiting@.len() implies #[trigger] self.waiting@[q]
                < n by {
                assert(order@.contains(order@[q]));
            }
            assert forall|j: u64| j < self.bind_count() implies #[trigger] self.counts_view()[j]
                == dependencies(self.graph_view(), j).len() by {
                assert(is_vertex(g, j));
                assert(order@.contains(j));
                assert(self.dependencies@.contains_key(j));
            }
        }
    }
}


/// Some member of `w` comes first in `order` among all members of `w`.
proof fn lemma_first_in_order(order: Seq<u64>, w: Seq<u64>) -> (x: u64)
    requires
        w.len() > 0,
        forall|i: int| 0 <= i < w.len() ==> order.contains(#[trigger] w[i]),
    ensures
        w.contains(x),
        forall|y: u64| #[trigger] w.contains(y) ==> pos(order, x) <= pos(order, y),
    decreases w.len(),
{
    if w.len() == 1 {
        assert(w[0] == w[0]);
        assert forall|y: u64| #[trigger] w.contains(y) implies pos(order, w[0]) <= pos(order, y) by {
            let q = choose|q: int| 0 <= q < w.len() && w[q] == y;
        }
        w[0]
    } else {
        let t = w.drop_last();
        assert forall|i: int| 0 <= i < t.len() implies order.contains(#[trigger] t[i]) by {
            assert(t[i] == w[i]);
        }
        let m = lemma_first_in_order(order, t);
        let l = w.last();
        assert(w.contains(l)) by {
            assert(w[w.len() - 1] == l);
        }
        let q = choose|q: int| 0 <= q < t.len() && t[q] == m;
        assert(w[q] == m);
        let r = if pos(order, l) < pos(order, m) {
            l
        } else {
            m
        };
        assert forall|y: u64| #[trigger] w.contains(y) implies pos(order, r) <= pos(order, y) by {
            if y != l {
                let p = choose|p: int| 0 <= p < w.len() && w[p] == y;
                assert(t[p] == y);
                assert(t.contains(y));
            }
        }
        r
    }
}

/// Law: once a bind has been released for processing, every bind it depends
/// on has finished.
pub proof fn lemma_released_after_dependencies(m: &Manager, j: u64)
    requires
        m.wf_running(),
        j < m.bind_count(),
        !m.waiting_view().contains(j),
    ensures
        dependencies(m.graph_view(), j).subset_of(m.finished_view()),
{
    assert(m.names_view().len() == m.names@.len());
}

/// The waiting binds are registered ones, each waiting once.
pub proof fn lemma_waiting_registered(m: &Manager)
    requires
        m.wf_running(),
    ensures
        m.waiting_view().no_duplicates(),
        forall|i: int| 0 <= i < m.waiting_view().len() ==> #[trigger] m.waiting_view()[i] < m.bind_count(),
{
    assert(m.names_view().len() == m.names@.len());
}

/// Law: only released binds are ever finished.
pub proof fn lemma_finished_were_released(m: &Manager, j: u64)
    requires
        m.wf_running(),
        m.finished_view().contains(j),
    ensures
        j < m.bind_count(),
        !m.waiting_view().contains(j),
{
    assert(m.names_view().len() == m.names@.len());
}

/// Law: a build never deadlocks. While binds are still waiting, some released
/// bind has not finished yet, so there is always a bind to wait for.
pub proof fn lemma_no_deadlock(m: &Manager)
    requires
        m.wf_running(),
        m.waiting_view().len() > 0,
    ensures
        exists|j: u64|
            j < m.bind_count() && !m.waiting_view().contains(j) && !#[trigger] m.finished_view().contains(j),
{
    let g = m.graph@;
    let w = m.waiting@;
    let order = m.order@;
    assert(m.names_view().len() == m.names@.len());
    assert forall|i: int| 0 <= i < w.len() implies order.contains(#[trigger] w[i]) by {
        assert(w[i] < m.names@.len());
    }
    let x = lemma_first_in_order(order, w);
    let xi = choose|i: int| 0 <= i < w.len() && w[i] == x;
    assert(m.dependencies@[w[xi]] > 0);
    assert(x < m.names@.len());
    assert(m.dependencies@.contains_key(x));
    m.graph.lemma_dependencies_finite(x);
    let pend = pending_dependencies(g, m.finished@, x);
    assert(pend.len() > 0);
    if pend.is_empty() {
        assert(pend =~= Set::<u64>::empty());
    }
    let d = pend.choose();
    assert(pend.contains(d));
    assert(edge(g, d, x));
    assert(is_vertex(g, d));
    assert(d < m.names@.len());
    if w.contains(d) {
        lemma_pos(order, d);
        lemma_pos(order, x);
        assert(edge(g, order[pos(order, d)], order[pos(order, x)]));
        assert(pos(order, x) <= pos(order, d));
    }
    assert(!m.finished@.contains(d));
    assert(d < m.bind_count() && !m.waiting_view().contains(d) && !m.finished_view().contains(d));
}

} // verus!
