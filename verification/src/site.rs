//! Site generation.
//!
//! A site runs the handler of each of its rules once, on a bind of its own,
//! in an order where every rule comes after the rules it depends on; each
//! bind is given the finished binds of those rules.
use std::sync::Arc;
use vstd::prelude::*;

use crate::bind::{Bind, Data, Dependency};
use crate::configuration::Configuration;
use crate::dependency::{acyclic, dependencies, edge, is_cycle_trace};
use crate::handle::Error;
use crate::job::{
    lemma_no_deadlock, lemma_release_members, lemma_released_after_dependencies, released_binds,
    Manager,
};
use crate::path::{file_name, path_file_name};
use crate::pattern::str_equal;
use crate::rule::{contains_name, name_set, Rule};

verus! {

broadcast use vstd::seq_lib::group_seq_properties;

/// The names of the rules, in order.
pub open spec fn names_of(rules: Seq<Rule>) -> Seq<Seq<char>> {
    rules.map_values(|r: Rule| r.name_view())
}

/// Some rule named `name` depends on the rule named `dependency`.
pub open spec fn depends_on(rules: Seq<Rule>, name: Seq<char>, dependency: Seq<char>) -> bool {
    exists|k: int|
        0 <= k < rules.len() && #[trigger] rules[k].name_view() == name
            && rules[k].dependencies_view().contains(dependency)
}

/// Rules with distinct names, each depending only on rules among them.
pub open spec fn consistent(rules: Seq<Rule>) -> bool {
    &&& names_of(rules).no_duplicates()
    &&& forall|k: int, d: Seq<char>|
        0 <= k < rules.len() && #[trigger] rules[k].dependencies_view().contains(d) ==> names_of(
            rules,
        ).contains(d)
}

/// A cycle of dependencies between the rules, given by the names along a
/// path of dependencies whose last name occurs earlier in it.
pub open spec fn rule_cycle(rules: Seq<Rule>, names: Seq<Seq<char>>) -> bool {
    &&& names.len() >= 2
    &&& forall|i: int| 0 <= i < names.len() - 1 ==> #[trigger] depends_on(rules, names[i + 1], names[i])
    &&& exists|k: int| 0 <= k < names.len() - 1 && #[trigger] names[k] == names.last()
}

/// Why a site could not be set up.
pub enum SiteError {
    /// The rule `rule` depends on the rules named in `missing`, which are not
    /// registered.
    UnregisteredDependencies { rule: String, missing: Vec<String> },
    /// Two rules carry the name `name`.
    DuplicateRule { name: String },
}

/// Why a build failed.
pub enum BuildError {
    /// The dependencies of the rules form a cycle: the names along it.
    Cycle(Vec<String>),
    /// The handler of the rule `rule` failed.
    Failed { rule: String, error: Error },
}

/// A bind that a build finished, with the position of its rule, the data
/// the bind was made from, and the positions among the finished binds of the
/// binds of its dependencies.
pub struct Finished {
    pub rule: usize,
    pub bind: Arc<Bind>,
    pub data: Ghost<Data>,
    pub sources: Ghost<Seq<int>>,
}

/// The handler of `rule` may turn a fresh bind with `data` into `bind`.
pub open spec fn handled_from(rule: Rule, data: Data, bind: Bind) -> bool {
    exists|fresh: Bind|
        #![trigger rule.handler_view().link_handles(fresh, bind, true)]
        fresh.items_view() == Seq::<crate::item::Item>::empty() && fresh.data_view() == data
            && rule.handler_view().link_handles(fresh, bind, true)
}

/// The bind at position `p` of `done` was made as its rule says: from data
/// named after the rule, with the site's configuration and input files, whose
/// dependencies are the binds finished before it for the rules its rule
/// depends on, each under its rule's name.
pub open spec fn finished_well(
    rules: Seq<Rule>,
    configuration: Arc<Configuration>,
    paths: Seq<String>,
    done: Seq<Finished>,
    p: int,
) -> bool {
    &&& handled_from(rules[done[p].rule as int], done[p].data@, *done[p].bind)
    &&& done[p].data@.name@ == rules[done[p].rule as int].name_view()
    &&& done[p].data@.configuration == configuration
    &&& done[p].data@.input_paths@ == paths
    &&& dependencies_present(rules[done[p].rule as int], done[p].data@)
    &&& dependencies_finished(rules, done, p)
}

/// Every rule the rule depends on has a dependency of the data under its
/// name.
pub open spec fn dependencies_present(rule: Rule, data: Data) -> bool {
    forall|d: Seq<char>|
        #![trigger rule.dependencies_view().contains(d)]
        rule.dependencies_view().contains(d) ==> exists|j: int|
            0 <= j < data.dependencies@.len() && #[trigger] data.dependencies@[j].name@ == d
}

/// Each dependency of `data`, for the rule at `k`, is the bind at the
/// position `sources` gives among the first `p` binds of `done`, under the
/// name of its rule, which the rule at `k` depends on.
pub open spec fn sources_finished(
    rules: Seq<Rule>,
    done: Seq<Finished>,
    p: int,
    k: int,
    data: Data,
    sources: Seq<int>,
) -> bool {
    &&& sources.len() == data.dependencies@.len()
    &&& forall|j: int|
        #![trigger sources[j]]
        0 <= j < sources.len() ==> {
            &&& 0 <= sources[j] < p
            &&& data.dependencies@[j].bind == done[sources[j]].bind
            &&& data.dependencies@[j].name@ == rules[done[sources[j]].rule as int].name_view()
            &&& rules[k].dependencies_view().contains(data.dependencies@[j].name@)
        }
}

/// Each dependency of the data of the bind at `p` is a bind finished before
/// it, under the name of its rule, which the rule at `p` depends on.
pub open spec fn dependencies_finished(rules: Seq<Rule>, done: Seq<Finished>, p: int) -> bool {
    sources_finished(rules, done, p, done[p].rule as int, done[p].data@, done[p].sources@)
}

/// The handler of `rule` may fail on a fresh bind with `data`, leaving
/// `after`, with `error`.
pub open spec fn handled_to_failure(rule: Rule, data: Data, after: Bind, error: Error) -> bool {
    exists|fresh: Bind|
        #![trigger rule.handler_view().link_fails_with(fresh, after, error)]
        fresh.items_view() == Seq::<crate::item::Item>::empty() && fresh.data_view() == data
            && rule.handler_view().link_handles(fresh, after, false)
            && rule.handler_view().link_fails_with(fresh, after, error)
}

/// A finished build of `rules`: every rule once, after the rules it
/// depends on, each bind made as its rule says.
pub open spec fn build_done(
    rules: Seq<Rule>,
    configuration: Arc<Configuration>,
    paths: Seq<String>,
    done: Seq<Finished>,
) -> bool {
    &&& done.len() == rules.len()
    &&& finished_prefix(rules, configuration, paths, done)
}

/// A build of `rules` under way, with the binds `done` finished in this
/// order: rules at most once, each after the rules it depends on, each bind
/// made as its rule says.
pub open spec fn finished_prefix(
    rules: Seq<Rule>,
    configuration: Arc<Configuration>,
    paths: Seq<String>,
    done: Seq<Finished>,
) -> bool {
    &&& forall|p: int| 0 <= p < done.len() ==> #[trigger] done[p].rule < rules.len()
    &&& forall|p: int, q: int|
        0 <= p < done.len() && 0 <= q < done.len() && p != q ==> #[trigger] done[p].rule
            != #[trigger] done[q].rule
    &&& forall|p: int, d: Seq<char>|
        0 <= p < done.len() && #[trigger] rules[done[p].rule as int].dependencies_view().contains(d)
            ==> exists|q: int|
            0 <= q < p && #[trigger] rules[done[q].rule as int].name_view() == d
    &&& forall|p: int|
        0 <= p < done.len() ==> #[trigger] finished_well(rules, configuration, paths, done, p)
}

/// A build of `rules` that stopped at the rule named `name`: the binds
/// `done` finished in this order as in a build under way; then the rule at
/// `k`, none of whose binds finished, was run on a fresh bind with `data`
/// (named after it, with the site's configuration and input files, carrying
/// the finished binds of the rules it depends on at the positions
/// `sources`), and its handler failed with `error`, leaving `after`. No
/// other handler ran.
pub open spec fn build_failed(
    rules: Seq<Rule>,
    configuration: Arc<Configuration>,
    paths: Seq<String>,
    name: Seq<char>,
    error: Error,
) -> bool {
    exists|done: Seq<Finished>, k: int, data: Data, sources: Seq<int>, after: Bind|
        #![trigger finished_prefix(rules, configuration, paths, done), sources_finished(rules, done, done.len() as int, k, data, sources), handled_to_failure(rules[k], data, after, error)]
        {
            &&& finished_prefix(rules, configuration, paths, done)
            &&& 0 <= k < rules.len()
            &&& rules[k].name_view() == name
            &&& forall|p: int| 0 <= p < done.len() ==> #[trigger] done[p].rule != k
            &&& data.name@ == name
            &&& data.configuration == configuration
            &&& data.input_paths@ == paths
            &&& dependencies_present(rules[k], data)
            &&& sources_finished(rules, done, done.len() as int, k, data, sources)
            &&& handled_to_failure(rules[k], data, after, error)
        }
}

/// Distinct names within the names of `t` are no more than `t` has.
proof fn lemma_distinct_within<A>(s: Seq<A>, t: Seq<A>)
    requires
        s.no_duplicates(),
        forall|x: A| s.contains(x) ==> t.contains(x),
    ensures
        s.len() <= t.len(),
{
    s.unique_seq_to_set();
    t.lemma_cardinality_of_set();
    assert(s.to_set().subset_of(t.to_set()));
    vstd::set_lib::lemma_len_subset(s.to_set(), t.to_set());
}

/// Distinct identifiers below `n` are no more than `n`.
proof fn lemma_distinct_below(s: Seq<u64>, n: nat)
    requires
        s.no_duplicates(),
        forall|i: int| 0 <= i < s.len() ==> #[trigger] s[i] < n,
    ensures
        s.len() <= n,
{
    let t = Seq::new(n, |i: int| i as u64);
    assert forall|i: int| 0 <= i < s.len() implies t.contains(#[trigger] s[i]) by {
        assert(t[s[i] as int] == s[i]);
    }
    assert(s.to_set().subset_of(t.to_set()));
    s.unique_seq_to_set();
    t.lemma_cardinality_of_set();
    vstd::set_lib::lemma_len_subset(s.to_set(), t.to_set());
}

/// What registering the rules with a manager gives: one bind per rule, the
/// `k`th rule's under the identifier `ids[k]`, and an edge from one bind to
/// another exactly where the second's rule depends on the first's.
pub closed spec fn registration(m: Manager, ids: Seq<u64>, rules: Seq<Rule>) -> bool {
    let n = rules.len();
    let g = m.graph_view();
    &&& m.bind_count() == n
    &&& m.names_view().no_duplicates()
    &&& ids.len() == n
    &&& ids.no_duplicates()
    &&& forall|k: int| 0 <= k < n ==> #[trigger] ids[k] < n && m.names_view()[ids[k] as int] == rules[k].name_view()
    &&& forall|j: u64| j < n ==> #[trigger] ids.contains(j)
    &&& forall|a: u64, k: int|
        0 <= k < n && a < n ==> (#[trigger] edge(g, a, ids[k]) <==> rules[k].dependencies_view().contains(
            m.names_view()[a as int],
        ))
    &&& forall|a: u64, b: u64| #[trigger] edge(g, a, b) ==> a < n && b < n
}

/// Registers every rule with a new manager.
fn register(rules: &Vec<Rule>) -> (r: (Manager, Vec<u64>))
    requires
        consistent(rules@),
        rules@.len() < 0x1000_0000_0000_0000,
    ensures
        r.0.wf_setup(),
        r.0.registered(),
        registration(r.0, r.1@, rules@),
{
    let ghost all = names_of(rules@);
    let mut m = Manager::new();
    let mut ids: Vec<u64> = Vec::new();
    let mut i: usize = 0;
    while i < rules.len()
        invariant
            consistent(rules@),
            all == names_of(rules@),
            rules@.len() < 0x1000_0000_0000_0000,
            i <= rules@.len(),
            m.wf_setup(),
            m.names_view().no_duplicates(),
            ids@.len() == i,
            m.waiting_view() == ids@,
            forall|k: int|
                0 <= k < i ==> #[trigger] ids@[k] < m.bind_count() && m.names_view()[ids@[k] as int]
                    == rules@[k].name_view(),
            forall|s: Seq<char>| #[trigger] m.names_view().contains(s) ==> all.contains(s),
            forall|k: int, d: Seq<char>|
                0 <= k < i && #[trigger] rules@[k].dependencies_view().contains(d)
                    ==> m.names_view().contains(d),
            forall|a: u64, k: int|
                0 <= k < i && a < m.bind_count() ==> (#[trigger] edge(m.graph_view(), a, ids@[k])
                    <==> rules@[k].dependencies_view().contains(m.names_view()[a as int])),
            forall|a: u64, b: u64| #[trigger]
                edge(m.graph_view(), a, b) ==> a < m.bind_count() && ids@.contains(b),
        decreases rules@.len() - i,
    {
        let rule: &Rule = &rules[i];
        let name = rule.name();
        let deps = rule.dependencies();
        proof {
            let dn = deps@.map_values(|d: String| d@);
            assert forall|x: Seq<char>| dn.contains(x) implies all.contains(x) by {
                assert(dn.to_set().contains(x));
                assert(rules@[i as int].dependencies_view().contains(x));
            }
            lemma_distinct_within(dn, all);
            lemma_distinct_within(m.names_view(), all);
        }
        let ghost m0 = m;
        let id = m.add(name, deps);
        proof {
            let names = m.names_view();
            let names0 = m0.names_view();
            let dn = deps@.map_values(|d: String| d@);
            assert forall|x: Seq<char>| #[trigger] dn.contains(x) <==> rules@[i as int].dependencies_view().contains(x) by {
                if dn.contains(x) {
                    assert(dn.to_set().contains(x));
                }
            }
            assert forall|k: int| 0 <= k < i implies names0[ids@[k] as int] == names[ids@[k] as int] by {
                assert(names.subrange(0, names0.len() as int)[ids@[k] as int] == names[ids@[k] as int]);
            }
            assert forall|k: int| 0 <= k < i implies ids@[k] != id by {
                assert(all[k] == rules@[k].name_view());
                assert(all[i as int] == rules@[i as int].name_view());
            }
            assert forall|s: Seq<char>| #[trigger] names.contains(s) implies all.contains(s) by {
                if dn.contains(s) {
                    assert(rules@[i as int].dependencies_view().contains(s));
                }
                if s == name@ {
                    assert(all[i as int] == s);
                }
            }
            assert forall|a: u64, k: int|
                0 <= k < i + 1 && a < m.bind_count() implies (#[trigger] edge(m.graph_view(), a, ids@.push(id)[k])
                <==> rules@[k].dependencies_view().contains(names[a as int])) by {
                if k < i {
                    assert(ids@.push(id)[k] == ids@[k]);
                    if a < m0.bind_count() {
                        assert(names.subrange(0, names0.len() as int)[a as int] == names[a as int]);
                    } else {
                        assert(!names0.contains(names[a as int])) by {
                            if names0.contains(names[a as int]) {
                                let q = choose|q: int| 0 <= q < names0.len() && names0[q] == names[a as int];
                                assert(names.subrange(0, names0.len() as int)[q] == names[q]);
                            }
                        }
                    }
                } else {
                    assert(ids@.push(id)[k] == id);
                    assert(!ids@.contains(id));
                }
            }
        }
        ids.push(id);
        i = i + 1;
    }
    proof {
        let names = m.names_view();
        let n = rules@.len();
        assert forall|j: u64| j < m.bind_count() implies #[trigger] m.waiting_view().contains(j) by {
            assert(names.contains(names[j as int]));
            let k = choose|k: int| 0 <= k < all.len() && all[k] == names[j as int];
            assert(rules@[k].name_view() == names[j as int]);
            assert(names[ids@[k] as int] == names[j as int]);
            assert(ids@[k] == j);
            assert(ids@[k] == ids@[k]);
        }
        assert(ids@.no_duplicates()) by {
            assert forall|p: int, q: int| 0 <= p < ids@.len() && 0 <= q < ids@.len() && p != q implies ids@[p] != ids@[q] by {
                assert(all[p] == rules@[p].name_view());
                assert(all[q] == rules@[q].name_view());
            }
        }
        assert forall|x: Seq<char>| all.contains(x) implies names.contains(x) by {
            let k = choose|k: int| 0 <= k < all.len() && all[k] == x;
            assert(names[ids@[k] as int] == x);
        }
        lemma_distinct_within(names, all);
        lemma_distinct_within(all, names);
        assert forall|k: int| 0 <= k < n implies #[trigger] ids@[k] < n by {}
        assert forall|j: u64| j < n implies #[trigger] ids@.contains(j) by {
            assert(m.waiting_view().contains(j));
        }
        assert forall|a: u64, b: u64| #[trigger] edge(m.graph_view(), a, b) implies a < n && b < n by {
            let k = choose|k: int| 0 <= k < ids@.len() && ids@[k] == b;
        }
    }
    (m, ids)
}

/// Whether the configuration ignores the file at `path`: whether its
/// ignore pattern accepts the file's name.
pub open spec fn ignored(configuration: Configuration, path: Seq<char>) -> bool {
    match path_file_name(path) {
        Some(name) => configuration.ignores(name),
        None => false,
    }
}

/// The files of `files` that the configuration does not ignore, in order.
pub open spec fn considered(configuration: Configuration, files: Seq<String>) -> Seq<String>
    decreases files.len(),
{
    if files.len() == 0 {
        Seq::empty()
    } else {
        let rest = considered(configuration, files.drop_last());
        if ignored(configuration, files.last()@) {
            rest
        } else {
            rest.push(files.last())
        }
    }
}

/// The bind data for a rule's run, whose dependencies are the finished
/// binds of the given identifiers, under their names.
fn dependency_list(m: &Manager, ids: &Vec<u64>, index: &Vec<Option<usize>>, done: &Vec<Finished>) -> (r: Vec<Dependency>)
    requires
        index@.len() == m.bind_count(),
        forall|j: int|
            0 <= j < ids@.len() ==> #[trigger] ids@[j] < m.bind_count() && index@[ids@[j] as int] is Some
                && index@[ids@[j] as int]->0 < done@.len(),
    ensures
        r@.len() == ids@.len(),
        forall|j: int|
            0 <= j < ids@.len() ==> #[trigger] r@[j].name@ == m.names_view()[ids@[j] as int]
                && r@[j].bind == done@[index@[ids@[j] as int]->0 as int].bind,
{
    let mut r: Vec<Dependency> = Vec::new();
    let mut j: usize = 0;
    while j < ids.len()
        invariant
            index@.len() == m.bind_count(),
            forall|j: int|
                0 <= j < ids@.len() ==> #[trigger] ids@[j] < m.bind_count() && index@[ids@[j] as int] is Some
                    && index@[ids@[j] as int]->0 < done@.len(),
            j <= ids@.len(),
            r@.len() == j,
            forall|i: int|
                0 <= i < j ==> #[trigger] r@[i].name@ == m.names_view()[ids@[i] as int]
                    && r@[i].bind == done@[index@[ids@[i] as int]->0 as int].bind,
        decreases ids@.len() - j,
    {
        let id = ids[j];
        let n = index.len();
        assert(id < n);
        let q = index[id as usize].unwrap();
        let name = String::from_str(m.name(id));
        r.push(Dependency { name, bind: done[q].bind.clone() });
        j = j + 1;
    }
    r
}

/// The position of the rule registered under `id`.
fn rule_of(ids: &Vec<u64>, id: u64) -> (k: usize)
    requires
        ids@.contains(id),
    ensures
        k < ids@.len(),
        ids@[k as int] == id,
{
    let mut k: usize = 0;
    while k < ids.len()
        invariant
            ids@.contains(id),
            k <= ids@.len(),
            forall|i: int| 0 <= i < k ==> ids@[i] != id,
        decreases ids@.len() - k,
    {
        if ids[k] == id {
            return k;
        }
        k = k + 1;
    }
    proof {
        let i = choose|i: int| 0 <= i < ids@.len() && ids@[i] == id;
        assert(ids@[i] == id);
    }
    0
}

/// The names along a cycle of bind identifiers.
fn cycle_names(m: &Manager, ids: &Vec<u64>, rules: &Vec<Rule>, path: &std::collections::VecDeque<u64>) -> (r: Vec<String>)
    requires
        registration(*m, ids@, rules@),
        is_cycle_trace(m.graph_view(), path@),
    ensures
        rule_cycle(rules@, r@.map_values(|n: String| n@)),
{
    let ghost g = m.graph_view();
    let ghost names = m.names_view();
    let ghost n = rules@.len();
    let mut r: Vec<String> = Vec::new();
    let mut i: usize = 0;
    let len = path.len();
    proof {
        let j = 0int;
        assert(edge(g, path@[j], path@[j + 1]));
    }
    while i < len
        invariant
            registration(*m, ids@, rules@),
            g == m.graph_view(),
            names == m.names_view(),
            n == rules@.len(),
            is_cycle_trace(g, path@),
            len == path@.len(),
            i <= len,
            r@.len() == i,
            forall|q: int| 0 <= q < i ==> #[trigger] path@[q] < n,
            forall|q: int| 0 <= q < i ==> #[trigger] r@[q]@ == names[path@[q] as int],
        decreases len - i,
    {
        proof {
            if i + 1 < len {
                let j = i as int;
                assert(edge(g, path@[j], path@[j + 1]));
            } else {
                let j = i - 1;
                assert(edge(g, path@[j], path@[j + 1]));
            }
        }
        let id = path[i];
        assert(id == path@[i as int]);
        assert(id < n);
        let ghost before = r@;
        let name = String::from_str(m.name(id));
        assert(name@ == names[id as int]);
        r.push(name);
        i = i + 1;
        assert forall|q: int| 0 <= q < i implies path@[q] < n && #[trigger] r@[q]@ == names[path@[q] as int] by {
            if q < i - 1 {
                assert(r@[q] == before[q]);
                assert(before[q]@ == names[path@[q] as int]);
            } else {
                assert(r@[q] == name);
            }
        }
    }
    proof {
        let c = r@.map_values(|x: String| x@);
        assert forall|q: int| 0 <= q < c.len() - 1 implies #[trigger] depends_on(rules@, c[q + 1], c[q]) by {
            let a = path@[q];
            let b = path@[q + 1];
            assert(edge(g, a, b));
            assert(ids@.contains(b));
            let k = choose|k: int| 0 <= k < ids@.len() && ids@[k] == b;
            assert(edge(g, a, ids@[k]));
            assert(rules@[k].dependencies_view().contains(names[a as int]));
            assert(rules@[k].name_view() == names[b as int]);
            assert(c[q + 1] == r@[q + 1]@);
            assert(c[q] == r@[q]@);
        }
        let k = choose|k: int| 0 <= k < path@.len() - 1 && #[trigger] path@[k] == path@.last();
        assert(c[k] == r@[k]@);
        assert(c.last() == r@[len - 1]@);
        assert(c[k] == c.last());
    }
    r
}

/// A cycle of rule dependencies is a cycle of the registered binds.
proof fn lemma_rule_cycle_in_graph(m: Manager, ids: Seq<u64>, rules: Seq<Rule>, names: Seq<Seq<char>>)
    requires
        consistent(rules),
        registration(m, ids, rules),
        rule_cycle(rules, names),
    ensures
        !acyclic(m.graph_view()),
{
    let g = m.graph_view();
    let n = rules.len();
    let all = names_of(rules);
    assert forall|q: int| 0 <= q < names.len() implies all.contains(#[trigger] names[q]) by {
        if q < names.len() - 1 {
            assert(depends_on(rules, names[q + 1], names[q]));
            let k = choose|k: int|
                0 <= k < rules.len() && #[trigger] rules[k].name_view() == names[q + 1]
                    && rules[k].dependencies_view().contains(names[q]);
            assert(rules[k].dependencies_view().contains(names[q]));
        } else {
            let i = q - 1;
            assert(depends_on(rules, names[i + 1], names[i]));
            let k = choose|k: int|
                0 <= k < rules.len() && #[trigger] rules[k].name_view() == names[i + 1]
                    && rules[k].dependencies_view().contains(names[i]);
            assert(all[k] == names[q]);
        }
    }
    let rule_index = |s: Seq<char>| choose|k: int| 0 <= k < n && #[trigger] all[k] == s;
    let c = Seq::new(names.len(), |q: int| ids[rule_index(names[q])]);
    assert forall|q: int| 0 <= q < names.len() implies {
        &&& 0 <= #[trigger] rule_index(names[q]) < n
        &&& rules[rule_index(names[q])].name_view() == names[q]
        &&& c[q] < n
        &&& m.names_view()[c[q] as int] == names[q]
    } by {
        assert(all.contains(names[q]));
        let k = rule_index(names[q]);
        assert(all[k] == rules[k].name_view());
    }
    assert forall|q: int| 0 <= q < c.len() - 1 implies #[trigger] edge(g, c[q], c[q + 1]) by {
        assert(depends_on(rules, names[q + 1], names[q]));
        let k = choose|k: int|
            0 <= k < rules.len() && #[trigger] rules[k].name_view() == names[q + 1]
                && rules[k].dependencies_view().contains(names[q]);
        let k2 = rule_index(names[q + 1]);
        assert(0 <= k2 < n);
        assert(all[k] == names[q + 1] && all[k2] == names[q + 1]);
        assert(k == k2);
        assert(c[q + 1] == ids[k]);
        assert(m.names_view()[c[q] as int] == names[q]);
    }
    let j = choose|j: int| 0 <= j < names.len() - 1 && #[trigger] names[j] == names.last();
    assert(c[j] == c.last());
    assert(is_cycle_trace(g, c));
}

/// A bind that finished at `p` keeps having been made as its rule says when
/// more binds finish after it.
proof fn lemma_finished_well_extend(
    rules: Seq<Rule>,
    configuration: Arc<Configuration>,
    paths: Seq<String>,
    done: Seq<Finished>,
    x: Finished,
    p: int,
)
    requires
        0 <= p < done.len(),
        finished_well(rules, configuration, paths, done, p),
    ensures
        finished_well(rules, configuration, paths, done.push(x), p),
{
    let more = done.push(x);
    assert(more[p] == done[p]);
    let sources = done[p].sources@;
    assert forall|j: int| #![trigger sources[j]] 0 <= j < sources.len() implies more[sources[j]] == done[sources[j]] by {
        assert(0 <= sources[j] < p);
    }
}

/// A site: its configuration and rules.
pub struct Site {
    configuration: Arc<Configuration>,
    rules: Vec<Rule>,
}

/// The names of the rules that `names` lacks, among `dependencies`, in
/// order.
fn missing_names(dependencies: &Vec<String>, names: &Vec<String>) -> (r: Vec<String>)
    ensures
        forall|s: Seq<char>| #[trigger] name_set(r@).contains(s) <==> (name_set(dependencies@).contains(s)
            && !name_set(names@).contains(s)),
{
    let mut r: Vec<String> = Vec::new();
    let mut i: usize = 0;
    while i < dependencies.len()
        invariant
            i <= dependencies@.len(),
            forall|s: Seq<char>| #[trigger] name_set(r@).contains(s) <==> (name_set(
                dependencies@.take(i as int),
            ).contains(s) && !name_set(names@).contains(s)),
        decreases dependencies@.len() - i,
    {
        let d = &dependencies[i];
        let ghost r0 = r@;
        if !contains_name(names, d.as_str()) {
            r.push(d.clone());
        }
        proof {
            let next = dependencies@.take(i + 1);
            assert(next == dependencies@.take(i as int).push(*d));
            assert forall|s: Seq<char>| #[trigger] name_set(next).contains(s) <==> (name_set(
                dependencies@.take(i as int),
            ).contains(s) || s == d@) by {
                let a = next.map_values(|n: String| n@);
                let b = dependencies@.take(i as int).map_values(|n: String| n@);
                assert(a == b.push(d@));
                if a.contains(s) && s != d@ {
                    let q = choose|q: int| 0 <= q < a.len() && a[q] == s;
                    assert(b[q] == s);
                }
                if b.contains(s) {
                    let q = choose|q: int| 0 <= q < b.len() && b[q] == s;
                    assert(a[q] == s);
                }
                if s == d@ {
                    assert(a[b.len() as int] == s);
                }
            }
            assert forall|s: Seq<char>| #[trigger] name_set(r@).contains(s) <==> (name_set(r0).contains(s)
                || (s == d@ && !name_set(names@).contains(s))) by {
                let a = r@.map_values(|n: String| n@);
                let b = r0.map_values(|n: String| n@);
                if !name_set(names@).contains(d@) {
                    assert(a == b.push(d@));
                    if a.contains(s) && s != d@ {
                        let q = choose|q: int| 0 <= q < a.len() && a[q] == s;
                        assert(b[q] == s);
                    }
                    if b.contains(s) {
                        let q = choose|q: int| 0 <= q < b.len() && b[q] == s;
                        assert(a[q] == s);
                    }
                    if s == d@ {
                        assert(a[b.len() as int] == s);
                    }
                } else {
                    assert(r@ == r0);
                }
            }
        }
        i = i + 1;
    }
    assert(dependencies@.take(dependencies@.len() as int) == dependencies@);
    r
}

/// The name of each rule, in order.
fn rule_names(rules: &Vec<Rule>) -> (r: Vec<String>)
    ensures
        r@.map_values(|n: String| n@) == names_of(rules@),
{
    let mut r: Vec<String> = Vec::new();
    let mut i: usize = 0;
    while i < rules.len()
        invariant
            i <= rules@.len(),
            r@.len() == i,
            r@.map_values(|n: String| n@) == names_of(rules@).take(i as int),
        decreases rules@.len() - i,
    {
        let ghost before = r@;
        let rule_name = rules[i].name();
        let name = String::from_str(rule_name);
        assert(name@ == rules@[i as int].name_view());
        r.push(name);
        proof {
            assert(r@ == before.push(name));
            assert(before.map_values(|n: String| n@) == names_of(rules@).take(i as int));
            let a = r@.map_values(|n: String| n@);
            let b = names_of(rules@).take(i + 1);
            assert forall|q: int| 0 <= q < i + 1 implies #[trigger] a[q] == b[q] by {
                assert(b[q] == names_of(rules@)[q]);
                assert(names_of(rules@)[q] == rules@[q].name_view());
                assert(a[q] == r@[q]@);
                if q < i {
                    assert(r@[q] == before[q]);
                    assert(before.map_values(|n: String| n@)[q] == names_of(rules@).take(i as int)[q]);
                }
            }
            assert(a =~= b);
        }
        i = i + 1;
    }
    assert(names_of(rules@).take(rules@.len() as int) == names_of(rules@));
    r
}

impl Site {
    /// Rules with distinct names, each depending only on rules among them.
    #[verifier::type_invariant]
    closed spec fn wf(&self) -> bool {
        consistent(self.rules@)
    }

    /// The rules of the site.
    pub closed spec fn rules_view(&self) -> Seq<Rule> {
        self.rules@
    }

    /// The configuration of the site.
    pub closed spec fn configuration_view(&self) -> Arc<Configuration> {
        self.configuration
    }

    /// A site of the given rules, with the configuration where nothing is
    /// set. Fails where a rule depends on a rule that is not among them (the
    /// first such rule is named, with the names it lacks), or else where two
    /// rules share a name.
    pub fn new(rules: Vec<Rule>) -> (r: Result<Site, SiteError>)
        ensures
            r is Ok <==> consistent(rules@),
            r matches Ok(site) ==> site.rules_view() == rules@,
            r matches Err(SiteError::UnregisteredDependencies { rule, missing }) ==> exists|k: int|
                0 <= k < rules@.len() && #[trigger] rules@[k].name_view() == rule@
                    && (forall|s: Seq<char>| #[trigger] name_set(missing@).contains(s) <==> (
                    rules@[k].dependencies_view().contains(s) && !names_of(rules@).contains(s)))
                    && missing@.len() > 0
                    && forall|i: int, d: Seq<char>|
                    0 <= i < k && #[trigger] rules@[i].dependencies_view().contains(d)
                        ==> names_of(rules@).contains(d),
            r matches Err(SiteError::DuplicateRule { name }) ==> exists|i: int, j: int|
                0 <= i < j < rules@.len() && #[trigger] rules@[i].name_view() == name@
                    && #[trigger] rules@[j].name_view() == name@,
    {
        let names = rule_names(&rules);
        let ghost all = names_of(rules@);
        assert(name_set(names@) == all.to_set());
        let mut k: usize = 0;
        while k < rules.len()
            invariant
                all == names_of(rules@),
                name_set(names@) == all.to_set(),
                k <= rules@.len(),
                forall|i: int, d: Seq<char>|
                    0 <= i < k && #[trigger] rules@[i].dependencies_view().contains(d) ==> all.contains(d),
            decreases rules@.len() - k,
        {
            let missing = missing_names(rules[k].dependencies(), &names);
            if missing.len() > 0 {
                let rule = String::from_str(rules[k].name());
                proof {
                    assert(missing@.map_values(|n: String| n@).len() > 0);
                    assert(name_set(missing@).contains(missing@.map_values(|n: String| n@)[0]));
                }
                return Err(SiteError::UnregisteredDependencies { rule, missing });
            }
            proof {
                assert forall|d: Seq<char>| #[trigger] rules@[k as int].dependencies_view().contains(d) implies all.contains(
                    d,
                ) by {
                    if !all.contains(d) {
                        let mv = missing@.map_values(|n: String| n@);
                        assert(name_set(missing@).contains(d));
                        assert(mv.to_set().contains(d));
                        assert(mv.len() == 0);
                    }
                }
            }
            k = k + 1;
        }
        let mut j: usize = 0;
        while j < names.len()
            invariant
                all == names_of(rules@),
                names@.map_values(|n: String| n@) == all,
                j <= all.len(),
                forall|a: int, b: int| 0 <= a < b < j ==> all[a] != all[b],
            decreases all.len() - j,
        {
            let mut i: usize = 0;
            while i < j
                invariant
                    all == names_of(rules@),
                    names@.map_values(|n: String| n@) == all,
                    i <= j < all.len(),
                    forall|a: int| 0 <= a < i ==> all[a] != all[j as int],
                decreases j - i,
            {
                if str_equal(names[i].as_str(), names[j].as_str()) {
                    let name = names[j].clone();
                    assert(rules@[i as int].name_view() == all[i as int]);
                    assert(rules@[j as int].name_view() == all[j as int]);
                    return Err(SiteError::DuplicateRule { name });
                }
                i = i + 1;
            }
            j = j + 1;
        }
        Ok(Site { configuration: Arc::new(Configuration::new()), rules })
    }

    /// Builds the site from the files of its input directory: registers the
    /// rules, orders them so that every rule comes after the rules it
    /// depends on, and runs the handler of each on a bind of its own, made
    /// from data that carries the finished binds of those rules. The files
    /// the configuration ignores are left out of what the binds see.
    ///
    /// Fails with the names along a cycle where the dependencies form one,
    /// before any handler runs, or with the error of the first handler that
    /// fails, after which nothing more runs.
    pub fn build(&self, input_files: &Vec<String>) -> (r: Result<Vec<Finished>, BuildError>)
        requires
            self.rules_view().len() < 0x1000_0000_0000_0000,
        ensures
            r matches Ok(done) ==> build_done(
                self.rules_view(),
                self.configuration_view(),
                considered(*self.configuration_view(), input_files@),
                done@,
            ),
            r matches Err(BuildError::Cycle(names)) ==> rule_cycle(
                self.rules_view(),
                names@.map_values(|n: String| n@),
            ),
            (exists|names: Seq<Seq<char>>| rule_cycle(self.rules_view(), names)) ==> r matches Err(
                BuildError::Cycle(_),
            ),
            r matches Err(BuildError::Failed { rule, error }) ==> build_failed(
                self.rules_view(),
                self.configuration_view(),
                considered(*self.configuration_view(), input_files@),
                rule@,
                error,
            ),
    {
        proof {
            use_type_invariant(self);
        }
        let ghost rules = self.rules@;
        let ghost configuration = self.configuration;
        let paths: Arc<Vec<String>> = Arc::new(self.considered_paths(input_files));
        let (mut m, ids) = register(&self.rules);
        let ghost m0 = m;
        let ghost g = m.graph_view();
        let ghost names = m.names_view();
        let n: usize = self.rules.len();
        proof {
            if exists|cycle: Seq<Seq<char>>| rule_cycle(rules, cycle) {
                let cycle = choose|cycle: Seq<Seq<char>>| rule_cycle(rules, cycle);
                lemma_rule_cycle_in_graph(m, ids@, rules, cycle);
            }
        }
        let ghost cyclic = exists|cycle: Seq<Seq<char>>| rule_cycle(rules, cycle);
        let ready = match m.build() {
            Ok(ready) => ready,
            Err(e) => {
                let names = cycle_names(&m, &ids, &self.rules, e.cycle());
                return Err(BuildError::Cycle(names));
            },
        };
        proof {
            assert(!cyclic);
            assert(registration(m, ids@, rules));
            lemma_release_members(g, Set::empty(), m.order_view());
            assert forall|j: u64| j < n implies (!#[trigger] m.waiting_view().contains(j) <==> ready@.contains(j)) by {
                assert(m.order_view().contains(j));
                assert(dependencies(g, j).subset_of(Set::<u64>::empty()) == !m.waiting_view().contains(j));
            }
        }
        let mut pending: Vec<u64> = ready;
        let mut index: Vec<Option<usize>> = Vec::new();
        let mut k: usize = 0;
        while k < n
            invariant
                k <= n,
                index@.len() == k,
                forall|j: int| 0 <= j < k ==> #[trigger] index@[j] is None,
            decreases n - k,
        {
            index.push(None);
            k = k + 1;
        }
        let mut done: Vec<Finished> = Vec::new();
        let mut next: usize = 0;
        proof {
            assert forall|i: int| 0 <= i < pending@.len() implies #[trigger] pending@[i] < n by {
                assert(ready@.contains(pending@[i]));
                assert(m.order_view().contains(pending@[i]));
            }
            lemma_distinct_below(pending@, n as nat);
        }
        while next < pending.len()
            invariant
                rules == self.rules@,
                consistent(rules),
                !cyclic,
                cyclic == exists|cycle: Seq<Seq<char>>| rule_cycle(rules, cycle),
                configuration == self.configuration,
                paths@ == considered(*configuration, input_files@),
                n == rules.len(),
                registration(m0, ids@, rules),
                g == m0.graph_view(),
                names == m0.names_view(),
                m.wf_running(),
                m.graph_view() == g,
                m.names_view() == names,
                m.waiting_view().no_duplicates(),
                pending@.no_duplicates(),
                pending@.len() <= n,
                forall|i: int| 0 <= i < pending@.len() ==> #[trigger] pending@[i] < n,
                next <= pending@.len(),
                done@.len() == next,
                index@.len() == n,
                forall|j: u64| j < n ==> (#[trigger] m.finished_view().contains(j) <==> index@[j as int] is Some),
                forall|j: int|
                    0 <= j < n && #[trigger] index@[j] is Some ==> index@[j]->0 < next && pending@[index@[j]->0 as int] == j,
                forall|p: int| 0 <= p < next ==> #[trigger] index@[pending@[p] as int] == Some(p as usize),
                forall|j: u64| j < n ==> (!#[trigger] m.waiting_view().contains(j) <==> pending@.contains(j)),
                forall|p: int| 0 <= p < next ==> #[trigger] done@[p].rule < n,
                forall|p: int| 0 <= p < next ==> ids@[#[trigger] done@[p].rule as int] == pending@[p],
                forall|p: int, d: Seq<char>|
                    0 <= p < next && #[trigger] rules[done@[p].rule as int].dependencies_view().contains(d)
                        ==> exists|q: int| 0 <= q < p && #[trigger] rules[done@[q].rule as int].name_view() == d,
                forall|p: int|
                    0 <= p < next ==> #[trigger] finished_well(rules, configuration, paths@, done@, p),
            decreases n - next,
        {
            let id = pending[next];
            proof {
                assert(!m.finished_view().contains(id)) by {
                    if m.finished_view().contains(id) {
                        let q = index@[id as int]->0;
                        assert(pending@[q as int] == id);
                        assert(pending@[next as int] == id);
                    }
                }
                assert(pending@.contains(id));
                assert(!m.waiting_view().contains(id));
                lemma_released_after_dependencies(&m, id);
                assert(ids@.contains(id));
            }
            let k = rule_of(&ids, id);
            let dep_ids = m.dependencies_of(id);
            proof {
                assert forall|j: int| 0 <= j < dep_ids@.len() implies #[trigger] dep_ids@[j] < m.bind_count()
                    && index@[dep_ids@[j] as int] is Some && index@[dep_ids@[j] as int]->0 < done@.len() by {
                    let a = dep_ids@[j];
                    assert(dep_ids@.contains(a));
                    assert(dependencies(g, id).contains(a));
                    assert(edge(g, a, id));
                    assert(m.finished_view().contains(a));
                }
            }
            let deps = dependency_list(&m, &dep_ids, &index, &done);
            let rule: &Rule = &self.rules[k];
            let data = Data {
                name: String::from_str(rule.name()),
                dependencies: deps,
                configuration: self.configuration.clone(),
                input_paths: paths.clone(),
            };
            let ghost data_g = data;
            let ghost sources = Seq::new(dep_ids@.len(), |j: int| index@[dep_ids@[j] as int]->0 as int);
            let mut bind = Bind::new(data);
            let ghost fresh = bind;
            let handler = rule.handler();
            let result = handler.run(&mut bind);
            match result {
                Err(error) => {
                    let failed = String::from_str(rule.name());
                    proof {
                        assert(handled_to_failure(rules[k as int], data_g, bind, error));
                        assert(self.rules_view()[k as int] == rules[k as int]);
                        assert(data_g.name@ == failed@);
                        assert(self.rules_view()[k as int].name_view() == failed@);
                        assert forall|p: int, q: int|
                            0 <= p < done@.len() && 0 <= q < done@.len() && p != q implies #[trigger] done@[p].rule
                                != #[trigger] done@[q].rule by {
                            assert(ids@[done@[p].rule as int] == pending@[p]);
                            assert(ids@[done@[q].rule as int] == pending@[q]);
                        }
                        assert(finished_prefix(rules, configuration, paths@, done@));
                        assert forall|p: int| 0 <= p < done@.len() implies #[trigger] done@[p].rule != k by {
                            assert(ids@[done@[p].rule as int] == pending@[p]);
                            assert(pending@[p] != pending@[next as int]);
                        }
                        assert(dependencies_present(rules[k as int], data_g)) by {
                            assert forall|d: Seq<char>| #[trigger] rules[k as int].dependencies_view().contains(d) implies exists|j: int|
                                0 <= j < data_g.dependencies@.len() && #[trigger] data_g.dependencies@[j].name@ == d by {
                                assert(names_of(rules).contains(d));
                                let k2 = choose|k2: int| 0 <= k2 < rules.len() && names_of(rules)[k2] == d;
                                let a = ids@[k2];
                                assert(names[a as int] == d);
                                assert(edge(g, a, ids@[k as int]));
                                assert(dependencies(g, id).contains(a));
                                assert(dep_ids@.contains(a));
                                let j = choose|j: int| 0 <= j < dep_ids@.len() && dep_ids@[j] == a;
                                assert(data_g.dependencies@[j].name@ == names[a as int]);
                            }
                        }
                        assert(sources_finished(rules, done@, done@.len() as int, k as int, data_g, sources)) by {
                            assert forall|j: int| #![trigger sources[j]] 0 <= j < sources.len() implies {
                                &&& 0 <= sources[j] < done@.len()
                                &&& data_g.dependencies@[j].bind == done@[sources[j]].bind
                                &&& data_g.dependencies@[j].name@ == rules[done@[sources[j]].rule as int].name_view()
                                &&& rules[k as int].dependencies_view().contains(data_g.dependencies@[j].name@)
                            } by {
                                let a = dep_ids@[j];
                                let q = index@[a as int]->0;
                                assert(sources[j] == q);
                                assert(pending@[q as int] == a);
                                let k3 = done@[q as int].rule;
                                assert(ids@[k3 as int] == a);
                                assert(rules[k3 as int].name_view() == names[a as int]);
                                assert(dep_ids@.contains(a));
                                assert(edge(g, a, ids@[k as int]));
                            }
                        }
                        assert(build_failed(rules, configuration, paths@, failed@, error));
                    }
                    return Err(BuildError::Failed { rule: failed, error });
                },
                Ok(()) => {},
            }
            let finished = Finished {
                rule: k,
                bind: Arc::new(bind),
                data: Ghost(data_g),
                sources: Ghost(sources),
            };
            let ghost done0 = done@;
            done.push(finished);
            proof {
                assert forall|p: int| 0 <= p < next implies #[trigger] finished_well(rules, configuration, paths@, done@, p) by {
                    lemma_finished_well_extend(rules, configuration, paths@, done0, finished, p);
                }
                assert(handled_from(rules[k as int], data_g, *done@[next as int].bind)) by {
                    assert(fresh.items_view() == Seq::<crate::item::Item>::empty());
                    assert(rules[k as int].handler_view().link_handles(fresh, *done@[next as int].bind, true));
                }
                assert(dependencies_present(rules[k as int], data_g)) by {
                    assert forall|d: Seq<char>| #[trigger] rules[k as int].dependencies_view().contains(d) implies exists|j: int|
                        0 <= j < data_g.dependencies@.len() && #[trigger] data_g.dependencies@[j].name@ == d by {
                        assert(names_of(rules).contains(d));
                        let k2 = choose|k2: int| 0 <= k2 < rules.len() && names_of(rules)[k2] == d;
                        let a = ids@[k2];
                        assert(names[a as int] == d);
                        assert(edge(g, a, ids@[k as int]));
                        assert(dependencies(g, id).contains(a));
                        assert(dep_ids@.contains(a));
                        let j = choose|j: int| 0 <= j < dep_ids@.len() && dep_ids@[j] == a;
                        assert(data_g.dependencies@[j].name@ == names[a as int]);
                    }
                }
                assert(dependencies_finished(rules, done@, next as int)) by {
                    assert forall|j: int| #![trigger sources[j]] 0 <= j < sources.len() implies {
                        &&& 0 <= sources[j] < next
                        &&& data_g.dependencies@[j].bind == done@[sources[j]].bind
                        &&& data_g.dependencies@[j].name@ == rules[done@[sources[j]].rule as int].name_view()
                        &&& rules[k as int].dependencies_view().contains(data_g.dependencies@[j].name@)
                    } by {
                        let a = dep_ids@[j];
                        let q = index@[a as int]->0;
                        assert(sources[j] == q);
                        assert(pending@[q as int] == a);
                        assert(done@[q as int] == done0[q as int]);
                        let k3 = done0[q as int].rule;
                        assert(ids@[k3 as int] == a);
                        assert(rules[k3 as int].name_view() == names[a as int]);
                        assert(dep_ids@.contains(a));
                        assert(edge(g, a, ids@[k as int]));
                    }
                }
                assert(finished_well(rules, configuration, paths@, done@, next as int));
                assert forall|p: int, d: Seq<char>|
                    0 <= p < next && #[trigger] rules[done@[p].rule as int].dependencies_view().contains(d)
                        implies exists|q: int| 0 <= q < p && #[trigger] rules[done@[q].rule as int].name_view() == d by {
                    assert(done@[p] == done0[p]);
                    assert(rules[done0[p].rule as int].dependencies_view().contains(d));
                    assert(exists|q: int| 0 <= q < p && #[trigger] rules[done0[q].rule as int].name_view() == d);
                    let q = choose|q: int| 0 <= q < p && #[trigger] rules[done0[q].rule as int].name_view() == d;
                    assert(done@[q] == done0[q]);
                }
                assert forall|d: Seq<char>| #[trigger] rules[done@[next as int].rule as int].dependencies_view().contains(d)
                    implies exists|q: int| 0 <= q < next && #[trigger] rules[done@[q].rule as int].name_view() == d by {
                    assert(dependencies_present(rules[k as int], data_g));
                    let j = choose|j: int| 0 <= j < data_g.dependencies@.len() && #[trigger] data_g.dependencies@[j].name@ == d;
                    let q = sources[j];
                    assert(rules[done@[q].rule as int].name_view() == d);
                }
            }
            index.set(id as usize, Some(next));
            proof {
                crate::job::lemma_waiting_registered(&m);
            }
            let ghost waiting0 = m.waiting_view();
            let ghost finished0 = m.finished_view();
            let mut newly = m.handle_done(id);
            let ghost released = newly@;
            proof {
                lemma_release_members(g, m.finished_view(), waiting0);
            }
            let ghost pending0 = pending@;
            pending.append(&mut newly);
            next = next + 1;
            proof {
                assert(pending@ == pending0 + released);
                assert forall|i: int| 0 <= i < pending@.len() implies #[trigger] pending@[i] < n by {
                    if i >= pending0.len() {
                        assert(pending@[i] == released[i - pending0.len()]);
                        assert(released.contains(pending@[i]));
                        assert(waiting0.contains(pending@[i]));
                        let w = choose|w: int| 0 <= w < waiting0.len() && waiting0[w] == pending@[i];
                        assert(waiting0[w] < n);
                    } else {
                        assert(pending@[i] == pending0[i]);
                    }
                }
                assert(pending@.no_duplicates()) by {
                    assert forall|a: int, b: int| 0 <= a < b < pending@.len() implies pending@[a] != pending@[b] by {
                        if b >= pending0.len() && a < pending0.len() {
                            assert(pending@[b] == released[b - pending0.len()]);
                            assert(released.contains(pending@[b]));
                            assert(waiting0.contains(pending@[b]));
                            assert(pending@[a] == pending0[a]);
                            assert(pending0.contains(pending@[a]));
                        } else if a >= pending0.len() {
                            assert(pending@[a] == released[a - pending0.len()]);
                            assert(pending@[b] == released[b - pending0.len()]);
                        } else {
                            assert(pending@[a] == pending0[a]);
                            assert(pending@[b] == pending0[b]);
                        }
                    }
                }
                lemma_distinct_below(pending@, n as nat);
                assert forall|j: u64| j < n implies (!#[trigger] m.waiting_view().contains(j) <==> pending@.contains(j)) by {
                    if pending0.contains(j) {
                        let q = choose|q: int| 0 <= q < pending0.len() && pending0[q] == j;
                        assert(pending@[q] == j);
                    }
                    if pending@.contains(j) && !pending0.contains(j) {
                        let q = choose|q: int| 0 <= q < pending@.len() && pending@[q] == j;
                        assert(q >= pending0.len());
                    }
                    if released_binds(g, m.finished_view(), waiting0).contains(j) {
                        let q = choose|q: int| 0 <= q < released_binds(g, m.finished_view(), waiting0).len() && released_binds(g, m.finished_view(), waiting0)[q] == j;
                        assert(pending@[pending0.len() + q] == j);
                    }
                }
                assert forall|p: int| 0 <= p < next implies #[trigger] index@[pending@[p] as int] == Some(p as usize) by {
                    assert(pending@[p] == pending0[p]);
                }
                assert forall|j: int|
                    0 <= j < n && #[trigger] index@[j] is Some implies index@[j]->0 < next && pending@[index@[j]->0 as int] == j by {
                    if j != id {
                        assert(pending@[index@[j]->0 as int] == pending0[index@[j]->0 as int]);
                    }
                }
                assert forall|p: int| 0 <= p < next implies ids@[#[trigger] done@[p].rule as int] == pending@[p] by {
                    assert(pending@[p] == pending0[p]);
                }
            }
        }
        proof {
            assert(m.waiting_view().len() == 0) by {
                if m.waiting_view().len() > 0 {
                    lemma_no_deadlock(&m);
                    let j = choose|j: u64|
                        j < m.bind_count() && !m.waiting_view().contains(j) && !#[trigger] m.finished_view().contains(j);
                    assert(pending@.contains(j));
                    let q = choose|q: int| 0 <= q < pending@.len() && pending@[q] == j;
                    assert(index@[pending@[q] as int] == Some(q as usize));
                }
            }
            let all = Seq::new(n as nat, |i: int| i as u64);
            assert forall|x: u64| all.contains(x) implies pending@.contains(x) by {
                let i = choose|i: int| 0 <= i < all.len() && all[i] == x;
                assert(!m.waiting_view().contains(x));
            }
            assert(all.no_duplicates());
            lemma_distinct_within(all, pending@);
            assert forall|p: int, q: int| 0 <= p < done@.len() && 0 <= q < done@.len() && p != q implies #[trigger] done@[p].rule
                != #[trigger] done@[q].rule by {
                assert(ids@[done@[p].rule as int] == pending@[p]);
                assert(ids@[done@[q].rule as int] == pending@[q]);
            }
        }
        Ok(done)
    }

    /// The rules of the site.
    pub fn rules(&self) -> (r: &Vec<Rule>)
        ensures
            r@ == self.rules_view(),
    {
        &self.rules
    }

    /// The configuration of the site.
    pub fn configuration(&self) -> (r: &Configuration)
        ensures
            *r == *self.configuration_view(),
    {
        &*self.configuration
    }

    /// Replaces the configuration of the site.
    pub fn set_configuration(&mut self, configuration: Configuration)
        ensures
            *final(self).configuration_view() == configuration,
            final(self).rules_view() == old(self).rules_view(),
    {
        proof {
            use_type_invariant(&*self);
        }
        self.configuration = Arc::new(configuration);
    }

    /// Whether cleaning the output directory removes the entry named `name`
    /// at its top level: every entry, or, where hidden files are left
    /// alone, those whose name begins with a character other than a dot.
    pub fn removes(&self, name: &str) -> (r: bool)
        ensures
            r == (!self.configuration_view().ignore_hidden || (name@.len() > 0 && name@[0] != '.')),
    {
        if !self.configuration.ignore_hidden {
            return true;
        }
        if name.unicode_len() == 0 {
            return false;
        }
        name.get_char(0) != '.'
    }

    /// The files of `files` that the configuration does not ignore: those
    /// whose name the ignore pattern does not accept.
    pub fn considered_paths(&self, files: &Vec<String>) -> (r: Vec<String>)
        ensures
            r@ == considered(*self.configuration_view(), files@),
    {
        let configuration: &Configuration = &*self.configuration;
        let mut r: Vec<String> = Vec::new();
        let mut i: usize = 0;
        while i < files.len()
            invariant
                *configuration == *self.configuration_view(),
                i <= files@.len(),
                r@ == considered(*configuration, files@.take(i as int)),
            decreases files@.len() - i,
        {
            let path = &files[i];
            let ignore = match file_name(path.as_str()) {
                Some(name) => match &configuration.ignore {
                    Some(pattern) => pattern.matches(name.as_str()),
                    None => false,
                },
                None => false,
            };
            proof {
                assert(files@.take(i + 1).drop_last() == files@.take(i as int));
                assert(files@.take(i + 1).last() == *path);
            }
            if !ignore {
                r.push(path.clone());
            }
            i = i + 1;
        }
        assert(files@.take(files@.len() as int) == files@);
        r
    }
}

/// A file is left out exactly when the ignore pattern accepts its file name,
/// the last component of its path; the directories it lies in play no
/// part.
pub proof fn lemma_ignored_by_file_name(configuration: Configuration, path: Seq<char>)
    ensures
        ignored(configuration, path) <==> (path_file_name(path) matches Some(name)
            && configuration.ignore matches Some(pattern) && pattern.accepts(name)),
{
}

/// The files a build considers are the given files, in order, but for
/// those whose file name the ignore pattern accepts.
pub proof fn lemma_considered_by_file_name(configuration: Configuration, files: Seq<String>)
    ensures
        considered(configuration, files) == files.filter(
            |f: String|
                !(path_file_name(f@) matches Some(name) && configuration.ignore matches Some(pattern)
                    && pattern.accepts(name)),
        ),
    decreases files.len(),
{
    reveal_with_fuel(Seq::filter, 1);
    if files.len() > 0 {
        lemma_considered_by_file_name(configuration, files.drop_last());
        lemma_ignored_by_file_name(configuration, files.last()@);
    }
}

} // verus!
