//! Handlers of binds: selecting the input files, creating files, running an
//! item handler on each item, keeping some items, and paginating.
use std::sync::Arc;
use vstd::prelude::*;

use crate::bind::{first_named, Bind, Data};
use crate::handle::{handle_if, Error, Handle, HandleIf};
use crate::item::{Item, Route};
use crate::pagination::{laid_out, layout_fits, Page, Paginate};
use crate::path::{path_strip_prefix, strip_prefix};
use crate::pattern::Pattern;

verus! {

/// `after` is `before` with one more item, made from `item` and attached to
/// the bind's data.
pub open spec fn attached(before: Bind, after: Bind, item: Item) -> bool {
    let added = after.items_view().last();
    &&& after.data_view() == before.data_view()
    &&& after.items_view().len() == before.items_view().len() + 1
    &&& after.items_view().take(before.items_view().len() as int) == before.items_view()
    &&& added.route_view() == item.route_view()
    &&& added.body_view() == item.body_view()
    &&& added.page_view() == item.page_view()
    &&& added.bind_view() matches Some(d) && *d == before.data_view()
}

/// An item reads the path `p`, with an empty body, and is no page.
pub open spec fn reads(item: Item, p: Seq<char>) -> bool {
    &&& item.route_view() matches Route::Read(r) && r@ == p
    &&& item.body_view() == Seq::<char>::empty()
    &&& item.page_view() is None
}

/// The paths, relative to the input directory, of the files of `paths` that
/// `pattern` accepts, until the first file that is not under the input
/// directory; and whether there is no such file.
pub open spec fn selection<P: Pattern>(pattern: P, input: Seq<char>, paths: Seq<String>) -> (
    Seq<Seq<char>>,
    bool,
)
    decreases paths.len(),
{
    if paths.len() == 0 {
        (Seq::empty(), true)
    } else {
        let (rest, ok) = selection(pattern, input, paths.drop_last());
        if !ok {
            (rest, false)
        } else {
            match path_strip_prefix(paths.last()@, input) {
                None => (rest, false),
                Some(relative) => if pattern.accepts(relative) {
                    (rest.push(relative), true)
                } else {
                    (rest, true)
                },
            }
        }
    }
}

/// Once a file is not under the input directory, selection stops there.
proof fn lemma_selection_stops<P: Pattern>(pattern: P, input: Seq<char>, paths: Seq<String>, k: int)
    requires
        0 <= k <= paths.len(),
        !selection(pattern, input, paths.take(k)).1,
    ensures
        selection(pattern, input, paths) == selection(pattern, input, paths.take(k)),
    decreases paths.len(),
{
    if paths.len() == k {
        assert(paths.take(k) == paths);
    } else {
        let shorter = paths.drop_last();
        assert(shorter.take(k) == paths.take(k));
        lemma_selection_stops(pattern, input, shorter, k);
    }
}

/// The items of `after` are those of `before`, then one item for each of
/// `paths`, reading it, attached to the bind's data.
pub open spec fn added_readers(before: Bind, after: Bind, paths: Seq<Seq<char>>) -> bool {
    let n = before.items_view().len();
    &&& after.data_view() == before.data_view()
    &&& after.items_view().len() == n + paths.len()
    &&& after.items_view().take(n as int) == before.items_view()
    &&& forall|i: int|
        0 <= i < paths.len() ==> {
            let item = #[trigger] after.items_view()[n + i];
            &&& reads(item, paths[i])
            &&& item.bind_view() matches Some(d) && *d == before.data_view()
        }
}

/// Selects the files of the input directory that a pattern accepts, and
/// attaches an item reading each, by its path relative to the input
/// directory.
pub struct Select<P> {
    pub pattern: P,
}

/// Selects the files that `pattern` accepts.
pub fn select<P: Pattern>(pattern: P) -> (r: Select<P>)
    ensures
        r.pattern == pattern,
{
    Select { pattern }
}

impl<P: Pattern> Handle<Bind> for Select<P> {
    open spec fn handles(&self, before: Bind, after: Bind, ok: bool) -> bool {
        let (paths, all) = selection(
            self.pattern,
            before.data_view().configuration.input@,
            before.data_view().input_paths@,
        );
        ok == all && added_readers(before, after, paths)
    }

    fn handle(&self, bind: &mut Bind) -> (r: Result<(), Error>) {
        let input_paths: Arc<Vec<String>> = bind.data().input_paths.clone();
        let configuration = bind.data().configuration.clone();
        let input = configuration.input.as_str();
        let ghost start = *bind;
        let ghost all = input_paths@;
        let ghost pattern = self.pattern;
        proof {
            assert(all.take(0) == Seq::<String>::empty());
            assert(start.items_view().take(start.items_view().len() as int) == start.items_view());
        }
        let mut i: usize = 0;
        while i < input_paths.len()
            invariant
                start == *old(bind),
                all == input_paths@,
                all == start.data_view().input_paths@,
                input@ == start.data_view().configuration.input@,
                pattern == self.pattern,
                i <= all.len(),
                selection(pattern, input@, all.take(i as int)).1,
                added_readers(start, *bind, selection(pattern, input@, all.take(i as int)).0),
            decreases all.len() - i,
        {
            let path = &input_paths[i];
            proof {
                assert(all.take(i + 1).drop_last() == all.take(i as int));
                assert(all.take(i + 1).last() == *path);
            }
            match strip_prefix(path.as_str(), input) {
                None => {
                    proof {
                        let t = all.take(i + 1);
                        assert(path_strip_prefix(t.last()@, input@) is None);
                        assert(selection(pattern, input@, t) == (selection(pattern, input@, all.take(i as int)).0, false));
                        lemma_selection_stops(pattern, input@, all, i + 1);
                        assert(selection(pattern, input@, all) == (selection(pattern, input@, all.take(i as int)).0, false));
                        assert(*old(bind) == start);
                    }
                    return Err(Error::new("a file is not under the input directory"));
                },
                Some(relative) => {
                    if self.pattern.matches(relative.as_str()) {
                        let ghost before = *bind;
                        let ghost selected = selection(pattern, input@, all.take(i as int)).0;
                        bind.attach(Item::reading(relative.as_str()));
                        proof {
                            let n = start.items_view().len();
                            assert forall|q: int| 0 <= q < selected.len() + 1 implies {
                                let item = #[trigger] bind.items_view()[n + q];
                                &&& reads(item, selected.push(relative@)[q])
                                &&& item.bind_view() matches Some(d) && *d == start.data_view()
                            } by {
                                if q < selected.len() {
                                    assert(bind.items_view()[n + q] == before.items_view()[n + q]);
                                }
                            }
                            assert(bind.items_view().take(n as int) == start.items_view()) by {
                                assert(bind.items_view().take(n as int) == before.items_view().take(n as int));
                            }
                        }
                    }
                },
            }
            i = i + 1;
        }
        assert(all.take(all.len() as int) == all);
        Ok(())
    }
}

/// `after` is `before` with an item writing `path` attached.
pub open spec fn writes(item: Item, p: Seq<char>) -> bool {
    &&& item.route_view() matches Route::Write(w) && w@ == p
    &&& item.body_view() == Seq::<char>::empty()
    &&& item.page_view() is None
}

/// Attaches an item that creates the file at a path.
pub struct Create {
    pub path: String,
}

/// Creates the file at `path`.
pub fn create(path: &str) -> (r: Create)
    ensures
        r.path@ == path@,
{
    Create { path: String::from_str(path) }
}

/// Creates the file at `path`; another name for `create`.
pub fn creating(path: &str) -> (r: Create)
    ensures
        r.path@ == path@,
{
    create(path)
}

impl Handle<Bind> for Create {
    open spec fn handles(&self, before: Bind, after: Bind, ok: bool) -> bool {
        ok && added_writer(before, after, self.path@)
    }

    fn handle(&self, bind: &mut Bind) -> (r: Result<(), Error>) {
        bind.attach(Item::writing(self.path.as_str()));
        Ok(())
    }
}

/// `after` is `before` with an item writing `path` attached.
pub open spec fn added_writer(before: Bind, after: Bind, path: Seq<char>) -> bool {
    let n = before.items_view().len();
    &&& after.data_view() == before.data_view()
    &&& after.items_view().len() == n + 1
    &&& after.items_view().take(n as int) == before.items_view()
    &&& writes(after.items_view()[n as int], path)
    &&& after.items_view()[n as int].bind_view() matches Some(d) && *d == before.data_view()
}

/// Runs an item handler on each item of a bind, one after the other.
pub struct Each<H> {
    pub handler: H,
}

/// Runs `handler` on each item.
pub fn each<H: Handle<Item>>(handler: H) -> (r: Each<H>)
    ensures
        r.handler == handler,
{
    Each { handler }
}

impl<H: Handle<Item>> Handle<Bind> for Each<H> {
    /// On success every item went through the handler; on failure some
    /// item's handler failed, and the bind is left without items.
    open spec fn handles(&self, before: Bind, after: Bind, ok: bool) -> bool {
        let items = before.items_view();
        &&& after.data_view() == before.data_view()
        &&& ok ==> after.items_view().len() == items.len() && forall|i: int|
            0 <= i < items.len() ==> #[trigger] self.handler.handles(items[i], after.items_view()[i], true)
        &&& !ok ==> after.items_view() == Seq::<Item>::empty() && exists|i: int, failed: Item|
            0 <= i < items.len() && #[trigger] self.handler.handles(items[i], failed, false)
    }

    /// A failure is that of the handler on some item, with its error.
    open spec fn fails_with(&self, before: Bind, after: Bind, error: Error) -> bool {
        let items = before.items_view();
        &&& after.data_view() == before.data_view()
        &&& after.items_view() == Seq::<Item>::empty()
        &&& exists|i: int, failed: Item|
            0 <= i < items.len() && #[trigger] self.handler.fails_with(items[i], failed, error)
    }

    fn handle(&self, bind: &mut Bind) -> (r: Result<(), Error>) {
        let ghost start = *bind;
        let mut items = bind.replace_items(Vec::new());
        let ghost original = items@;
        let mut i: usize = 0;
        while i < items.len()
            invariant
                start == *old(bind),
                original == start.items_view(),
                bind.items_view() == Seq::<Item>::empty(),
                bind.data_view() == start.data_view(),
                items@.len() == original.len(),
                i <= items@.len(),
                forall|j: int| i <= j < items@.len() ==> #[trigger] items@[j] == original[j],
                forall|j: int| 0 <= j < i ==> #[trigger] self.handler.handles(original[j], items@[j], true),
            decreases items@.len() - i,
        {
            let result = self.handler.handle(&mut items[i]);
            if result.is_err() {
                assert(self.handler.handles(original[i as int], items@[i as int], false));
                assert(self.handler.fails_with(original[i as int], items@[i as int], result->Err_0));
                return result;
            }
            i = i + 1;
        }
        bind.replace_items(items);
        Ok(())
    }
}

/// An item handler that runs only on the items that satisfy a condition.
pub type Conditional<C, H> = HandleIf<C, Item, H>;

/// Runs `handler` on the items that satisfy `condition`, and leaves the
/// others as they are.
pub fn conditional<C: Fn(&Item) -> bool, H: Handle<Item>>(condition: C, handler: H) -> (r: Conditional<C, H>)
    requires
        forall|item: &Item| call_requires(condition, (item,)),
    ensures
        r.condition_view() == condition,
        r.handler_view() == handler,
{
    handle_if(condition, handler)
}

/// Keeps the items of a bind that satisfy a condition.
#[verifier::reject_recursive_types(C)]
pub struct Retain<C: Fn(&Item) -> bool> {
    condition: C,
}

impl<C: Fn(&Item) -> bool> Retain<C> {
    #[verifier::type_invariant]
    closed spec fn condition_total(&self) -> bool {
        forall|item: &Item| call_requires(self.condition, (item,))
    }

    /// The condition.
    pub closed spec fn condition_view(&self) -> C {
        self.condition
    }
}

/// Keeps the items that satisfy `condition`.
pub fn retain<C: Fn(&Item) -> bool>(condition: C) -> (r: Retain<C>)
    requires
        forall|item: &Item| call_requires(condition, (item,)),
    ensures
        r.condition_view() == condition,
{
    Retain { condition }
}

/// The members of `items` whose flag in `keep` is set, in order.
pub open spec fn kept(items: Seq<Item>, keep: Seq<bool>) -> Seq<Item>
    decreases items.len(),
{
    if items.len() == 0 {
        Seq::empty()
    } else {
        let rest = kept(items.drop_last(), keep.take(items.len() - 1));
        if keep[items.len() - 1] {
            rest.push(items.last())
        } else {
            rest
        }
    }
}

impl<C: Fn(&Item) -> bool> Handle<Bind> for Retain<C> {
    open spec fn handles(&self, before: Bind, after: Bind, ok: bool) -> bool {
        &&& ok
        &&& after.data_view() == before.data_view()
        &&& exists|keep: Seq<bool>|
            #![trigger kept(before.items_view(), keep)]
            keep.len() == before.items_view().len() && (forall|i: int|
                0 <= i < keep.len() ==> call_ensures(self.condition_view(), (&before.items_view()[i],), #[trigger] keep[i]))
                && after.items_view() == kept(before.items_view(), keep)
    }

    fn handle(&self, bind: &mut Bind) -> (r: Result<(), Error>) {
        proof {
            use_type_invariant(self);
        }
        let ghost start = *bind;
        let items = bind.replace_items(Vec::new());
        let ghost original = items@;
        let mut keep: Ghost<Seq<bool>> = Ghost(Seq::empty());
        let mut result: Vec<Item> = Vec::new();
        let mut items = items;
        let mut i: usize = 0;
        proof {
            assert(original.take(0) == Seq::<Item>::empty());
        }
        while i < items.len()
            invariant
                start == *old(bind),
                original == start.items_view(),
                items@.len() == original.len(),
                forall|j: int| i <= j < items@.len() ==> #[trigger] items@[j] == original[j],
                bind.items_view() == Seq::<Item>::empty(),
                bind.data_view() == start.data_view(),
                forall|item: &Item| call_requires(self.condition, (item,)),
                i <= items@.len(),
                keep@.len() == i,
                forall|j: int| 0 <= j < i ==> call_ensures(self.condition, (&original[j],), #[trigger] keep@[j]),
                result@ == kept(original.take(i as int), keep@),
            decreases items@.len() - i,
        {
            let b = (self.condition)(&items[i]);
            proof {
                let t = original.take(i + 1);
                let k = keep@.push(b);
                assert(t.drop_last() == original.take(i as int));
                assert(k.take(i as int) =~= keep@);
                assert(t.last() == original[i as int]);
            }
            if b {
                let mut taken = Item::new(Route::Write(String::new()));
                std::mem::swap(&mut items[i], &mut taken);
                result.push(taken);
            }
            keep = Ghost(keep@.push(b));
            i = i + 1;
        }
        proof {
            assert(original.take(original.len() as int) == original);
        }
        bind.replace_items(result);
        Ok(())
    }
}

/// The outcome of comparing two items: the first sorts before the second,
/// with it, or after it.
#[derive(Clone, Copy, Debug, PartialEq, Eq, Structural)]
pub enum Order {
    Less,
    Equal,
    Greater,
}

/// Whether `compare` can be asked of any two items, answers each pair the
/// same way every time, and answers `Less` of two items the other way round
/// from a pair it answers `Greater`; a total order does all three.
pub open spec fn consistent_order<F: Fn(&Item, &Item) -> Order>(compare: F) -> bool {
    &&& forall|a: &Item, b: &Item| call_requires(compare, (a, b))
    &&& forall|a: &Item, b: &Item, o1: Order, o2: Order|
        #[trigger] call_ensures(compare, (a, b), o1) && #[trigger] call_ensures(compare, (a, b), o2)
            ==> o1 == o2
    &&& forall|a: &Item, b: &Item, o: Order|
        #[trigger] call_ensures(compare, (a, b), Order::Greater) && #[trigger] call_ensures(
            compare,
            (b, a),
            o,
        ) ==> o == Order::Less
}

/// Whether `s` is in the order `compare` gives: no item comes right before
/// one it compares `Greater` with.
pub open spec fn sorted_by<F: Fn(&Item, &Item) -> Order>(compare: F, s: Seq<Item>) -> bool {
    forall|p: int, q: int|
        #![trigger s[p], s[q]]
        0 <= p && q == p + 1 && q < s.len() ==> !call_ensures(compare, (&s[p], &s[q]), Order::Greater)
}

/// `after` holds the items of `before`, each once: `after[p]` is
/// `before[perm[p]]`.
pub open spec fn rearranged(before: Seq<Item>, after: Seq<Item>, perm: Seq<int>) -> bool {
    &&& after.len() == before.len()
    &&& perm.len() == before.len()
    &&& forall|p: int|
        0 <= p < perm.len() ==> 0 <= #[trigger] perm[p] < before.len() && after[p] == before[perm[p]]
    &&& perm.no_duplicates()
}

/// Two items of `after` are the other way round from where they came from
/// (`perm`) only where the one that came first compares `Greater` with the
/// other: items that compare `Equal` keep their order.
pub open spec fn stable_by<F: Fn(&Item, &Item) -> Order>(compare: F, after: Seq<Item>, perm: Seq<int>) -> bool {
    forall|p: int, q: int|
        #![trigger perm[p], perm[q]]
        0 <= p < q < after.len() && perm[p] > perm[q] ==> call_ensures(
            compare,
            (&after[q], &after[p]),
            Order::Greater,
        )
}

/// Sorts the items of a bind with a comparison of items, keeping items
/// that compare `Equal` in the order they had.
#[verifier::reject_recursive_types(F)]
pub struct SortBy<F: Fn(&Item, &Item) -> Order> {
    compare: F,
}

impl<F: Fn(&Item, &Item) -> Order> SortBy<F> {
    #[verifier::type_invariant]
    closed spec fn order_consistent(&self) -> bool {
        consistent_order(self.compare)
    }

    /// The comparison.
    pub closed spec fn compare_view(&self) -> F {
        self.compare
    }

    /// Where `x` goes among `sorted`: after the last item that does not
    /// compare `Greater` with it, and before those that do.
    fn position(&self, sorted: &Vec<Item>, x: &Item) -> (j: usize)
        ensures
            j <= sorted@.len(),
            forall|k: int| j <= k < sorted@.len() ==> call_ensures(self.compare, (&#[trigger] sorted@[k], x), Order::Greater),
            j > 0 ==> !call_ensures(self.compare, (&sorted@[j - 1], x), Order::Greater),
    {
        proof {
            use_type_invariant(self);
        }
        let mut j: usize = sorted.len();
        while j > 0
            invariant
                consistent_order(self.compare),
                j <= sorted@.len(),
                forall|k: int| j <= k < sorted@.len() ==> call_ensures(self.compare, (&#[trigger] sorted@[k], x), Order::Greater),
            decreases j,
        {
            let o = (self.compare)(&sorted[j - 1], x);
            match o {
                Order::Greater => {},
                _ => {
                    proof {
                        if call_ensures(self.compare, (&sorted@[j - 1], x), Order::Greater) {
                            assert(o == Order::Greater);
                        }
                    }
                    return j;
                },
            }
            j = j - 1;
        }
        0
    }
}

/// Sorts the items by `compare`, which answers any two items consistently.
pub fn sort_by<F: Fn(&Item, &Item) -> Order>(compare: F) -> (r: SortBy<F>)
    requires
        consistent_order(compare),
    ensures
        r.compare_view() == compare,
{
    SortBy { compare }
}

impl<F: Fn(&Item, &Item) -> Order> Handle<Bind> for SortBy<F> {
    /// The items are rearranged into the order of the comparison, stably.
    open spec fn handles(&self, before: Bind, after: Bind, ok: bool) -> bool {
        &&& ok
        &&& after.data_view() == before.data_view()
        &&& after.items_view().to_multiset() == before.items_view().to_multiset()
        &&& sorted_by(self.compare_view(), after.items_view())
        &&& exists|perm: Seq<int>|
            #[trigger] rearranged(before.items_view(), after.items_view(), perm) && stable_by(
                self.compare_view(),
                after.items_view(),
                perm,
            )
    }

    fn handle(&self, bind: &mut Bind) -> (r: Result<(), Error>) {
        proof {
            use_type_invariant(self);
        }
        let ghost start = *bind;
        let mut items = bind.replace_items(Vec::new());
        let ghost original = items@;
        let n = items.len();
        let mut sorted: Vec<Item> = Vec::new();
        let ghost mut perm: Seq<int> = Seq::empty();
        let mut i: usize = 0;
        proof {
            broadcast use vstd::seq_lib::group_to_multiset_ensures;
            assert(original.take(0) =~= Seq::<Item>::empty());
        }
        while i < n
            invariant
                consistent_order(self.compare),
                start == *old(bind),
                original == start.items_view(),
                bind.items_view() == Seq::<Item>::empty(),
                bind.data_view() == start.data_view(),
                n == original.len(),
                items@.len() == n,
                i <= n,
                forall|k: int| i <= k < n ==> #[trigger] items@[k] == original[k],
                rearranged(original.take(i as int), sorted@, perm),
                sorted_by(self.compare, sorted@),
                stable_by(self.compare, sorted@, perm),
                sorted@.to_multiset() == original.take(i as int).to_multiset(),
            decreases n - i,
        {
            let mut x = Item::new(Route::Write(String::new()));
            std::mem::swap(&mut x, &mut items[i]);
            let j = self.position(&sorted, &x);
            let ghost old_sorted = sorted@;
            let ghost old_perm = perm;
            sorted.insert(j, x);
            proof {
                perm = perm.insert(j as int, i as int);
                lemma_sort_step(self.compare, original, i as int, old_sorted, old_perm, j as int, x, sorted@, perm);
            }
            i = i + 1;
        }
        proof {
            assert(original.take(n as int) =~= original);
        }
        bind.replace_items(sorted);
        Ok(())
    }
}

/// Inserting the next item where `SortBy::position` places it keeps the
/// sort's invariant.
proof fn lemma_sort_step<F: Fn(&Item, &Item) -> Order>(
    compare: F,
    original: Seq<Item>,
    i: int,
    old_sorted: Seq<Item>,
    old_perm: Seq<int>,
    j: int,
    x: Item,
    sorted: Seq<Item>,
    perm: Seq<int>,
)
    requires
        consistent_order(compare),
        0 <= i < original.len(),
        x == original[i],
        rearranged(original.take(i), old_sorted, old_perm),
        sorted_by(compare, old_sorted),
        stable_by(compare, old_sorted, old_perm),
        old_sorted.to_multiset() == original.take(i).to_multiset(),
        0 <= j <= old_sorted.len(),
        forall|k: int| j <= k < old_sorted.len() ==> call_ensures(compare, (&#[trigger] old_sorted[k], &x), Order::Greater),
        j > 0 ==> !call_ensures(compare, (&old_sorted[j - 1], &x), Order::Greater),
        sorted == old_sorted.insert(j, x),
        perm == old_perm.insert(j, i),
    ensures
        rearranged(original.take(i + 1), sorted, perm),
        sorted_by(compare, sorted),
        stable_by(compare, sorted, perm),
        sorted.to_multiset() == original.take(i + 1).to_multiset(),
{
    broadcast use vstd::seq_lib::group_to_multiset_ensures;
    old_sorted.insert_ensures(j, x);
    old_perm.insert_ensures(j, i);
    let m = old_sorted.len();
    let taken = original.take(i + 1);
    assert(taken =~= original.take(i).push(x));
    // the positions of the new sequence
    assert forall|p: int| 0 <= p < perm.len() implies 0 <= #[trigger] perm[p] < taken.len() && sorted[p] == taken[perm[p]] by {
        if p < j {
            assert(perm[p] == old_perm[p]);
            assert(sorted[p] == old_sorted[p]);
        } else if p == j {
        } else {
            assert(perm[p] == old_perm[p - 1]);
            assert(sorted[p] == old_sorted[p - 1]);
        }
    }
    assert(perm.no_duplicates()) by {
        assert forall|a: int, b: int| 0 <= a < b < perm.len() implies perm[a] != perm[b] by {
            if a != j && b != j {
                let a0 = if a < j { a } else { a - 1 };
                let b0 = if b < j { b } else { b - 1 };
                assert(perm[a] == old_perm[a0]);
                assert(perm[b] == old_perm[b0]);
            } else if a == j {
                let b0 = b - 1;
                assert(perm[b] == old_perm[b0]);
                assert(0 <= old_perm[b0] < i);
            } else {
                assert(perm[a] == old_perm[a]);
                assert(0 <= old_perm[a] < i);
            }
        }
    }
    assert forall|p: int, q: int| 0 <= p && q == p + 1 && q < sorted.len() implies !call_ensures(
        compare,
        (&sorted[p], &sorted[q]),
        Order::Greater,
    ) by {
        if q < j {
            assert(sorted[p] == old_sorted[p] && sorted[q] == old_sorted[q]);
            assert(!call_ensures(compare, (&old_sorted[p], &old_sorted[q]), Order::Greater));
        } else if q == j {
            assert(sorted[p] == old_sorted[j - 1]);
        } else if p == j {
            assert(sorted[q] == old_sorted[j]);
            assert(call_ensures(compare, (&old_sorted[j], &x), Order::Greater));
            if call_ensures(compare, (&x, &old_sorted[j]), Order::Greater) {
                assert(Order::Greater == Order::Less);
            }
        } else {
            assert(sorted[p] == old_sorted[p - 1] && sorted[q] == old_sorted[q - 1]);
            assert(!call_ensures(compare, (&old_sorted[p - 1], &old_sorted[q - 1]), Order::Greater));
        }
    }
    assert forall|p: int, q: int|
        #![trigger perm[p], perm[q]]
        0 <= p < q < sorted.len() && perm[p] > perm[q] implies call_ensures(
        compare,
        (&sorted[q], &sorted[p]),
        Order::Greater,
    ) by {
        if p == j {
            assert(sorted[q] == old_sorted[q - 1]);
            assert(call_ensures(compare, (&old_sorted[q - 1], &x), Order::Greater));
        } else if q == j {
            assert(perm[q] == i);
            assert(perm[p] == old_perm[p]);
            assert(old_perm[p] < i);
        } else {
            let p0 = if p < j { p } else { p - 1 };
            let q0 = if q < j { q } else { q - 1 };
            assert(perm[p] == old_perm[p0] && perm[q] == old_perm[q0]);
            assert(sorted[p] == old_sorted[p0] && sorted[q] == old_sorted[q0]);
            assert(old_perm[p0] > old_perm[q0]);
        }
    }
    assert(sorted.remove(j) =~= old_sorted);
    assert(sorted[j] == x);
    assert(sorted.to_multiset().remove(x) =~= old_sorted.to_multiset());
    assert(sorted.to_multiset().count(x) > 0) by {
        assert(sorted.contains(x));
    }
    assert(sorted.to_multiset() =~= old_sorted.to_multiset().insert(x));
}

/// The items of `after` are those of `before`, then one item for each of
/// `pages`, writing the page's path, being the page, attached to the bind's
/// data.
pub open spec fn added_pages(before: Bind, after: Bind, pages: Seq<Page>) -> bool {
    let n = before.items_view().len();
    &&& after.data_view() == before.data_view()
    &&& after.items_view().len() == n + pages.len()
    &&& after.items_view().take(n as int) == before.items_view()
    &&& forall|k: int|
        0 <= k < pages.len() ==> {
            let item = #[trigger] after.items_view()[n + k];
            &&& item.route_view() matches Route::Write(w) && w@ == pages[k].curr.1@
            &&& item.body_view() == Seq::<char>::empty()
            &&& item.page_view() == Some(pages[k])
            &&& item.bind_view() matches Some(d) && *d == before.data_view()
        }
}

/// The number of items of the first dependency named `name`, where there
/// is one.
pub open spec fn dependency_item_count(data: Data, name: Seq<char>) -> Option<nat> {
    if exists|i: int| #[trigger] first_named(data.dependencies@, name, i) {
        let i = choose|i: int| #[trigger] first_named(data.dependencies@, name, i);
        Some(data.dependencies@[i].bind.items_view().len())
    } else {
        None
    }
}

impl<R: Fn(usize) -> String> Handle<Bind> for Paginate<R> {
    /// Where the target bind is a dependency and its items can be laid out,
    /// one item for each page is attached, writing the page's path; else
    /// the handler fails and the bind stays as it is.
    open spec fn handles(&self, before: Bind, after: Bind, ok: bool) -> bool {
        let factor = self.factor_view();
        match dependency_item_count(before.data_view(), self.target_view()) {
            Some(n) => if factor > 0 && n > 0 && layout_fits(n as int, factor as int) {
                ok && exists|ps: Seq<Page>|
                    #![trigger added_pages(before, after, ps)]
                    laid_out(ps, n as int, factor as int) && (forall|k: int|
                        0 <= k < ps.len() ==> call_ensures(self.router_view(), (k as usize,), #[trigger] ps[k].curr.1))
                        && added_pages(before, after, ps)
            } else {
                !ok && after == before
            },
            None => !ok && after == before,
        }
    }

    fn handle(&self, bind: &mut Bind) -> (r: Result<(), Error>) {
        let ghost start = *bind;
        let post_count = match bind.data().dependency(self.target()) {
            Some(b) => b.len(),
            None => {
                return Err(Error::new("the bind to paginate is no dependency"));
            },
        };
        let mut pages = match self.try_pages(post_count) {
            Some(ps) => ps,
            None => {
                return Err(Error::new("the posts cannot be laid out over pages"));
            },
        };
        let ghost all = pages@;
        let mut k: usize = 0;
        let total = pages.len();
        proof {
            assert(all.take(0) =~= Seq::<Page>::empty());
            assert(all.skip(0) =~= all);
            assert(start.items_view().take(start.items_view().len() as int) =~= start.items_view());
        }
        while pages.len() > 0
            invariant
                start == *old(bind),
                total == all.len(),
                k + pages@.len() == total,
                pages@ == all.skip(k as int),
                added_pages(start, *bind, all.take(k as int)),
            decreases pages@.len(),
        {
            let ghost before = *bind;
            let page = pages.remove(0);
            let mut item = Item::writing(page.curr.1.as_str());
            let ghost p = page;
            item.set_page(page);
            bind.attach(item);
            proof {
                assert(p == all[k as int]);
                assert(pages@ == all.skip(k + 1));
                let n = start.items_view().len();
                let taken = all.take(k + 1);
                assert forall|q: int| 0 <= q < taken.len() implies {
                    let it = #[trigger] bind.items_view()[n + q];
                    &&& it.route_view() matches Route::Write(w) && w@ == taken[q].curr.1@
                    &&& it.body_view() == Seq::<char>::empty()
                    &&& it.page_view() == Some(taken[q])
                    &&& it.bind_view() matches Some(d) && *d == start.data_view()
                } by {
                    if q < k {
                        assert(bind.items_view()[n + q] == before.items_view()[n + q]);
                        assert(taken[q] == all.take(k as int)[q]);
                    }
                }
                assert(bind.items_view().take(n as int) == start.items_view()) by {
                    assert(bind.items_view().take(n as int) == before.items_view().take(n as int));
                }
            }
            k = k + 1;
        }
        assert(all.take(total as int) == all);
        Ok(())
    }
}

/// The path of `p` relative to `input`, where `p` lies under it.
pub open spec fn relative_to(input: Seq<char>, p: String) -> Seq<char> {
    match path_strip_prefix(p@, input) {
        Some(r) => r,
        None => Seq::empty(),
    }
}

/// Selecting goes through every input file: it succeeds exactly where
/// every file lies under the input directory, and then selects the path,
/// relative to that directory, of each file the pattern accepts, in order,
/// whatever files come before it.
pub proof fn lemma_selection_filters<P: Pattern>(pattern: P, input: Seq<char>, paths: Seq<String>)
    ensures
        selection(pattern, input, paths).1 <==> forall|i: int|
            0 <= i < paths.len() ==> #[trigger] path_strip_prefix(paths[i]@, input) is Some,
        selection(pattern, input, paths).1 ==> selection(pattern, input, paths).0 == paths.map_values(
            |p: String| relative_to(input, p),
        ).filter(|r: Seq<char>| pattern.accepts(r)),
    decreases paths.len(),
{
    reveal_with_fuel(Seq::filter, 1);
    if paths.len() > 0 {
        let shorter = paths.drop_last();
        lemma_selection_filters(pattern, input, shorter);
        let f = |p: String| relative_to(input, p);
        assert(paths.map_values(f).drop_last() =~= shorter.map_values(f));
        assert(paths.map_values(f).last() == relative_to(input, paths.last()));
        if selection(pattern, input, paths).1 {
            assert forall|i: int| 0 <= i < paths.len() implies #[trigger] path_strip_prefix(paths[i]@, input) is Some by {
                if i < paths.len() - 1 {
                    assert(shorter[i] == paths[i]);
                }
            }
        } else {
            if selection(pattern, input, shorter).1 {
                assert(path_strip_prefix(paths[paths.len() - 1]@, input) is None);
            } else {
                let i = choose|i: int| 0 <= i < shorter.len() && #[trigger] path_strip_prefix(shorter[i]@, input) is None;
                assert(shorter[i] == paths[i]);
                assert(path_strip_prefix(paths[i]@, input) is None);
            }
        }
    }
}

} // verus!
