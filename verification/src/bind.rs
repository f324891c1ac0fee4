//! Binds: the items that a rule produced, with the rule's data.
use std::sync::Arc;
use vstd::prelude::*;

use crate::configuration::Configuration;
use crate::item::Item;

verus! {

/// A finished bind that another bind depends on, under the name of the rule
/// that produced it.
pub struct Dependency {
    pub name: String,
    pub bind: Arc<Bind>,
}

/// The dependency at `i` is the first one named `name`.
pub open spec fn first_named(dependencies: Seq<Dependency>, name: Seq<char>, i: int) -> bool {
    &&& 0 <= i < dependencies.len()
    &&& dependencies[i].name@ == name
    &&& forall|j: int| 0 <= j < i ==> (#[trigger] dependencies[j]).name@ != name
}

/// Bind data.
pub struct Data {
    /// The name of the rule that the bind corresponds to.
    pub name: String,
    /// The finished binds this bind depends on.
    pub dependencies: Vec<Dependency>,
    /// The global configuration.
    pub configuration: Arc<Configuration>,
    /// The files of the input directory being considered.
    pub input_paths: Arc<Vec<String>>,
}

impl Data {
    /// Data of the bind `name`, with no dependencies and no input files.
    pub fn new(name: &str, configuration: Arc<Configuration>) -> (r: Data)
        ensures
            r.name@ == name@,
            r.dependencies@ == Seq::<Dependency>::empty(),
            r.configuration == configuration,
            r.input_paths@ == Seq::<String>::empty(),
    {
        Data {
            name: String::from_str(name),
            dependencies: Vec::new(),
            configuration,
            input_paths: Arc::new(Vec::new()),
        }
    }

    /// The bind of the dependency named `name`, if this bind has one; the
    /// first one where several carry the name.
    pub fn dependency(&self, name: &str) -> (r: Option<&Bind>)
        ensures
            r is None <==> forall|i: int|
                0 <= i < self.dependencies@.len() ==> (#[trigger] self.dependencies@[i]).name@
                    != name@,
            r matches Some(b) ==> exists|i: int|
                #[trigger] first_named(self.dependencies@, name@, i) && *self.dependencies@[i].bind == *b,
    {
        let mut i: usize = 0;
        while i < self.dependencies.len()
            invariant
                i <= self.dependencies@.len(),
                forall|j: int| 0 <= j < i ==> (#[trigger] self.dependencies@[j]).name@ != name@,
            decreases self.dependencies@.len() - i,
        {
            let d: &Dependency = &self.dependencies[i];
            if crate::pattern::str_equal(d.name.as_str(), name) {
                let b: &Bind = &*d.bind;
                assert(*self.dependencies@[i as int].bind == *b);
                assert(first_named(self.dependencies@, name@, i as int));
                return Some(b);
            }
            i = i + 1;
        }
        None
    }
}

/// The resulting bind of a `Rule`: its items, and its data.
pub struct Bind {
    items: Vec<Item>,
    data: Arc<Data>,
}

impl Bind {
    /// The items of the bind.
    pub closed spec fn items_view(&self) -> Seq<Item> {
        self.items@
    }

    /// The data of the bind.
    pub closed spec fn data_view(&self) -> Data {
        *self.data
    }

    /// The name of the bind.
    pub open spec fn name_view(&self) -> Seq<char> {
        self.data_view().name@
    }

    /// A bind with the given data and no items.
    pub fn new(data: Data) -> (r: Bind)
        ensures
            r.items_view() == Seq::<Item>::empty(),
            r.data_view() == data,
    {
        Bind { items: Vec::new(), data: Arc::new(data) }
    }

    /// Attaches `item` to the bind: it joins the items, and is attached to
    /// the bind's data.
    pub fn attach(&mut self, item: Item)
        ensures
            final(self).data_view() == old(self).data_view(),
            final(self).items_view().len() == old(self).items_view().len() + 1,
            final(self).items_view().take(old(self).items_view().len() as int)
                == old(self).items_view(),
            ({
                let added = final(self).items_view().last();
                &&& added.route_view() == item.route_view()
                &&& added.body_view() == item.body_view()
                &&& added.page_view() == item.page_view()
                &&& added.bind_view() matches Some(d) && *d == old(self).data_view()
            }),
    {
        let mut item = item;
        item.attach_to(self.data.clone());
        self.items.push(item);
    }

    /// Access the bind data.
    pub fn data(&self) -> (r: &Data)
        ensures
            *r == self.data_view(),
    {
        &*self.data
    }

    /// Access the entire set of items.
    pub fn items(&self) -> (r: &Vec<Item>)
        ensures
            r@ == self.items_view(),
    {
        &self.items
    }

    /// Replaces the items of the bind, giving back the ones it had.
    pub fn replace_items(&mut self, items: Vec<Item>) -> (r: Vec<Item>)
        ensures
            r@ == old(self).items_view(),
            final(self).items_view() == items@,
            final(self).data_view() == old(self).data_view(),
    {
        let mut items = items;
        std::mem::swap(&mut self.items, &mut items);
        items
    }

    /// The number of items.
    pub fn len(&self) -> (r: usize)
        ensures
            r == self.items_view().len(),
    {
        self.items.len()
    }
}

} // verus!
