//! Rules: named steps of a site build, with the rules they depend on.
use std::sync::Arc;
use vstd::prelude::*;

use crate::bind::Bind;
use crate::handle::{Error, Handle, Link};
use crate::pattern::{str_equal, Pattern};

verus! {

/// What a rule works on.
pub enum Kind {
    /// The files that match a pattern.
    Matching(Box<dyn Pattern>),
    /// Files that it creates.
    Creating,
}

/// The handler of a rule that was given none: it leaves the bind as it is.
pub struct Missing;

impl Handle<Bind> for Missing {
    open spec fn handles(&self, before: Bind, after: Bind, ok: bool) -> bool {
        ok && after == before
    }

    fn handle(&self, bind: &mut Bind) -> (r: Result<(), Error>) {
        Ok(())
    }
}

/// The names in `names`, each once.
pub open spec fn name_set(names: Seq<String>) -> Set<Seq<char>> {
    names.map_values(|n: String| n@).to_set()
}

/// Whether `names` holds `name`.
pub(crate) fn contains_name(names: &Vec<String>, name: &str) -> (r: bool)
    ensures
        r == name_set(names@).contains(name@),
{
    let mut i: usize = 0;
    while i < names.len()
        invariant
            i <= names@.len(),
            forall|j: int| 0 <= j < i ==> (#[trigger] names@[j])@ != name@,
        decreases names@.len() - i,
    {
        if str_equal(names[i].as_str(), name) {
            assert(names@.map_values(|n: String| n@)[i as int] == name@);
            return true;
        }
        i = i + 1;
    }
    let ghost views = names@.map_values(|n: String| n@);
    assert(!views.contains(name@)) by {
        if views.contains(name@) {
            let j = choose|j: int| 0 <= j < views.len() && #[trigger] views[j] == name@;
            assert(names@[j]@ == name@);
        }
    }
    false
}

/// A rule being put together.
#[must_use]
pub struct Builder {
    name: String,
    handler: Link<Bind>,
    dependencies: Vec<String>,
    kind: Kind,
}

impl Builder {
    /// The name of the rule.
    pub closed spec fn name_view(&self) -> Seq<char> {
        self.name@
    }

    /// The names of the rules it depends on.
    pub closed spec fn dependencies_view(&self) -> Set<Seq<char>> {
        name_set(self.dependencies@)
    }

    /// Whether the rule matches files rather than creating them.
    pub closed spec fn is_matching(&self) -> bool {
        self.kind is Matching
    }

    /// The handler of the rule.
    pub closed spec fn handler_view(&self) -> Link<Bind> {
        self.handler
    }

    /// What the rule works on.
    pub closed spec fn kind_view(&self) -> Kind {
        self.kind
    }

    /// The names of the dependencies, each once.
    #[verifier::type_invariant]
    closed spec fn wf(&self) -> bool {
        self.dependencies@.map_values(|n: String| n@).no_duplicates()
    }

    fn new(name: &str) -> (r: Builder)
        ensures
            r.name_view() == name@,
            r.dependencies_view() == Set::<Seq<char>>::empty(),
            !r.is_matching(),
            forall|before: Bind, after: Bind, ok: bool|
                #[trigger] r.handler_view().link_handles(before, after, ok) == Missing.handles(
                    before,
                    after,
                    ok,
                ),
    {
        let r = Builder {
            name: String::from_str(name),
            handler: Link::new(Missing),
            kind: Kind::Creating,
            dependencies: Vec::new(),
        };
        assert(r.dependencies@.map_values(|n: String| n@) =~= Seq::<Seq<char>>::empty());
        r
    }

    /// Make the rule work on the files that match `pattern`.
    pub fn matching<P: Pattern + 'static>(self, pattern: P) -> (r: Builder)
        ensures
            r.name_view() == self.name_view(),
            r.dependencies_view() == self.dependencies_view(),
            r.is_matching(),
            r.handler_view() == self.handler_view(),
            r.kind_view() matches Kind::Matching(p) && forall|path: Seq<char>|
                #[trigger] p.accepts(path) == pattern.accepts(path),
    {
        proof {
            use_type_invariant(&self);
        }
        Builder { kind: Kind::Matching(Box::new(Box::new(pattern))), ..self }
    }

    /// Associate a handler with this rule.
    pub fn handler<H: Handle<Bind> + 'static>(self, handler: H) -> (r: Builder)
        ensures
            r.name_view() == self.name_view(),
            r.dependencies_view() == self.dependencies_view(),
            r.is_matching() == self.is_matching(),
            r.kind_view() == self.kind_view(),
            forall|before: Bind, after: Bind, ok: bool|
                #[trigger] r.handler_view().link_handles(before, after, ok) == handler.handles(
                    before,
                    after,
                    ok,
                ),
            forall|before: Bind, after: Bind, error: Error|
                #[trigger] r.handler_view().link_fails_with(before, after, error)
                    == handler.fails_with(before, after, error),
    {
        proof {
            use_type_invariant(&self);
        }
        Builder { handler: Link::new(handler), ..self }
    }

    /// Register a dependency for this rule.
    pub fn depends_on(self, dependency: &str) -> (r: Builder)
        ensures
            r.name_view() == self.name_view(),
            r.dependencies_view() == self.dependencies_view().insert(dependency@),
            r.is_matching() == self.is_matching(),
            r.handler_view() == self.handler_view(),
            r.kind_view() == self.kind_view(),
    {
        proof {
            use_type_invariant(&self);
        }
        let Builder { name, handler, dependencies, kind } = self;
        let mut dependencies = dependencies;
        let ghost before = dependencies@;
        if !contains_name(&dependencies, dependency) {
            dependencies.push(String::from_str(dependency));
            proof {
                let old_names = before.map_values(|n: String| n@);
                let new_names = dependencies@.map_values(|n: String| n@);
                assert(new_names =~= old_names.push(dependency@));
                assert(new_names.to_set() =~= old_names.to_set().insert(dependency@)) by {
                    assert forall|s: Seq<char>| new_names.to_set().contains(s) <==> old_names.to_set().insert(
                        dependency@,
                    ).contains(s) by {
                        if new_names.contains(s) && s != dependency@ {
                            let j = choose|j: int| 0 <= j < new_names.len() && new_names[j] == s;
                            assert(old_names[j] == s);
                        }
                        if old_names.contains(s) {
                            let j = choose|j: int| 0 <= j < old_names.len() && old_names[j] == s;
                            assert(new_names[j] == s);
                        }
                        if s == dependency@ {
                            assert(new_names[old_names.len() as int] == s);
                        }
                    }
                }
                assert(new_names.no_duplicates()) by {
                    assert forall|a: int, b: int|
                        0 <= a < new_names.len() && 0 <= b < new_names.len() && a != b implies new_names[a]
                        != new_names[b] by {
                        if a == old_names.len() {
                            assert(old_names.contains(new_names[b]));
                        } else if b == old_names.len() {
                            assert(old_names.contains(new_names[a]));
                        }
                    }
                }
            }
        } else {
            assert(name_set(before) =~= name_set(before).insert(dependency@));
        }
        Builder { name, handler, dependencies, kind }
    }

    /// The rule.
    pub fn build(self) -> (r: Rule)
        ensures
            r.name_view() == self.name_view(),
            r.dependencies_view() == self.dependencies_view(),
            r.is_matching() == self.is_matching(),
            r.handler_view() == self.handler_view(),
            r.kind_view() == self.kind_view(),
    {
        proof {
            use_type_invariant(&self);
        }
        Rule {
            name: self.name,
            handler: Arc::new(self.handler),
            dependencies: self.dependencies,
            kind: Arc::new(self.kind),
        }
    }
}

/// Represents a rule that the static site generator must follow: a name
/// and handler, as well as the rules it depends on.
pub struct Rule {
    name: String,
    handler: Arc<Link<Bind>>,
    dependencies: Vec<String>,
    kind: Arc<Kind>,
}

impl Rule {
    /// The name of the rule.
    pub closed spec fn name_view(&self) -> Seq<char> {
        self.name@
    }

    /// The names of the rules it depends on.
    pub closed spec fn dependencies_view(&self) -> Set<Seq<char>> {
        name_set(self.dependencies@)
    }

    /// The names of the rules it depends on, in the order they were given.
    pub closed spec fn dependency_list(&self) -> Seq<String> {
        self.dependencies@
    }

    /// Whether the rule matches files rather than creating them.
    pub closed spec fn is_matching(&self) -> bool {
        *self.kind is Matching
    }

    /// The handler of the rule.
    pub closed spec fn handler_view(&self) -> Link<Bind> {
        *self.handler
    }

    /// What the rule works on.
    pub closed spec fn kind_view(&self) -> Kind {
        *self.kind
    }

    /// The names of the dependencies, each once.
    #[verifier::type_invariant]
    closed spec fn wf(&self) -> bool {
        self.dependencies@.map_values(|n: String| n@).no_duplicates()
    }

    /// A rule named `name`, to be put together.
    pub fn named(name: &str) -> (r: Builder)
        ensures
            r.name_view() == name@,
            r.dependencies_view() == Set::<Seq<char>>::empty(),
            !r.is_matching(),
            forall|before: Bind, after: Bind, ok: bool|
                #[trigger] r.handler_view().link_handles(before, after, ok) == Missing.handles(
                    before,
                    after,
                    ok,
                ),
    {
        Builder::new(name)
    }

    /// The handler of the rule.
    pub fn handler(&self) -> (r: Arc<Link<Bind>>)
        ensures
            *r == self.handler_view(),
    {
        self.handler.clone()
    }

    /// What the rule works on.
    pub fn kind(&self) -> (r: Arc<Kind>)
        ensures
            (*r is Matching) == self.is_matching(),
            *r == self.kind_view(),
    {
        self.kind.clone()
    }

    /// The name of the rule.
    pub fn name(&self) -> (r: &str)
        ensures
            r@ == self.name_view(),
    {
        self.name.as_str()
    }

    /// The names of the rules it depends on.
    pub fn dependencies(&self) -> (r: &Vec<String>)
        ensures
            r@ == self.dependency_list(),
            name_set(r@) == self.dependencies_view(),
            r@.map_values(|n: String| n@).no_duplicates(),
    {
        proof {
            use_type_invariant(self);
        }
        &self.dependencies
    }
}

} // verus!
