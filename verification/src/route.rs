//! Routers: where the file read from a path is written to.
use vstd::prelude::*;

use crate::handle::{Error, Handle};
use crate::item::Item;
use crate::path::{file_name, join, path_file_name, path_join, path_with_extension, with_extension};
use crate::pattern::{regex_expansion, regex_is_match, Regex as Expression};

verus! {

/// A way of deriving the path to write from the path read.
pub trait Route {
    /// The path `from` routes to.
    spec fn route_spec(&self, from: Seq<char>) -> Seq<char>;

    fn route(&self, from: &str) -> (r: String)
        ensures
            r@ == self.route_spec(from@),
    ;
}

/// Routing `before` with `router` gives `after`: the route is routed, the
/// rest of the item stays.
pub open spec fn item_routed<R: Route>(router: &R, before: Item, after: Item) -> bool {
    &&& before.route_view().routed_to(router, after.route_view())
    &&& after.bind_view() == before.bind_view()
    &&& after.body_view() == before.body_view()
    &&& after.page_view() == before.page_view()
}

/// file.txt -> file.txt
pub struct Identity;

impl Route for Identity {
    open spec fn route_spec(&self, from: Seq<char>) -> Seq<char> {
        from
    }

    fn route(&self, from: &str) -> (r: String) {
        String::from_str(from)
    }
}

impl Handle<Item> for Identity {
    open spec fn handles(&self, before: Item, after: Item, ok: bool) -> bool {
        ok && item_routed(self, before, after)
    }

    fn handle(&self, item: &mut Item) -> (r: Result<(), Error>) {
        item.route_by(self);
        Ok(())
    }
}

/// Routes an item to the path it is read from.
pub fn identity(item: &mut Item) -> (r: Result<(), Error>)
    ensures
        r is Ok,
        item_routed(&Identity, *old(item), *final(item)),
{
    item.route_by(&Identity);
    Ok(())
}

/// file.txt -> file.html
pub struct SetExtension {
    extension: String,
}

impl SetExtension {
    /// The extension that routed paths get.
    pub closed spec fn extension_view(&self) -> Seq<char> {
        self.extension@
    }

    /// An extension holds no path separator.
    #[verifier::type_invariant]
    closed spec fn no_separator(&self) -> bool {
        !self.extension@.contains('/')
    }

    /// A router that replaces the extension with `extension`, which holds no
    /// path separator.
    pub fn new(extension: &str) -> (r: SetExtension)
        requires
            !extension@.contains('/'),
        ensures
            r.extension_view() == extension@,
    {
        SetExtension { extension: String::from_str(extension) }
    }
}

/// A router that replaces the extension with `extension`, which holds no
/// path separator.
pub fn set_extension(extension: &str) -> (r: SetExtension)
    requires
        !extension@.contains('/'),
    ensures
        r.extension_view() == extension@,
{
    SetExtension::new(extension)
}

impl Route for SetExtension {
    open spec fn route_spec(&self, from: Seq<char>) -> Seq<char> {
        path_with_extension(from, self.extension_view())
    }

    fn route(&self, from: &str) -> (r: String) {
        proof {
            use_type_invariant(self);
        }
        with_extension(from, self.extension.as_str())
    }
}

impl Handle<Item> for SetExtension {
    open spec fn handles(&self, before: Item, after: Item, ok: bool) -> bool {
        ok && item_routed(self, before, after)
    }

    fn handle(&self, item: &mut Item) -> (r: Result<(), Error>) {
        item.route_by(self);
        Ok(())
    }
}

/// posts/hello.md -> posts/hello/index.html
pub struct Pretty;

impl Route for Pretty {
    open spec fn route_spec(&self, from: Seq<char>) -> Seq<char> {
        path_join(path_with_extension(from, Seq::empty()), "index.html"@)
    }

    fn route(&self, from: &str) -> (r: String) {
        proof {
            reveal_strlit("");
        }
        let without = with_extension(from, "");
        proof {
            assert(""@ =~= Seq::<char>::empty());
        }
        assert(without@ == path_with_extension(from@, Seq::empty()));
        join(without.as_str(), "index.html")
    }
}

impl Handle<Item> for Pretty {
    open spec fn handles(&self, before: Item, after: Item, ok: bool) -> bool {
        ok && item_routed(self, before, after)
    }

    fn handle(&self, item: &mut Item) -> (r: Result<(), Error>) {
        item.route_by(self);
        Ok(())
    }
}

/// Routes an item to a directory named after the file, holding
/// `index.html`.
pub fn pretty(item: &mut Item) -> (r: Result<(), Error>)
    ensures
        r is Ok,
        item_routed(&Pretty, *old(item), *final(item)),
{
    item.route_by(&Pretty);
    Ok(())
}

/// posts/hello.md -> hello/index.html; a path with no file name stays.
pub struct PrettyPage;

impl Route for PrettyPage {
    open spec fn route_spec(&self, from: Seq<char>) -> Seq<char> {
        match path_file_name(path_with_extension(from, Seq::empty())) {
            Some(name) => path_join(name, "index.html"@),
            None => from,
        }
    }

    fn route(&self, from: &str) -> (r: String) {
        proof {
            reveal_strlit("");
        }
        let without = with_extension(from, "");
        proof {
            assert(""@ =~= Seq::<char>::empty());
        }
        assert(without@ == path_with_extension(from@, Seq::empty()));
        match file_name(without.as_str()) {
            Some(name) => join(name.as_str(), "index.html"),
            None => String::from_str(from),
        }
    }
}

impl Handle<Item> for PrettyPage {
    open spec fn handles(&self, before: Item, after: Item, ok: bool) -> bool {
        ok && item_routed(self, before, after)
    }

    fn handle(&self, item: &mut Item) -> (r: Result<(), Error>) {
        item.route_by(self);
        Ok(())
    }
}

/// Routes an item to a directory at the top level named after the file,
/// holding `index.html`.
pub fn pretty_page(item: &mut Item) -> (r: Result<(), Error>)
    ensures
        r is Ok,
        item_routed(&PrettyPage, *old(item), *final(item)),
{
    item.route_by(&PrettyPage);
    Ok(())
}

/// Regular expression expansion: a path that the expression matches routes
/// to the template with the groups of the first match interpolated, as in
/// `posts/post-(?P<name>.+)\.markdown` with `target/$name.html`. A path it
/// does not match routes to itself.
pub struct Regex {
    regex: Expression,
    template: String,
}

/// Another name for [`Regex`].
pub type RegexRoute = Regex;

impl Regex {
    /// The text of the expression.
    pub closed spec fn source_view(&self) -> Seq<char> {
        self.regex.source_view()
    }

    /// The template.
    pub closed spec fn template_view(&self) -> Seq<char> {
        self.template@
    }

    /// A router by `regex` and `template`.
    pub fn new(regex: Expression, template: &str) -> (r: Regex)
        ensures
            r.source_view() == regex.source_view(),
            r.template_view() == template@,
    {
        Regex { regex, template: String::from_str(template) }
    }
}

impl Route for Regex {
    open spec fn route_spec(&self, from: Seq<char>) -> Seq<char> {
        if regex_is_match(self.source_view(), from) {
            regex_expansion(self.source_view(), from, self.template_view())
        } else {
            from
        }
    }

    fn route(&self, from: &str) -> (r: String) {
        match self.regex.expand_first(from, self.template.as_str()) {
            Some(target) => target,
            None => String::from_str(from),
        }
    }
}

impl Handle<Item> for Regex {
    open spec fn handles(&self, before: Item, after: Item, ok: bool) -> bool {
        ok && item_routed(self, before, after)
    }

    fn handle(&self, item: &mut Item) -> (r: Result<(), Error>) {
        item.route_by(self);
        Ok(())
    }
}

} // verus!
