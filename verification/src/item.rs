//! The unit of processing: a file read, written, or both.
use std::sync::Arc;
use vstd::prelude::*;

use crate::bind::Data;
use crate::markup::Metadata;
use crate::pagination::Page;
use crate::path::{join, path_join};
use crate::route::Route as Router;

verus! {

/// The route of an `Item`.
pub enum Route {
    /// A file is being read.
    Read(String),
    /// A file is being created.
    Write(String),
    /// A file is being read and another is being written to.
    ReadWrite(String, String),
}

impl Route {
    /// The path read from, if any.
    pub open spec fn reading_spec(&self) -> Option<Seq<char>> {
        match self {
            Route::Read(p) => Some(p@),
            Route::Write(_) => None,
            Route::ReadWrite(p, _) => Some(p@),
        }
    }

    /// The path written to, if any.
    pub open spec fn writing_spec(&self) -> Option<Seq<char>> {
        match self {
            Route::Read(_) => None,
            Route::Write(p) => Some(p@),
            Route::ReadWrite(_, p) => Some(p@),
        }
    }

    /// Whether `after` is this route routed with `router`: a read becomes a
    /// read and write, a write stays as it is, and a read and write gets its
    /// write path replaced; the write path is where `router` routes the read
    /// path.
    pub open spec fn routed_to<R: Router>(&self, router: &R, after: Route) -> bool {
        match *self {
            Route::Write(_) => after == *self,
            Route::Read(from) | Route::ReadWrite(from, _) => after matches Route::ReadWrite(f, t)
                && f == from && t@ == router.route_spec(from@),
        }
    }

    /// Whether or not the route is reading from a file.
    pub fn is_reading(&self) -> (r: bool)
        ensures
            r == self.reading_spec() is Some,
    {
        match self {
            Route::Write(_) => false,
            Route::Read(_) | Route::ReadWrite(..) => true,
        }
    }

    /// Returns the file being read from, if any.
    pub fn reading(&self) -> (r: Option<&str>)
        ensures
            r is Some <==> self.reading_spec() is Some,
            r matches Some(p) ==> self.reading_spec() == Some(p@),
    {
        match self {
            Route::Write(_) => None,
            Route::Read(p) | Route::ReadWrite(p, _) => Some(p.as_str()),
        }
    }

    /// Whether or not the route is writing to a file.
    pub fn is_writing(&self) -> (r: bool)
        ensures
            r == self.writing_spec() is Some,
    {
        match self {
            Route::Read(_) => false,
            Route::Write(_) | Route::ReadWrite(..) => true,
        }
    }

    /// Returns the file being written to, if any.
    pub fn writing(&self) -> (r: Option<&str>)
        ensures
            r is Some <==> self.writing_spec() is Some,
            r matches Some(p) ==> self.writing_spec() == Some(p@),
    {
        match self {
            Route::Read(_) => None,
            Route::Write(p) | Route::ReadWrite(_, p) => Some(p.as_str()),
        }
    }

    /// The path read from, as an owned string.
    fn read_path(&self) -> (r: Option<String>)
        ensures
            match self {
                Route::Read(p) => r == Some(*p),
                Route::Write(_) => r is None,
                Route::ReadWrite(p, _) => r == Some(*p),
            },
    {
        match self {
            Route::Read(p) => Some(p.clone()),
            Route::Write(_) => None,
            Route::ReadWrite(p, _) => Some(p.clone()),
        }
    }

    /// Apply a router, given as a function of paths, to this route.
    ///
    /// * `Read`: results in a `ReadWrite` by applying the router to
    ///   the read path and using the result as the write path
    /// * `Write`: do nothing
    /// * `ReadWrite`: apply router to the read path and overwrite the
    ///   write path with the result
    pub fn route_with<F: Fn(&str) -> String>(&mut self, router: F)
        requires
            forall|s: &str| call_requires(router, (s,)),
        ensures
            match *old(self) {
                Route::Write(_) => *final(self) == *old(self),
                Route::Read(from) | Route::ReadWrite(from, _) => *final(self) matches Route::ReadWrite(
                    f,
                    t,
                ) && f == from && exists|s: &str| s@ == from@ && call_ensures(router, (s,), t),
            },
    {
        match self.read_path() {
            Some(from) => {
                let target = router(from.as_str());
                *self = Route::ReadWrite(from, target);
            },
            None => {},
        }
    }

    /// Apply a router to this route, as `routed` describes.
    pub fn route_by<R: Router>(&mut self, router: &R)
        ensures
            old(self).routed_to(router, *final(self)),
    {
        match self.read_path() {
            Some(from) => {
                let target = router.route(from.as_str());
                *self = Route::ReadWrite(from, target);
            },
            None => {},
        }
    }
}

/// Routing twice is routing once with the second router: the first write
/// path is replaced, and a route that only writes stays as it is.
pub proof fn lemma_route_twice<R1: Router, R2: Router>(
    route: Route,
    first: &R1,
    mid: Route,
    second: &R2,
    after: Route,
)
    requires
        route.routed_to(first, mid),
        mid.routed_to(second, after),
    ensures
        route.routed_to(second, after),
{
}

/// Represents a file to be processed.
pub struct Item {
    /// The data that was read or that is to be written.
    pub body: String,
    bind: Option<Arc<Data>>,
    route: Route,
    page: Option<Page>,
    metadata: Option<Metadata>,
    rendered: Option<String>,
}

impl Item {
    /// The item's body.
    pub closed spec fn body_view(&self) -> Seq<char> {
        self.body@
    }

    /// The page the item is, where it is one.
    pub closed spec fn page_view(&self) -> Option<Page> {
        self.page
    }

    /// The item's route.
    pub closed spec fn route_view(&self) -> Route {
        self.route
    }

    /// The metadata parsed from the item's front matter, if any.
    pub closed spec fn metadata_view(&self) -> Option<Metadata> {
        self.metadata
    }

    /// The HTML rendered from the item's body, if any.
    pub closed spec fn rendered_view(&self) -> Option<Seq<char>> {
        match self.rendered {
            Some(h) => Some(h@),
            None => None,
        }
    }

    /// The data of the bind the item is attached to, if any.
    pub closed spec fn bind_view(&self) -> Option<Arc<Data>> {
        self.bind
    }

    /// The path the item is read from: the read path, under the input
    /// directory where the item is attached to a bind.
    pub open spec fn source_spec(&self) -> Option<Seq<char>> {
        match self.route_view().reading_spec() {
            Some(from) => match self.bind_view() {
                Some(data) => Some(path_join(data.configuration.input@, from)),
                None => Some(from),
            },
            None => None,
        }
    }

    /// The path the item is written to: the write path, under the output
    /// directory where the item is attached to a bind.
    pub open spec fn target_spec(&self) -> Option<Seq<char>> {
        match self.route_view().writing_spec() {
            Some(to) => match self.bind_view() {
                Some(data) => Some(path_join(data.configuration.output@, to)),
                None => Some(to),
            },
            None => None,
        }
    }

    /// An item with the given route, an empty body, attached to no bind.
    pub fn new(route: Route) -> (r: Item)
        ensures
            r.route_view() == route,
            r.body_view() == Seq::<char>::empty(),
            r.bind_view() is None,
            r.page_view() is None,
            r.metadata_view() is None,
            r.rendered_view() is None,
    {
        Item { body: String::new(), bind: None, route, page: None, metadata: None, rendered: None }
    }

    /// An item that reads `from`.
    pub fn reading(from: &str) -> (r: Item)
        ensures
            r.route_view() matches Route::Read(p) && p@ == from@,
            r.body_view() == Seq::<char>::empty(),
            r.bind_view() is None,
            r.page_view() is None,
            r.metadata_view() is None,
            r.rendered_view() is None,
    {
        Item::new(Route::Read(String::from_str(from)))
    }

    /// An item that writes `to`.
    pub fn writing(to: &str) -> (r: Item)
        ensures
            r.route_view() matches Route::Write(p) && p@ == to@,
            r.body_view() == Seq::<char>::empty(),
            r.bind_view() is None,
            r.page_view() is None,
            r.metadata_view() is None,
            r.rendered_view() is None,
    {
        Item::new(Route::Write(String::from_str(to)))
    }

    /// An item that reads `from` and writes `to`.
    pub fn read_write(from: &str, to: &str) -> (r: Item)
        ensures
            r.route_view() matches Route::ReadWrite(f, t) && f@ == from@ && t@ == to@,
            r.body_view() == Seq::<char>::empty(),
            r.bind_view() is None,
            r.page_view() is None,
            r.metadata_view() is None,
            r.rendered_view() is None,
    {
        Item::new(Route::ReadWrite(String::from_str(from), String::from_str(to)))
    }

    /// Attach the item to the data of a bind.
    pub fn attach_to(&mut self, bind: Arc<Data>)
        ensures
            final(self).bind_view() == Some(bind),
            final(self).route_view() == old(self).route_view(),
            final(self).body_view() == old(self).body_view(),
            final(self).page_view() == old(self).page_view(),
            final(self).metadata_view() == old(self).metadata_view(),
            final(self).rendered_view() == old(self).rendered_view(),
    {
        self.bind = Some(bind);
    }

    /// Access the item's route.
    pub fn route(&self) -> (r: &Route)
        ensures
            *r == self.route_view(),
    {
        &self.route
    }

    /// Route the item with the given function of paths.
    pub fn route_with<F: Fn(&str) -> String>(&mut self, router: F)
        requires
            forall|s: &str| call_requires(router, (s,)),
        ensures
            match old(self).route_view() {
                Route::Write(_) => final(self).route_view() == old(self).route_view(),
                Route::Read(from) | Route::ReadWrite(from, _) => final(self).route_view() matches Route::ReadWrite(
                    f,
                    t,
                ) && f == from && exists|s: &str| s@ == from@ && call_ensures(router, (s,), t),
            },
            final(self).bind_view() == old(self).bind_view(),
            final(self).body_view() == old(self).body_view(),
            final(self).page_view() == old(self).page_view(),
            final(self).metadata_view() == old(self).metadata_view(),
            final(self).rendered_view() == old(self).rendered_view(),
    {
        self.route.route_with(router)
    }

    /// Route the item with a router.
    pub fn route_by<R: Router>(&mut self, router: &R)
        ensures
            old(self).route_view().routed_to(router, final(self).route_view()),
            final(self).bind_view() == old(self).bind_view(),
            final(self).body_view() == old(self).body_view(),
            final(self).page_view() == old(self).page_view(),
            final(self).metadata_view() == old(self).metadata_view(),
            final(self).rendered_view() == old(self).rendered_view(),
    {
        self.route.route_by(router)
    }

    /// The page the item is, where it is one.
    pub fn page(&self) -> (r: Option<&Page>)
        ensures
            r is Some <==> self.page_view() is Some,
            r matches Some(p) ==> self.page_view() == Some(*p),
    {
        self.page.as_ref()
    }

    /// Make the item the given page.
    pub fn set_page(&mut self, page: Page)
        ensures
            final(self).page_view() == Some(page),
            final(self).route_view() == old(self).route_view(),
            final(self).bind_view() == old(self).bind_view(),
            final(self).body_view() == old(self).body_view(),
            final(self).metadata_view() == old(self).metadata_view(),
            final(self).rendered_view() == old(self).rendered_view(),
    {
        self.page = Some(page);
    }

    /// The item's body.
    pub fn body(&self) -> (r: &str)
        ensures
            r@ == self.body_view(),
    {
        self.body.as_str()
    }

    /// Replaces the item's body.
    pub fn set_body(&mut self, body: String)
        ensures
            final(self).body_view() == body@,
            final(self).route_view() == old(self).route_view(),
            final(self).bind_view() == old(self).bind_view(),
            final(self).page_view() == old(self).page_view(),
            final(self).metadata_view() == old(self).metadata_view(),
            final(self).rendered_view() == old(self).rendered_view(),
    {
        self.body = body;
    }

    /// The metadata parsed from the item's front matter, if any.
    pub fn metadata(&self) -> (r: Option<&Metadata>)
        ensures
            r is Some <==> self.metadata_view() is Some,
            r matches Some(m) ==> self.metadata_view() == Some(*m),
    {
        self.metadata.as_ref()
    }

    /// The HTML rendered from the item's body, if any.
    pub fn rendered(&self) -> (r: Option<&str>)
        ensures
            r is Some <==> self.rendered_view() is Some,
            r matches Some(h) ==> self.rendered_view() == Some(h@),
    {
        match &self.rendered {
            Some(h) => Some(h.as_str()),
            None => None,
        }
    }

    /// Keep the metadata parsed from the item's front matter.
    pub(crate) fn set_metadata(&mut self, metadata: Option<Metadata>)
        ensures
            final(self).metadata_view() == metadata,
            final(self).route_view() == old(self).route_view(),
            final(self).bind_view() == old(self).bind_view(),
            final(self).body_view() == old(self).body_view(),
            final(self).page_view() == old(self).page_view(),
            final(self).rendered_view() == old(self).rendered_view(),
    {
        self.metadata = metadata;
    }

    /// Keep the HTML rendered from the item's body.
    pub(crate) fn set_rendered(&mut self, html: String)
        ensures
            final(self).rendered_view() == Some(html@),
            final(self).route_view() == old(self).route_view(),
            final(self).bind_view() == old(self).bind_view(),
            final(self).body_view() == old(self).body_view(),
            final(self).page_view() == old(self).page_view(),
            final(self).metadata_view() == old(self).metadata_view(),
    {
        self.rendered = Some(html);
    }

    /// The path to the underlying file being read.
    pub fn source(&self) -> (r: Option<String>)
        ensures
            r is Some <==> self.source_spec() is Some,
            r matches Some(p) ==> self.source_spec() == Some(p@),
    {
        match self.route.reading() {
            Some(from) => match &self.bind {
                Some(data) => Some(join(data.configuration.input.as_str(), from)),
                None => Some(String::from_str(from)),
            },
            None => None,
        }
    }

    /// The path to the underlying file being written to.
    pub fn target(&self) -> (r: Option<String>)
        ensures
            r is Some <==> self.target_spec() is Some,
            r matches Some(p) ==> self.target_spec() == Some(p@),
    {
        match self.route.writing() {
            Some(to) => match &self.bind {
                Some(data) => Some(join(data.configuration.output.as_str(), to)),
                None => Some(String::from_str(to)),
            },
            None => None,
        }
    }

    /// Access the data of the bind the item is attached to; the item must
    /// be attached to one.
    pub fn bind(&self) -> (r: &Data)
        requires
            self.bind_view() is Some,
        ensures
            self.bind_view() matches Some(d) && *d == *r,
    {
        let data: &Arc<Data> = self.bind.as_ref().unwrap();
        &**data
    }
}

} // verus!
