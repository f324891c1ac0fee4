use std::sync::Arc;

use diecast::bind::Data;
use diecast::configuration::Configuration;
use diecast::item::{Item, Route};
use diecast::pattern::Regex as Expression;
use diecast::route::{identity, pretty, pretty_page, set_extension, Regex, Route as Router, SetExtension};

fn written(item: &Item) -> Option<String> {
    item.route().writing().map(String::from)
}

#[test]
fn route_reading_and_writing() {
    let read = Route::Read(String::from("a.md"));
    let write = Route::Write(String::from("b.html"));
    let both = Route::ReadWrite(String::from("a.md"), String::from("b.html"));

    assert!(read.is_reading() && !read.is_writing());
    assert!(!write.is_reading() && write.is_writing());
    assert!(both.is_reading() && both.is_writing());

    assert_eq!(read.reading(), Some("a.md"));
    assert_eq!(read.writing(), None);
    assert_eq!(write.reading(), None);
    assert_eq!(write.writing(), Some("b.html"));
    assert_eq!(both.reading(), Some("a.md"));
    assert_eq!(both.writing(), Some("b.html"));
}

#[test]
fn route_with_routes_the_read_path() {
    let mut read = Route::Read(String::from("a.md"));
    read.route_with(|p: &str| format!("{}.out", p));
    assert_eq!(read.reading(), Some("a.md"));
    assert_eq!(read.writing(), Some("a.md.out"));

    let mut both = Route::ReadWrite(String::from("a.md"), String::from("old"));
    both.route_with(|p: &str| format!("new/{}", p));
    assert_eq!(both.writing(), Some("new/a.md"));

    let mut write = Route::Write(String::from("b.html"));
    write.route_with(|p: &str| format!("never/{}", p));
    assert_eq!(write.writing(), Some("b.html"));
    assert_eq!(write.reading(), None);
}

#[test]
fn items_without_a_bind_use_their_paths() {
    let item = Item::read_write("posts/a.md", "posts/a.html");

    assert_eq!(item.source(), Some(String::from("posts/a.md")));
    assert_eq!(item.target(), Some(String::from("posts/a.html")));
    assert_eq!(item.body, "");
    assert!(item.page().is_none());
    assert_eq!(Item::writing("x").source(), None);
    assert_eq!(Item::reading("x").target(), None);
}

#[test]
fn attached_items_live_under_the_directories() {
    let configuration = Arc::new(Configuration::new().input("in").output("out"));
    let mut item = Item::read_write("posts/a.md", "posts/a.html");
    item.attach_to(Arc::new(Data::new("posts", configuration)));

    assert_eq!(item.source(), Some(String::from("in/posts/a.md")));
    assert_eq!(item.target(), Some(String::from("out/posts/a.html")));
    assert_eq!(item.bind().name, "posts");
}

#[test]
fn identity_routes_to_the_same_path() {
    let mut item = Item::reading("posts/a.md");
    identity(&mut item).unwrap();
    assert_eq!(written(&item), Some(String::from("posts/a.md")));
}

#[test]
fn set_extension_replaces_the_extension() {
    let mut item = Item::reading("posts/a.md");
    diecast::handle::Handle::handle(&set_extension("html"), &mut item).unwrap();
    assert_eq!(written(&item), Some(String::from("posts/a.html")));

    assert_eq!(SetExtension::new("txt").route("file.md"), "file.txt");
    assert_eq!(SetExtension::new("html").route("noext"), "noext.html");
}

#[test]
fn pretty_routes_into_a_directory() {
    let mut item = Item::reading("posts/hello.md");
    pretty(&mut item).unwrap();
    assert_eq!(written(&item), Some(String::from("posts/hello/index.html")));
}

#[test]
fn pretty_page_routes_to_the_top_level() {
    let mut item = Item::reading("posts/hello.md");
    pretty_page(&mut item).unwrap();
    assert_eq!(written(&item), Some(String::from("hello/index.html")));

    let mut root = Item::reading("/");
    pretty_page(&mut root).unwrap();
    assert_eq!(written(&root), Some(String::from("/")));
}

#[test]
fn regex_routes_by_expansion() {
    let expression = Expression::new(r"posts/post-(?P<name>.+)\.markdown").ok().unwrap();
    let router = Regex::new(expression, "target/$name.html");

    assert_eq!(router.route("posts/post-hello.markdown"), "target/hello.html");
    assert_eq!(router.route("pages/about.md"), "pages/about.md");
}

#[test]
fn conditional_routes_only_matching_items() {
    let handler = diecast::handlers::conditional(
        |item: &Item| item.route().reading().map_or(false, |p| p.ends_with(".md")),
        set_extension("html"),
    );
    let mut markdown = Item::reading("a.md");
    let mut text = Item::reading("b.txt");
    diecast::handle::Handle::handle(&handler, &mut markdown).unwrap();
    diecast::handle::Handle::handle(&handler, &mut text).unwrap();
    assert_eq!(written(&markdown), Some(String::from("a.html")));
    assert_eq!(written(&text), None);
}

#[test]
fn source_joins_the_input_directory() {
    let data = |input: &str| Arc::new(Data::new("posts", Arc::new(Configuration::new().input(input))));
    let mut item = Item::reading("a.md");
    item.attach_to(data("in"));
    assert_eq!(item.source(), Some(String::from("in/a.md")));
    let mut slashed = Item::reading("a.md");
    slashed.attach_to(data("in/"));
    assert_eq!(slashed.source(), Some(String::from("in/a.md")));
    let mut absolute = Item::reading("/abs/a.md");
    absolute.attach_to(data("in"));
    assert_eq!(absolute.source(), Some(String::from("/abs/a.md")));
    let mut empty = Item::reading("a.md");
    empty.attach_to(data(""));
    assert_eq!(empty.source(), Some(String::from("a.md")));
}
