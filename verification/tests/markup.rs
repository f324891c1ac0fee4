use diecast::item::Item;
use diecast::markup::{parse_metadata, render_markdown, split_front_matter};

fn split(body: &str) -> Option<(String, String)> {
    split_front_matter(body)
}

fn owned(meta: &str, rest: &str) -> Option<(String, String)> {
    Some((String::from(meta), String::from(rest)))
}

#[test]
fn front_matter_is_split_off() {
    assert_eq!(split("---\ntitle = \"a\"\n---\nbody"), owned("title = \"a\"\n", "body"));
    assert_eq!(split("---  \n\n---\n\n\nrest"), owned("", "rest"));
    assert_eq!(split("---\na\n---b\n---\nc"), owned("a\n---b\n", "c"));
    assert_eq!(split("---\nx\n---"), owned("x\n", ""));
    assert_eq!(split("---\nx\n---  \n  text"), owned("x\n", "  text"));
}

#[test]
fn bodies_without_front_matter_are_not_split() {
    assert_eq!(split("hello"), None);
    assert_eq!(split("--- x\n---\n"), None);
    assert_eq!(split("---\nno closing fence\n"), None);
    assert_eq!(split("--"), None);
}

#[test]
fn parse_metadata_keeps_the_table_and_the_rest() {
    let mut item = Item::reading("post.md");
    item.set_body(String::from("---\ntitle = \"Hello\"\ntags = [\"a\", \"b\"]\n---\n\n# Hello\n"));
    parse_metadata(&mut item).unwrap();
    assert_eq!(item.body(), "# Hello\n");
    let metadata = item.metadata().unwrap();
    assert_eq!(metadata.source, "title = \"Hello\"\ntags = [\"a\", \"b\"]\n");
    assert_eq!(metadata.data.get("title").and_then(|t| t.as_str()), Some("Hello"));
}

#[test]
fn invalid_front_matter_leaves_no_metadata() {
    let mut item = Item::reading("post.md");
    item.set_body(String::from("---\nnot toml at all\n---\nbody"));
    parse_metadata(&mut item).unwrap();
    assert_eq!(item.body(), "body");
    assert!(item.metadata().is_none());

    let mut plain = Item::reading("plain.md");
    plain.set_body(String::from("just text"));
    parse_metadata(&mut plain).unwrap();
    assert_eq!(plain.body(), "just text");
    assert!(plain.metadata().is_none());
}

#[test]
fn render_markdown_keeps_the_body() {
    let mut item = Item::reading("post.md");
    item.set_body(String::from("# Hi\n\nsome *text*\n"));
    render_markdown(&mut item).unwrap();
    assert_eq!(item.body(), "# Hi\n\nsome *text*\n");
    let html = item.rendered().unwrap();
    assert!(html.contains("<h1>Hi</h1>"));
    assert!(html.contains("<em>text</em>"));
}
