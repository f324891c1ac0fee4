use diecast::support::slugify;

#[test]
fn slugify_lowers_and_hyphenates() {
    assert_eq!(slugify("Hello World!"), "hello-world");
    assert_eq!(slugify("This Week in Rust: 42"), "this-week-in-rust-42");
}

#[test]
fn slugify_drops_punctuation() {
    assert_eq!(slugify("a.b,c"), "abc");
    assert_eq!(slugify(""), "");
    assert_eq!(slugify("!!!"), "");
}

#[test]
fn slugify_keeps_each_whitespace() {
    assert_eq!(slugify("a  b\tc\nd"), "a--b-c-d");
}

#[test]
fn slugify_handles_unicode() {
    assert_eq!(slugify("Ünïcödé Straße"), "ünïcödé-straße");
}

#[test]
fn slugify_hyphenates_unicode_whitespace() {
    assert_eq!(slugify("a\u{a0}b\u{2003}c\u{3000}d\u{85}e"), "a-b-c-d-e");
    assert_eq!(slugify("a\u{200b}b"), "ab");
}
