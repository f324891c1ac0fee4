use diecast::pattern::dsl::{and, not, or};
use diecast::pattern::{Everything, Glob, Nothing, PathSet, Pattern, Regex};

#[test]
fn pattern_match_everything() {
    let intro_to_rust = "posts/long/introduction-to-rust.md";

    assert!(Everything.matches(intro_to_rust));
}

#[test]
fn pattern_match_globs() {
    let pattern = Glob::new("posts/**/*.md").ok().unwrap();
    let intro_to_rust = "posts/long/introduction-to-rust.md";
    let about_page = "pages/about.md";

    assert!(Pattern::matches(&pattern, intro_to_rust));
    assert!(!Pattern::matches(&pattern, about_page));
}

#[test]
fn pattern_match_regex() {
    let intro_to_rust = "posts/long/introduction-to-rust.md";
    let this_week_in_rust = "posts/short/this-week-in-rust.md";

    assert!(Regex::new(r"introduction").ok().unwrap().matches(intro_to_rust));
    assert!(!Regex::new(r"introduction").ok().unwrap().matches(this_week_in_rust));
}

#[test]
fn pattern_match_conjunctions() {
    let posts = Glob::new("posts/**/*.md").ok().unwrap();
    let intro_to_rust = "posts/long/introduction-to-rust.md";
    let this_week_in_rust = "posts/short/this-week-in-rust.md";
    let about_page = "pages/about.md";

    assert!(!and(&posts, not("posts/short/this-week-in-rust.md")).matches(this_week_in_rust));
    assert!(and(&posts, not("posts/short/this-week-in-rust.md")).matches(intro_to_rust));
    assert!(!and(&posts, not("posts/short/this-week-in-rust.md")).matches(about_page));
}

#[test]
fn pattern_match_disjunctions() {
    let intro_to_rust = "posts/long/introduction-to-rust.md";
    let about_page = "pages/about.md";

    assert!(or("pages/about.md", "second.md").matches(about_page));
    assert!(!or("pages/about.md", "second.md").matches(intro_to_rust));
}

#[test]
fn pattern_not_match_negations() {
    let intro_to_rust = "posts/long/introduction-to-rust.md";
    let about_page = "pages/about.md";

    // not!(a, b) is the conjunction of the negations.
    assert!(!and(not("pages/about.md"), not("pages/lately.md")).matches(about_page));
    assert!(and(not("pages/about.md"), not("pages/lately.md")).matches(intro_to_rust));
}

#[test]
fn pattern_match_single_files() {
    let about_page = "pages/about.md";

    assert!(Pattern::matches(&"pages/about.md", about_page));
}

#[test]
fn pattern_use_macros() {
    let posts = Glob::new("posts/**/*.md").ok().unwrap();
    let posts_level = Glob::new("posts/**").ok().unwrap();
    let intro_to_rust = "posts/long/introduction-to-rust.md";
    let this_week_in_rust = "posts/short/this-week-in-rust.md";
    let about_page = "pages/about.md";

    assert!(or("pages/about.md", "pages/lately.md").matches(about_page));
    assert!(and(&posts, not("posts/short/this-week-in-rust.md")).matches(intro_to_rust));
    assert!(!and(&posts, not("posts/short/this-week-in-rust.md")).matches(this_week_in_rust));

    assert!(or("pages/about.md", and(&posts_level, not("posts/short/this-week-in-rust.md")))
        .matches(intro_to_rust));

    assert!(or("pages/about.md", and(&posts_level, not("posts/short/this-week-in-rust.md")))
        .matches(about_page));

    assert!(!or("pages/about.md", and(&posts_level, not("posts/short/this-week-in-rust.md")))
        .matches(this_week_in_rust));
}

#[test]
fn nothing_matches_nothing() {
    assert!(!Nothing.matches("pages/about.md"));
    assert!(!Nothing.matches(""));
}

#[test]
fn string_patterns_are_literal() {
    let literal = String::from("pages/*.md");

    assert!(literal.matches("pages/*.md"));
    assert!(!literal.matches("pages/about.md"));
}

#[test]
fn path_sets_match_their_members() {
    let set = PathSet { paths: vec![String::from("a.md"), String::from("b/c.md")] };

    assert!(set.matches("a.md"));
    assert!(set.matches("b/c.md"));
    assert!(!set.matches("c.md"));
}

#[test]
fn invalid_glob_is_refused() {
    let error = Glob::new("posts/***").err().unwrap();

    assert_eq!(error.source, "posts/***");
    assert_eq!(Glob::new("posts/*.md").ok().unwrap().as_str(), "posts/*.md");
}

#[test]
fn invalid_regex_is_refused() {
    let error = Regex::new("(unclosed").err().unwrap();

    assert_eq!(error.source, "(unclosed");
    assert_eq!(Regex::new("a+").ok().unwrap().as_str(), "a+");
}

#[test]
fn regex_expansion_interpolates_groups() {
    let re = Regex::new(r"posts/post-(?P<name>.+)\.markdown").ok().unwrap();

    assert_eq!(
        re.expand_first("posts/post-hello.markdown", "target/$name.html"),
        Some(String::from("target/hello.html"))
    );
    assert_eq!(re.expand_first("pages/about.md", "target/$name.html"), None);
}
