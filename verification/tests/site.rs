use std::sync::{Arc, Mutex};

use diecast::bind::{Bind, Data};
use diecast::configuration::Configuration;
use diecast::handlers::{sort_by, Order};
use diecast::handle::{Error, Handle};
use diecast::handlers::{create, each, retain, select};
use diecast::item::Item;
use diecast::pagination::paginate;
use diecast::pattern::Glob;
use diecast::route::SetExtension;
use diecast::rule::Rule;
use diecast::site::{BuildError, Site, SiteError};

/// Records the name of each bind it runs on, and the names of its
/// dependencies.
struct Record {
    log: Arc<Mutex<Vec<(String, Vec<String>)>>>,
}

impl Handle<Bind> for Record {
    fn handle(&self, bind: &mut Bind) -> Result<(), Error> {
        let names = bind.data().dependencies.iter().map(|d| d.name.clone()).collect();
        self.log.lock().unwrap().push((bind.data().name.clone(), names));
        Ok(())
    }
}

struct Fail;

impl Handle<Bind> for Fail {
    fn handle(&self, _bind: &mut Bind) -> Result<(), Error> {
        Err(Error::new("broken"))
    }
}

fn files(paths: &[&str]) -> Vec<String> {
    paths.iter().map(|p| String::from(*p)).collect()
}

fn position(log: &[(String, Vec<String>)], name: &str) -> usize {
    log.iter().position(|(n, _)| n == name).unwrap()
}

#[test]
fn site_runs_rules_after_their_dependencies() {
    let log = Arc::new(Mutex::new(Vec::new()));
    let rules = vec![
        Rule::named("index").depends_on("posts").depends_on("pages").handler(Record { log: log.clone() }).build(),
        Rule::named("posts").handler(Record { log: log.clone() }).build(),
        Rule::named("feed").depends_on("posts").handler(Record { log: log.clone() }).build(),
        Rule::named("pages").handler(Record { log: log.clone() }).build(),
    ];
    let site = Site::new(rules).ok().unwrap();
    let done = site.build(&Vec::new()).ok().unwrap();

    assert_eq!(done.len(), 4);
    let log = log.lock().unwrap();
    assert_eq!(log.len(), 4);
    assert!(position(&log, "posts") < position(&log, "index"));
    assert!(position(&log, "pages") < position(&log, "index"));
    assert!(position(&log, "posts") < position(&log, "feed"));

    let index = &log[position(&log, "index")];
    let mut deps = index.1.clone();
    deps.sort();
    assert_eq!(deps, vec![String::from("pages"), String::from("posts")]);
}

#[test]
fn site_refuses_unregistered_dependencies() {
    let rules = vec![
        Rule::named("posts").build(),
        Rule::named("index").depends_on("posts").depends_on("tags").depends_on("feed").build(),
    ];

    match Site::new(rules) {
        Err(SiteError::UnregisteredDependencies { rule, missing }) => {
            assert_eq!(rule, "index");
            assert_eq!(missing, vec![String::from("tags"), String::from("feed")]);
        },
        _ => panic!("the dependencies should be missing"),
    }
}

#[test]
fn site_refuses_duplicate_rules() {
    let rules = vec![Rule::named("posts").build(), Rule::named("posts").build()];

    match Site::new(rules) {
        Err(SiteError::DuplicateRule { name }) => assert_eq!(name, "posts"),
        _ => panic!("the rule is there twice"),
    }
}

#[test]
fn site_reports_dependency_cycles() {
    let rules = vec![
        Rule::named("a").depends_on("b").build(),
        Rule::named("b").depends_on("c").build(),
        Rule::named("c").depends_on("a").build(),
    ];
    let site = Site::new(rules).ok().unwrap();

    match site.build(&Vec::new()) {
        Err(BuildError::Cycle(names)) => {
            assert!(names.len() >= 2);
            let last = names[names.len() - 1].clone();
            assert!(names[..names.len() - 1].contains(&last));
        },
        _ => panic!("the rules form a cycle"),
    }
}

#[test]
fn site_stops_at_a_failing_handler() {
    let log = Arc::new(Mutex::new(Vec::new()));
    let rules = vec![
        Rule::named("first").handler(Fail).build(),
        Rule::named("second").depends_on("first").handler(Record { log: log.clone() }).build(),
    ];
    let site = Site::new(rules).ok().unwrap();

    match site.build(&Vec::new()) {
        Err(BuildError::Failed { rule, error }) => {
            assert_eq!(rule, "first");
            assert_eq!(error.description(), "broken");
        },
        _ => panic!("the handler fails"),
    }
    assert!(log.lock().unwrap().is_empty());
}

#[test]
fn select_and_create_attach_items() {
    let posts = Glob::new("posts/*.md").ok().unwrap();
    let rules = vec![
        Rule::named("posts").handler(select(posts)).build(),
        Rule::named("index").handler(create("index.html")).build(),
    ];
    let mut site = Site::new(rules).ok().unwrap();
    site.set_configuration(diecast::configuration::Configuration::new().input("in").output("out"));

    let input = files(&["in/posts/a.md", "in/posts/b.md", "in/pages/c.md", "in/posts/d.txt"]);
    let done = site.build(&input).ok().unwrap();

    let posts = done.iter().find(|f| f.bind.data().name == "posts").unwrap();
    let items = posts.bind.items();
    assert_eq!(items.len(), 2);
    assert_eq!(items[0].route().reading(), Some("posts/a.md"));
    assert_eq!(items[1].route().reading(), Some("posts/b.md"));
    assert_eq!(items[0].source(), Some(String::from("in/posts/a.md")));

    let index = done.iter().find(|f| f.bind.data().name == "index").unwrap();
    assert_eq!(index.bind.items()[0].target(), Some(String::from("out/index.html")));
}

#[test]
fn ignored_files_are_left_out() {
    let ignore = diecast::pattern::Regex::new(r"^\.|~$").ok().unwrap();
    let mut site = Site::new(vec![]).ok().unwrap();
    site.set_configuration(diecast::configuration::Configuration::new().ignore(ignore));

    let kept = site.considered_paths(&files(&["input/a.md", "input/.hidden", "input/b.md~", "input/c.md"]));
    assert_eq!(kept, files(&["input/a.md", "input/c.md"]));
}

#[test]
fn each_routes_every_item_and_retain_filters() {
    let rules = vec![
        Rule::named("posts")
            .handler(
                diecast::handle::Chain::new()
                    .link(select(Glob::new("*.md").ok().unwrap()))
                    .link(each(SetExtension::new("html")))
                    .link(retain(|item: &Item| item.route().reading() != Some("b.md"))),
            )
            .build(),
    ];
    let mut site = Site::new(rules).ok().unwrap();
    site.set_configuration(diecast::configuration::Configuration::new().input("in"));

    let done = site.build(&files(&["in/a.md", "in/b.md", "in/c.md"])).ok().unwrap();
    let items = done[0].bind.items();

    assert_eq!(items.len(), 2);
    assert_eq!(items[0].route().writing(), Some("a.html"));
    assert_eq!(items[1].route().writing(), Some("c.html"));
}

#[test]
fn paginate_creates_a_page_per_group_of_posts() {
    let rules = vec![
        Rule::named("posts").handler(select(Glob::new("*.md").ok().unwrap())).build(),
        Rule::named("pages")
            .depends_on("posts")
            .handler(paginate("posts", 2, |n: usize| format!("page/{}.html", n)))
            .build(),
    ];
    let mut site = Site::new(rules).ok().unwrap();
    site.set_configuration(diecast::configuration::Configuration::new().input("in"));

    let done = site.build(&files(&["in/a.md", "in/b.md", "in/c.md"])).ok().unwrap();
    let pages = done.iter().find(|f| f.bind.data().name == "pages").unwrap();
    let items = pages.bind.items();

    assert_eq!(items.len(), 2);
    assert_eq!(items[0].route().writing(), Some("page/0.html"));
    assert_eq!(items[1].route().writing(), Some("page/1.html"));
    let second = items[1].page().unwrap();
    assert_eq!((second.range.start, second.range.end), (2, 3));
    assert_eq!(second.prev, Some((0, String::from("page/0.html"))));
}

#[test]
fn paginate_fails_without_its_dependency() {
    let rules = vec![Rule::named("pages").handler(paginate("posts", 2, |n: usize| format!("{}", n))).build()];
    let site = Site::new(rules).ok().unwrap();

    assert!(matches!(site.build(&Vec::new()), Err(BuildError::Failed { .. })));
}

#[test]
fn cleaning_keeps_hidden_entries_only_when_asked() {
    let mut site = Site::new(vec![]).ok().unwrap();
    assert!(site.removes(".git"));
    assert!(site.removes("index.html"));
    site.set_configuration(diecast::configuration::Configuration::new().ignore_hidden(true));
    assert!(!site.removes(".git"));
    assert!(!site.removes(""));
    assert!(site.removes("index.html"));
}

#[test]
fn configured_ignore_pattern_is_used() {
    let configuration = diecast::configuration::Configuration::new().ignore("skip.md");
    assert!(configuration.threads >= 1);
    let ignore = configuration.ignore.as_ref().unwrap().as_ref();
    assert!(diecast::pattern::Pattern::matches(ignore, "skip.md"));
    assert!(!diecast::pattern::Pattern::matches(ignore, "keep.md"));
}

#[test]
fn sort_by_orders_items_stably() {
    let mut bind = Bind::new(Data::new("posts", Arc::new(Configuration::new())));
    for path in ["c1", "a1", "b1", "a2", "c2"] {
        bind.attach(Item::reading(path));
    }
    let sorter = sort_by(|a: &Item, b: &Item| {
        let (x, y) = (first_letter(a), first_letter(b));
        if x < y {
            Order::Less
        } else if x == y {
            Order::Equal
        } else {
            Order::Greater
        }
    });
    sorter.handle(&mut bind).unwrap();
    let order: Vec<&str> = bind.items().iter().map(|i| i.route().reading().unwrap()).collect();
    assert_eq!(order, vec!["a1", "a2", "b1", "c1", "c2"]);
}

fn first_letter(item: &Item) -> char {
    item.route().reading().unwrap().chars().next().unwrap()
}

struct FailOn(&'static str);

impl Handle<Item> for FailOn {
    fn handle(&self, item: &mut Item) -> Result<(), Error> {
        if item.route().reading() == Some(self.0) {
            Err(Error::new("cannot handle this item"))
        } else {
            Ok(())
        }
    }
}

#[test]
fn each_returns_the_error_of_the_failing_item() {
    let mut bind = Bind::new(Data::new("posts", Arc::new(Configuration::new())));
    for path in ["a.md", "b.md", "c.md"] {
        bind.attach(Item::reading(path));
    }
    let result = each(FailOn("b.md")).handle(&mut bind);
    assert_eq!(result.err().unwrap().description(), "cannot handle this item");
    assert!(bind.items().is_empty());
}
