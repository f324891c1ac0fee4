use diecast::job::Manager;

fn deps(names: &[&str]) -> Vec<String> {
    names.iter().map(|n| String::from(*n)).collect()
}

#[test]
fn manager_releases_binds_after_their_dependencies() {
    let mut manager = Manager::new();
    let posts = manager.add("posts", &deps(&[]));
    let index = manager.add("index", &deps(&["posts", "pages"]));
    let pages = manager.add("pages", &deps(&[]));

    assert!(manager.all_registered());
    let mut ready = manager.build().ok().unwrap();
    ready.sort();
    let mut expected = vec![posts, pages];
    expected.sort();
    assert_eq!(ready, expected);

    assert!(manager.handle_done(posts).is_empty());
    assert_eq!(manager.handle_done(pages), vec![index]);
    assert!(manager.handle_done(index).is_empty());
}

#[test]
fn manager_reports_cycles() {
    let mut manager = Manager::new();
    manager.add("a", &deps(&["b"]));
    manager.add("b", &deps(&["a"]));

    assert!(manager.build().is_err());
}

#[test]
fn manager_knows_names() {
    let mut manager = Manager::new();
    let a = manager.add("a", &deps(&["b"]));
    assert_eq!(manager.name(a), "a");
    assert!(!manager.all_registered());
}
