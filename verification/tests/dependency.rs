use diecast::dependency::Graph;

fn helper_graph() -> Graph {
    let mut graph = Graph::new();

    graph.add_edge(8, 7);
    graph.add_edge(7, 6);

    graph.add_edge(6, 9);
    graph.add_edge(9, 10);
    graph.add_edge(9, 12);

    graph.add_edge(9, 11);
    graph.add_edge(11, 12);

    graph.add_edge(6, 4);

    graph.add_edge(0, 6);
    graph.add_edge(0, 1);
    graph.add_edge(0, 5);

    graph.add_edge(5, 4);

    graph.add_edge(2, 0);
    graph.add_edge(2, 3);
    graph.add_edge(3, 5);

    graph
}

fn position(order: &[u64], node: u64) -> usize {
    order.iter().position(|&n| n == node).unwrap()
}

#[test]
fn dependency_detect_cycles() {
    let mut graph = Graph::new();

    graph.add_edge(1, 2);
    graph.add_edge(2, 3);
    graph.add_edge(3, 1);

    let cycle = graph.resolve_all();

    assert!(cycle.is_err());
}

#[test]
fn dependency_resolve_all() {
    let graph = helper_graph();

    let decomposed = graph.resolve_all();

    assert!(decomposed.is_ok());
}

#[test]
fn dependency_resolve_only() {
    let graph = helper_graph();

    let resolve_single = graph.resolve(vec![6]);

    assert!(resolve_single.is_ok());

    let from_node = graph.resolve_only(6);

    assert!(from_node.is_ok());
}

#[test]
fn resolve_all_orders_every_edge() {
    let graph = helper_graph();
    let order: Vec<u64> = graph.resolve_all().unwrap().into_iter().collect();

    let mut sorted = order.clone();
    sorted.sort();
    assert_eq!(sorted, vec![0, 1, 2, 3, 4, 5, 6, 7, 8, 9, 10, 11, 12]);

    let edges = [
        (8, 7), (7, 6), (6, 9), (9, 10), (9, 12), (9, 11), (11, 12), (6, 4),
        (0, 6), (0, 1), (0, 5), (5, 4), (2, 0), (2, 3), (3, 5),
    ];
    for (a, b) in edges.iter() {
        assert!(position(&order, *a) < position(&order, *b));
    }
}

#[test]
fn resolve_only_holds_what_the_node_reaches() {
    let graph = helper_graph();
    let order: Vec<u64> = graph.resolve_only(6).unwrap().into_iter().collect();

    let mut sorted = order.clone();
    sorted.sort();
    assert_eq!(sorted, vec![4, 6, 9, 10, 11, 12]);
    assert!(position(&order, 6) < position(&order, 9));
    assert!(position(&order, 9) < position(&order, 11));
    assert!(position(&order, 11) < position(&order, 12));
}

#[test]
fn cycle_error_traces_the_cycle() {
    let mut graph = Graph::new();

    graph.add_edge(1, 2);
    graph.add_edge(2, 3);
    graph.add_edge(3, 1);

    let error = graph.resolve_only(1).err().unwrap();
    let cycle: Vec<u64> = error.cycle().iter().cloned().collect();

    assert_eq!(cycle, vec![1, 2, 3, 1]);
    assert_eq!(error.description(), "dependency cycle detected");
}

#[test]
fn resolve_on_a_cycle_out_of_reach_succeeds() {
    let mut graph = Graph::new();

    graph.add_edge(1, 2);
    graph.add_edge(2, 3);
    graph.add_edge(3, 2);
    graph.add_node(5);

    assert!(graph.resolve(vec![5]).is_ok());
    assert!(graph.resolve(vec![1]).is_err());
    assert!(graph.resolve_all().is_err());
}

#[test]
fn graph_queries() {
    let graph = helper_graph();

    assert_eq!(graph.nodes(), vec![0, 1, 2, 3, 4, 5, 6, 7, 8, 9, 10, 11, 12]);
    assert_eq!(graph.dependency_count(12), 2);
    assert_eq!(graph.dependency_count(8), 0);

    let dependents: Vec<u64> = graph.dependents_of(9).unwrap().iter().cloned().collect();
    assert_eq!(dependents, vec![10, 11, 12]);

    let dependencies: Vec<u64> = graph.dependencies_of(4).unwrap().iter().cloned().collect();
    assert_eq!(dependencies, vec![5, 6]);

    assert!(graph.dependencies_of(8).is_none());
    assert_eq!(graph.neighbors_of(0), Some(vec![1, 5, 6]));
    assert_eq!(graph.neighbors_of(12), None);
}

#[test]
fn empty_graph_resolves_to_nothing() {
    let graph = Graph::new();

    assert_eq!(graph.resolve_all().unwrap().len(), 0);
    assert!(graph.nodes().is_empty());
}
