use raur::graph::DependencyGraph;

#[test]
fn test_simple_dag() {
    let mut graph = DependencyGraph::new();
    graph.add_edge("a", "b"); // a depends on b
    graph.add_edge("b", "c"); // b depends on c

    let order = graph.topological_order().unwrap();
    assert_eq!(order, vec!["c", "b", "a"]);
}

#[test]
fn test_circular_dependency() {
    let mut graph = DependencyGraph::new();
    graph.add_edge("a", "b");
    graph.add_edge("b", "c");
    graph.add_edge("c", "a"); // Creates cycle

    assert!(graph.topological_order().is_err());
}

#[test]
fn diamond_order_places_shared_dependency_first() {
    let mut graph = DependencyGraph::new();
    graph.add_edge("a", "b");
    graph.add_edge("a", "c");
    graph.add_edge("b", "d");
    graph.add_edge("c", "d");

    let order = graph.topological_order().unwrap();
    assert_eq!(order.len(), 4);
    let pos = |n: &str| order.iter().position(|x| x == n).unwrap();
    assert!(pos("d") < pos("b"));
    assert!(pos("d") < pos("c"));
    assert!(pos("b") < pos("a"));
    assert!(pos("c") < pos("a"));
    assert_eq!(order.iter().filter(|x| x.as_str() == "d").count(), 1);
}

#[test]
fn node_insertion_is_idempotent() {
    let mut graph = DependencyGraph::new();
    graph.add_node("leaf");
    graph.add_node("leaf");
    assert_eq!(graph.node_count(), 1);
}

#[test]
fn lone_node_survives_ordering() {
    let mut graph = DependencyGraph::new();
    graph.add_node("leaf");
    let order = graph.topological_order().unwrap();
    assert_eq!(order, vec!["leaf"]);
}

#[test]
fn cycle_error_names_a_node_on_the_cycle() {
    let mut graph = DependencyGraph::new();
    graph.add_edge("a", "b");
    graph.add_edge("b", "a");
    let e = graph.topological_order().unwrap_err();
    assert!(e == "a" || e == "b");
}
