use solstice::graph::Graph;

fn p(s: &str) -> String {
    s.to_string()
}

#[test]
fn graph_test_topological_sort() {
    let mut graph = Graph::new();

    let a = graph.add_node(p("a"));
    let b = graph.add_node(p("b"));
    let c = graph.add_node(p("c"));
    let d = graph.add_node(p("d"));

    graph.add_edge(a, b);
    graph.add_edge(b, c);
    graph.add_edge(c, d);

    let result = graph.topological_sort();
    assert_eq!(result, Some(vec![p("a"), p("b"), p("c"), p("d")]));
}

#[test]
fn mod_test_topological_sort() {
    let mut graph = Graph::new();

    let a = graph.add_node(p("a"));
    let b = graph.add_node(p("b"));
    let c = graph.add_node(p("c"));
    let d = graph.add_node(p("d"));

    graph.add_edge(a, b);
    graph.add_edge(b, c);
    graph.add_edge(c, d);

    graph.to_dot();
}

#[test]
fn add_node_gives_the_same_index_for_the_same_path() {
    let mut graph = Graph::new();
    assert_eq!(graph.add_node(p("x")), 0);
    assert_eq!(graph.add_node(p("y")), 1);
    assert_eq!(graph.add_node(p("x")), 0);
    assert_eq!(graph.topological_sort(), Some(vec![p("x"), p("y")]));
}

#[test]
fn cycle_has_no_order() {
    let mut graph = Graph::new();
    let a = graph.add_node(p("a"));
    let b = graph.add_node(p("b"));
    graph.add_edge(a, b);
    graph.add_edge(b, a);
    assert_eq!(graph.topological_sort(), None);
}

#[test]
fn self_loop_has_no_order() {
    let mut graph = Graph::new();
    let a = graph.add_node(p("a"));
    graph.add_edge(a, a);
    assert_eq!(graph.topological_sort(), None);
}

#[test]
fn edge_to_missing_node_has_no_order() {
    let mut graph = Graph::new();
    let a = graph.add_node(p("a"));
    graph.add_edge(a, 7);
    assert_eq!(graph.topological_sort(), None);
}

#[test]
fn edge_from_missing_node_is_ignored() {
    let mut graph = Graph::new();
    graph.add_node(p("a"));
    graph.add_edge(3, 0);
    assert_eq!(graph.topological_sort(), Some(vec![p("a")]));
}

#[test]
fn diamond_orders_every_edge_forward() {
    let mut graph = Graph::new();
    let d = graph.add_node(p("d"));
    let b = graph.add_node(p("b"));
    let c = graph.add_node(p("c"));
    let a = graph.add_node(p("a"));
    graph.add_edge(a, b);
    graph.add_edge(a, c);
    graph.add_edge(b, d);
    graph.add_edge(c, d);
    assert_eq!(
        graph.topological_sort(),
        Some(vec![p("a"), p("b"), p("c"), p("d")])
    );
}

#[test]
fn empty_graph_sorts_to_nothing() {
    let graph = Graph::new();
    assert_eq!(graph.topological_sort(), Some(vec![]));
    assert_eq!(
        graph.to_dot(),
        "digraph Dependencies {\n  rankdir=LR;\n  node [shape=box, style=rounded];\n\n\n}\n"
    );
}

#[test]
fn to_dot_lists_nodes_then_edges() {
    let mut graph = Graph::new();
    let a = graph.add_node(p("src/A.sol"));
    let b = graph.add_node(p("src/B.sol"));
    graph.add_edge(a, b);
    graph.add_edge(b, a);
    let expected = "digraph Dependencies {\n  rankdir=LR;\n  node [shape=box, style=rounded];\n\n  0 [label=\"src/A.sol\"];\n  1 [label=\"src/B.sol\"];\n\n  0 -> 1;\n  1 -> 0;\n}\n";
    assert_eq!(graph.to_dot(), expected);
}

#[test]
fn parallel_edges_are_no_cycle() {
    let mut graph = Graph::new();
    let a = graph.add_node(p("a"));
    let b = graph.add_node(p("b"));
    graph.add_edge(a, b);
    graph.add_edge(a, b);
    assert_eq!(graph.topological_sort(), Some(vec![p("a"), p("b")]));
    graph.add_edge(b, a);
    assert_eq!(graph.topological_sort(), None);
}
