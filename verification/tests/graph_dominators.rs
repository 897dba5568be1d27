use std::collections::HashMap;

use converge::adjacency::AdjacencyMap;
use converge::dominators::DominatorFinder;
use converge::graph::FlowGraph;
use converge::graph::SimpleDirectedGraph;

/// The nodes without the references.
fn copied<'a>(nodes: Vec<&&'a str>) -> Vec<&'a str> {
    nodes.into_iter().copied().collect()
}

/// The edges without the references.
fn copied_pairs<'a>(edges: Vec<(&&'a str, &&'a str)>) -> Vec<(&'a str, &'a str)> {
    edges.into_iter().map(|(&u, &v)| (u, v)).collect()
}

/// Each node with its children, in order.
fn entries<'a>(adj: &AdjacencyMap<&'a str>) -> Vec<(&'a str, Vec<&'a str>)> {
    adj.nodes()
        .into_iter()
        .map(|node| (*node, copied(adj.children(node).unwrap())))
        .collect()
}

/// The immediate dominators by node.
fn immediate_dominators(df: &DominatorFinder<i32>) -> HashMap<i32, i32> {
    df.get_immediate_dominators().into_iter().collect()
}

#[test]
fn test_closest_common_dominator_split() -> Result<(), String> {
    //   /-> B \
    // A        -> D
    //   \-> C /
    let flow_graph = FlowGraph::new(
        SimpleDirectedGraph::from_edge_list(vec![("A", "B"), ("A", "C"), ("B", "D"), ("C", "D")]),
        "A",
    );
    let df = DominatorFinder::calculate(&flow_graph)?;
    assert_eq!(df.find_closest_common_dominator(vec!["A"])?, "A");
    assert_eq!(df.find_closest_common_dominator(vec!["B"])?, "B");
    assert_eq!(df.find_closest_common_dominator(vec!["C"])?, "C");
    assert_eq!(df.find_closest_common_dominator(vec!["D"])?, "D");
    assert_eq!(df.find_closest_common_dominator(vec!["B", "C"])?, "A");
    assert_eq!(df.find_closest_common_dominator(vec!["B", "D"])?, "A");
    assert_eq!(df.find_closest_common_dominator(vec!["B", "C", "D"])?, "A");
    Ok(())
}

#[test]
fn test_closest_common_dominator_linear_chain() -> Result<(), String> {
    // A -> B -> C -> D
    let flow_graph = FlowGraph::new(
        SimpleDirectedGraph::from_edge_list(vec![("A", "B"), ("B", "C"), ("C", "D")]),
        "A",
    );
    let df = DominatorFinder::calculate(&flow_graph)?;
    assert_eq!(df.find_closest_common_dominator(vec!["A"])?, "A");
    assert_eq!(df.find_closest_common_dominator(vec!["B"])?, "B");
    assert_eq!(df.find_closest_common_dominator(vec!["C"])?, "C");
    assert_eq!(df.find_closest_common_dominator(vec!["D"])?, "D");
    assert_eq!(df.find_closest_common_dominator(vec!["A", "B"])?, "A");
    assert_eq!(df.find_closest_common_dominator(vec!["A", "C"])?, "A");
    assert_eq!(df.find_closest_common_dominator(vec!["A", "D"])?, "A");
    assert_eq!(df.find_closest_common_dominator(vec!["B", "D"])?, "B");
    assert_eq!(df.find_closest_common_dominator(vec!["C", "D"])?, "C");
    assert_eq!(df.find_closest_common_dominator(vec!["A", "B", "C", "D"])?, "A");
    Ok(())
}

#[test]
fn test_closest_common_dominator_classic_diamond() -> Result<(), String> {
    //      /-> B -\
    //    A          -> D -> E
    //      \-> C -/
    let flow_graph = FlowGraph::new(
        SimpleDirectedGraph::from_edge_list(vec![
            ("A", "B"),
            ("A", "C"),
            ("B", "D"),
            ("C", "D"),
            ("D", "E"),
        ]),
        "A",
    );
    let df = DominatorFinder::calculate(&flow_graph)?;
    assert_eq!(df.find_closest_common_dominator(vec!["B", "C"])?, "A");
    assert_eq!(df.find_closest_common_dominator(vec!["B", "E"])?, "A");
    assert_eq!(df.find_closest_common_dominator(vec!["D"])?, "D");
    assert_eq!(df.find_closest_common_dominator(vec!["D", "E"])?, "D");
    assert_eq!(df.find_closest_common_dominator(vec!["A", "D"])?, "A");
    Ok(())
}

#[test]
fn test_closest_common_dominator_single_node() -> Result<(), String> {
    // A
    let flow_graph = FlowGraph::new(SimpleDirectedGraph::from_edge_list(vec![("A", "A")]), "A");
    let df = DominatorFinder::calculate(&flow_graph)?;
    assert_eq!(df.find_closest_common_dominator(vec!["A"])?, "A");
    Ok(())
}

#[test]
fn test_invalid_flowgraph() {
    //       /-> E
    // A -> B
    //       \-> F
    //           ^
    //           |
    // C --> D --/
    let flow_graph = FlowGraph::new(
        SimpleDirectedGraph::from_edge_list(vec![
            ("A", "B"),
            ("B", "E"),
            ("B", "F"),
            ("C", "D"),
            ("D", "F"),
        ]),
        "A",
    );
    assert_eq!(
        DominatorFinder::calculate(&flow_graph).err(),
        Some("Invalid flow graph: some nodes are unreachable from the start node".to_string())
    );
}

#[test]
fn test_closest_common_dominator_simple_cycle_with_entry() -> Result<(), String> {
    //
    // A -> B -> C -> D
    //      ^         |
    //      |         |
    //      \--------/
    let flow_graph = FlowGraph::new(
        SimpleDirectedGraph::from_edge_list(vec![("A", "B"), ("B", "C"), ("C", "D"), ("D", "B")]),
        "A",
    );
    let df = DominatorFinder::calculate(&flow_graph)?;
    assert_eq!(df.find_closest_common_dominator(vec!["A", "B"])?, "A");
    assert_eq!(df.find_closest_common_dominator(vec!["A", "C"])?, "A");
    assert_eq!(df.find_closest_common_dominator(vec!["A", "B", "C"])?, "A");
    assert_eq!(df.find_closest_common_dominator(vec!["B", "C"])?, "B");
    assert_eq!(df.find_closest_common_dominator(vec!["B", "C", "D"])?, "B");
    assert_eq!(df.find_closest_common_dominator(vec!["A"])?, "A");
    assert_eq!(df.find_closest_common_dominator(vec!["B"])?, "B");
    assert_eq!(df.find_closest_common_dominator(vec!["C"])?, "C");
    assert_eq!(df.find_closest_common_dominator(vec!["D"])?, "D");
    Ok(())
}

#[test]
fn test_closest_common_dominator_figure_eight_with_bridge() -> Result<(), String> {
    //
    //  A -> B -> C -> D -> E -> F -> G
    //       ^         |    ^         |
    //       |         |    |         |
    //        \_______/      \_______/
    let flow_graph = FlowGraph::new(
        SimpleDirectedGraph::from_edge_list(vec![
            ("A", "B"), // entry
            ("B", "C"),
            ("C", "D"),
            ("D", "B"), // Loop 1
            ("D", "E"), // Bridge
            ("E", "F"),
            ("F", "G"),
            ("G", "E"), // Loop 2
        ]),
        "A",
    );
    let df = DominatorFinder::calculate(&flow_graph)?;
    assert_eq!(df.find_closest_common_dominator(vec!["B", "C"])?, "B");
    assert_eq!(df.find_closest_common_dominator(vec!["B", "D"])?, "B");
    assert_eq!(df.find_closest_common_dominator(vec!["B", "E"])?, "B");
    assert_eq!(df.find_closest_common_dominator(vec!["C", "E"])?, "C");
    assert_eq!(df.find_closest_common_dominator(vec!["C", "F"])?, "C");
    assert_eq!(df.find_closest_common_dominator(vec!["D", "E"])?, "D");
    assert_eq!(df.find_closest_common_dominator(vec!["D", "F"])?, "D");
    assert_eq!(df.find_closest_common_dominator(vec!["E", "G"])?, "E");
    assert_eq!(df.find_closest_common_dominator(vec!["F", "G"])?, "F");
    Ok(())
}

#[test]
fn test_closest_common_dominator_figure_eight() -> Result<(), String> {
    //
    //  A -> B -> C --> D   -> E -> F
    //       ^         | ^          |
    //       |         | |          |
    //        \_______/  \_________/
    let flow_graph = FlowGraph::new(
        SimpleDirectedGraph::from_edge_list(vec![
            ("A", "B"), // entry
            ("B", "C"),
            ("C", "D"),
            ("D", "B"), // Loop 1
            ("D", "E"),
            ("E", "F"),
            ("F", "D"), // Loop 2
        ]),
        "A",
    );
    let df = DominatorFinder::calculate(&flow_graph)?;
    assert_eq!(df.find_closest_common_dominator(vec!["B", "C"])?, "B");
    assert_eq!(df.find_closest_common_dominator(vec!["B", "D"])?, "B");
    assert_eq!(df.find_closest_common_dominator(vec!["B", "E"])?, "B");
    assert_eq!(df.find_closest_common_dominator(vec!["C", "D"])?, "C");
    assert_eq!(df.find_closest_common_dominator(vec!["C", "E"])?, "C");
    assert_eq!(df.find_closest_common_dominator(vec!["C", "F"])?, "C");
    assert_eq!(df.find_closest_common_dominator(vec!["D", "E"])?, "D");
    assert_eq!(df.find_closest_common_dominator(vec!["D", "F"])?, "D");
    assert_eq!(df.find_closest_common_dominator(vec!["E", "F"])?, "E");
    Ok(())
}

#[test]
fn test_closest_common_dominator_entry_cycle_dominance() -> Result<(), String> {
    // A -> B -> C
    //      ^    |
    //      |----/
    let flow_graph = FlowGraph::new(
        SimpleDirectedGraph::from_edge_list(vec![("A", "B"), ("B", "C"), ("C", "B")]),
        "A",
    );
    let df = DominatorFinder::calculate(&flow_graph)?;
    assert_eq!(df.find_closest_common_dominator(vec!["A", "B"])?, "A");
    assert_eq!(df.find_closest_common_dominator(vec!["A", "C"])?, "A");
    assert_eq!(df.find_closest_common_dominator(vec!["B", "C"])?, "B");
    assert_eq!(df.find_closest_common_dominator(vec!["A", "B", "C"])?, "A");
    Ok(())
}

#[test]
fn test_closest_common_dominator_nested_loops() -> Result<(), String> {
    //           /---> E
    //           |     |
    //           |     |
    // A -> B -> C <--/
    //      ^    |
    //      |    V
    //      \----D
    let flow_graph = FlowGraph::new(
        SimpleDirectedGraph::from_edge_list(vec![
            ("A", "B"),
            ("B", "C"),
            ("C", "D"),
            ("C", "E"),
            ("E", "C"),
            ("D", "B"),
        ]),
        "A",
    );
    let df = DominatorFinder::calculate(&flow_graph)?;
    assert_eq!(df.find_closest_common_dominator(vec!["A", "B"])?, "A");
    assert_eq!(df.find_closest_common_dominator(vec!["A", "C"])?, "A");
    assert_eq!(df.find_closest_common_dominator(vec!["B", "C"])?, "B");
    assert_eq!(df.find_closest_common_dominator(vec!["B", "D"])?, "B");
    assert_eq!(df.find_closest_common_dominator(vec!["B", "E"])?, "B");
    assert_eq!(df.find_closest_common_dominator(vec!["C", "D"])?, "C");
    assert_eq!(df.find_closest_common_dominator(vec!["C", "E"])?, "C");
    assert_eq!(df.find_closest_common_dominator(vec!["D", "E"])?, "C");
    assert_eq!(df.find_closest_common_dominator(vec!["B", "C", "D"])?, "B");
    assert_eq!(df.find_closest_common_dominator(vec!["B", "C", "E"])?, "B");
    assert_eq!(df.find_closest_common_dominator(vec!["B", "D", "E"])?, "B");
    assert_eq!(df.find_closest_common_dominator(vec!["C", "D", "E"])?, "C");
    assert_eq!(df.find_closest_common_dominator(vec!["B", "C", "D", "E"])?, "B");
    Ok(())
}

#[test]
fn test_irreducible_graph_cooper_harvey_kennedy_fig2() -> Result<(), String> {
    //        5
    //     /    \
    //    |      |
    //    V      V
    //    4      3
    //    |      |
    //    V      V
    //    1 <==> 2
    let graph =
        SimpleDirectedGraph::from_edge_list(vec![(1, 2), (2, 1), (3, 2), (4, 1), (5, 4), (5, 3)]);
    let flow_graph = FlowGraph::new(graph, 5);
    let df = DominatorFinder::calculate(&flow_graph)?;
    assert_eq!(
        immediate_dominators(&df),
        HashMap::from([(1, 5), (2, 5), (3, 5), (4, 5), (5, 5),])
    );
    Ok(())
}

#[test]
fn test_irreducible_graph_cooper_harvey_kennedy_fig3() -> Result<(), String> {
    //     6
    //   /   \
    //  |     |
    //  v     v
    //  5     4 --
    //  |     |    \
    //  v     v     v
    //  1 <=> 2 <=> 3
    let graph = SimpleDirectedGraph::from_edge_list(vec![
        (1, 2),
        (2, 1),
        (2, 3),
        (3, 2),
        (5, 1),
        (4, 2),
        (4, 3),
        (6, 5),
        (6, 4),
    ]);
    let flow_graph = FlowGraph::new(graph, 6);
    let df = DominatorFinder::calculate(&flow_graph)?;
    assert_eq!(
        immediate_dominators(&df),
        HashMap::from([(1, 6), (2, 6), (3, 6), (4, 6), (5, 6), (6, 6),])
    );
    assert_eq!(df.find_closest_common_dominator(vec![2, 3])?, 6);
    Ok(())
}

#[test]
fn test_closest_common_dominator_tree() -> Result<(), String> {
    // A -> B -> C
    // \     \-> D
    //  \------> E
    let flow_graph = FlowGraph::new(
        SimpleDirectedGraph::from_edge_list(vec![("A", "B"), ("B", "C"), ("B", "D"), ("A", "E")]),
        "A",
    );
    let df = DominatorFinder::calculate(&flow_graph)?;
    assert_eq!(df.find_closest_common_dominator(vec!["B", "C"])?, "B");
    assert_eq!(df.find_closest_common_dominator(vec!["B", "E"])?, "A");
    assert_eq!(df.find_closest_common_dominator(vec!["C", "D"])?, "B");
    assert_eq!(df.find_closest_common_dominator(vec!["C", "E"])?, "A");
    assert_eq!(df.find_closest_common_dominator(vec!["B", "C", "D"])?, "B");
    assert_eq!(df.find_closest_common_dominator(vec!["C", "D", "E"])?, "A");
    Ok(())
}

#[test]
fn test_closest_common_dominator_bypassing_path() -> Result<(), String> {
    // A -> B -> C -> D
    // |              ^
    // v              |
    // E -------------/
    let flow_graph = FlowGraph::new(
        SimpleDirectedGraph::from_edge_list(vec![
            ("A", "B"),
            ("B", "C"),
            ("C", "D"),
            ("A", "E"),
            ("E", "D"),
        ]),
        "A",
    );
    let df = DominatorFinder::calculate(&flow_graph)?;
    assert_eq!(df.find_closest_common_dominator(vec!["B", "C"])?, "B");
    assert_eq!(df.find_closest_common_dominator(vec!["B", "D"])?, "A");
    assert_eq!(df.find_closest_common_dominator(vec!["B", "E"])?, "A");
    assert_eq!(df.find_closest_common_dominator(vec!["C", "D"])?, "A");
    assert_eq!(df.find_closest_common_dominator(vec!["C", "E"])?, "A");
    assert_eq!(df.find_closest_common_dominator(vec!["D", "E"])?, "A");
    assert_eq!(df.find_closest_common_dominator(vec!["B", "C", "D"])?, "A");
    assert_eq!(df.find_closest_common_dominator(vec!["C", "D", "E"])?, "A");
    Ok(())
}

#[test]
fn test_closest_common_dominator_self_loop_handling() -> Result<(), String> {
    // A->A (Self loop), A->B
    let flow_graph = FlowGraph::new(
        SimpleDirectedGraph::from_edge_list(vec![("A", "A"), ("A", "B")]),
        "A",
    );
    let df = DominatorFinder::calculate(&flow_graph)?;
    assert_eq!(df.find_closest_common_dominator(vec!["A"])?, "A");
    Ok(())
}

#[test]
fn test_closest_common_dominator_multi_edge() -> Result<(), String> {
    // Shape: A->B (x2), B->C.
    let flow_graph = FlowGraph::new(
        SimpleDirectedGraph::from_edge_list(vec![
            ("A", "B"),
            ("A", "B"), // Duplicate edge
            ("B", "C"),
        ]),
        "A",
    );
    let df = DominatorFinder::calculate(&flow_graph)?;
    assert_eq!(df.find_closest_common_dominator(vec!["A"])?, "A");
    assert_eq!(df.find_closest_common_dominator(vec!["B", "C"])?, "B");
    Ok(())
}

#[test]
fn test_closest_common_dominator_invalid_target_set() -> Result<(), String> {
    // A -> B
    let flow_graph = FlowGraph::new(SimpleDirectedGraph::from_edge_list(vec![("A", "B")]), "A");
    let df = DominatorFinder::calculate(&flow_graph)?;
    assert_eq!(
        df.find_closest_common_dominator(vec![]),
        Err("Target set is empty or has nodes not present in the flow graph".to_string())
    );
    Ok(())
}

#[test]
fn test_closest_common_dominator_repeated_node() -> Result<(), String> {
    // A -> B
    let flow_graph = FlowGraph::new(SimpleDirectedGraph::from_edge_list(vec![("A", "B")]), "A");
    let df = DominatorFinder::calculate(&flow_graph)?;
    assert_eq!(df.find_closest_common_dominator(vec!["A", "B", "A", "B"])?, "A");
    Ok(())
}

#[test]
fn test_simple_directed_graph_new() {
    let mut adj = AdjacencyMap::new();
    adj.add_edge("A", "B");
    adj.add_node("B");
    let graph = SimpleDirectedGraph::new(adj.clone());
    assert_eq!(entries(graph.adjacency()), entries(&adj));
    assert_eq!(entries(graph.adjacency()), vec![("A", vec!["B"]), ("B", vec![])]);

    // adj does not have entries for "B" or "D".
    let mut adj = AdjacencyMap::new();
    adj.add_edge("A", "B");
    adj.add_edge("A", "C");
    adj.add_edge("A", "D");
    adj.add_node("C");
    assert_eq!(entries(&adj), vec![("A", vec!["B", "C", "D"]), ("C", vec![])]);
    let graph = SimpleDirectedGraph::new(adj);
    assert_eq!(
        entries(graph.adjacency()),
        vec![("A", vec!["B", "C", "D"]), ("C", vec![]), ("B", vec![]), ("D", vec![])]
    );
}

#[test]
fn test_simple_directed_graph_nodes() {
    let graph = SimpleDirectedGraph::from_edge_list(vec![("A", "B"), ("B", "C")]);
    let nodes = copied(graph.nodes());
    assert_eq!(nodes, ["A", "B", "C"]);

    let graph = SimpleDirectedGraph::<String>::from_edge_list(vec![]);
    let nodes = graph.nodes();
    assert!(nodes.is_empty());
}

#[test]
fn test_simple_directed_graph_edges() {
    let graph = SimpleDirectedGraph::from_edge_list(vec![("A", "B"), ("B", "C"), ("A", "C")]);
    let edges = copied_pairs(graph.edges());
    assert_eq!(edges, [("A", "B"), ("A", "C"), ("B", "C")]);

    let graph = SimpleDirectedGraph::<String>::from_edge_list(vec![]);
    let edges = graph.edges();
    assert!(edges.is_empty());
}

#[test]
fn test_simple_directed_graph_adjacent_nodes() {
    let graph = SimpleDirectedGraph::from_edge_list(vec![("A", "B"), ("A", "C"), ("B", "D")]);
    assert_eq!(
        copied(graph.adjacent_nodes(&"A").unwrap()),
        ["B", "C"]
    );
    assert_eq!(
        copied(graph.adjacent_nodes(&"B").unwrap()),
        ["D"]
    );
    assert!(graph.adjacent_nodes(&"C").unwrap().is_empty());
    assert!(graph.adjacent_nodes(&"Z").is_none());
}

#[test]
fn test_simple_directed_graph_contains_node() {
    let graph = SimpleDirectedGraph::from_edge_list(vec![("A", "B"), ("B", "C")]);
    assert!(graph.contains_node(&"A"));
    assert!(graph.contains_node(&"B"));
    assert!(graph.contains_node(&"C"));
    assert!(!graph.contains_node(&"D"));
}

#[test]
fn test_simple_directed_graph_from_edge_list() {
    let graph =
        SimpleDirectedGraph::from_edge_list(vec![("A", "B"), ("A", "C"), ("B", "C"), ("A", "B")]);
    let nodes = copied(graph.nodes());
    assert_eq!(nodes, ["A", "B", "C"]);
    let edges = copied_pairs(graph.edges());
    assert_eq!(edges, [("A", "B"), ("A", "C"), ("B", "C")]);

    let graph = SimpleDirectedGraph::from_edge_list(vec![("B", "C"), ("A", "B")]);
    let nodes = copied(graph.nodes());
    assert_eq!(nodes, ["B", "A", "C"]);
    let edges = copied_pairs(graph.edges());
    assert_eq!(edges, [("B", "C"), ("A", "B")]);
}

#[test]
fn test_flow_graph_new() {
    let graph = SimpleDirectedGraph::from_edge_list(vec![("A", "B")]);
    let flow_graph = FlowGraph::new(graph.clone(), "A");
    assert_eq!(flow_graph.graph, graph);
    assert_eq!(flow_graph.start_node, "A");
    let flow_graph = FlowGraph::new(graph.clone(), "C");
    assert_eq!(flow_graph.graph, graph);
    assert_eq!(flow_graph.start_node, "C");
}
