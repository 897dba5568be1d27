use converge::adjacency::AdjacencyMap;
use converge::dominators::DominatorFinder;
use converge::graph::FlowGraph;
use converge::graph::SimpleDirectedGraph;
use converge::immediate;
use converge::node::Node;

fn chain() -> SimpleDirectedGraph<u64> {
    SimpleDirectedGraph::from_edge_list(vec![(1, 2), (2, 3), (3, 4)])
}

fn nodes(graph: &SimpleDirectedGraph<u64>) -> Vec<u64> {
    graph.nodes().into_iter().copied().collect()
}

fn edges(graph: &SimpleDirectedGraph<u64>) -> Vec<(u64, u64)> {
    graph.edges().into_iter().map(|(u, v)| (*u, *v)).collect()
}

fn postorder(graph: &SimpleDirectedGraph<u64>, start: u64) -> Vec<u64> {
    graph.get_postorder(&start).into_iter().copied().collect()
}

#[test]
fn an_adjacency_map_keeps_the_order_of_insertion() {
    let mut adj = AdjacencyMap::new();
    assert_eq!(adj.num_nodes(), 0);
    adj.add_edge(7u64, 9);
    adj.add_node(3);
    adj.add_edge(7, 8);
    adj.add_edge(7, 9);
    adj.add_node(7);
    assert_eq!(adj.num_nodes(), 2);
    assert_eq!(adj.nodes(), vec![&7, &3]);
    assert_eq!(adj.children(&7), Some(vec![&9, &8]));
    assert_eq!(adj.children(&3), Some(vec![]));
    assert_eq!(adj.children(&9), None);
    assert!(adj.contains_node(&3));
    assert!(!adj.contains_node(&8));
    assert_eq!(adj.edges(), vec![(&7, &9), (&7, &8)]);

    // A clone is a map of its own.
    let copy = adj.clone();
    adj.add_edge(3, 7);
    assert_eq!(copy.children(&3), Some(vec![]));
    assert_eq!(adj.children(&3), Some(vec![&7]));
    assert_eq!(copy.nodes(), vec![&7, &3]);
}

#[test]
fn a_graph_knows_its_nodes_and_edges() {
    let graph = SimpleDirectedGraph::from_edge_list(vec![(1, 2), (1, 3), (4, 1)]);
    assert_eq!(graph.num_nodes(), 4);
    assert_eq!(nodes(&graph), vec![1, 4, 2, 3]);
    assert_eq!(edges(&graph), vec![(1, 2), (1, 3), (4, 1)]);
}

#[test]
fn a_reversed_graph_has_the_edges_turned_round() {
    let graph = SimpleDirectedGraph::from_edge_list(vec![(1, 2), (1, 3), (2, 3)]);
    let reverse = graph.reverse();
    assert_eq!(nodes(&reverse), vec![1, 2, 3]);
    assert_eq!(edges(&reverse), vec![(2, 1), (3, 1), (3, 2)]);
    assert!(reverse != graph);
    assert!(reverse.reverse() == graph);
}

#[test]
fn equal_graphs_may_differ_in_order() {
    let a = SimpleDirectedGraph::from_edge_list(vec![(1u64, 2u64), (3, 2)]);
    let b = SimpleDirectedGraph::from_edge_list(vec![(3, 2), (1, 2)]);
    assert!(nodes(&a) != nodes(&b));
    assert!(a == b);
    let c = SimpleDirectedGraph::from_edge_list(vec![(3, 2), (2, 1)]);
    assert!(a != c);
    assert!(FlowGraph::new(a.clone(), 1) == FlowGraph::new(b.clone(), 1));
    assert!(FlowGraph::new(a.clone(), 1) != FlowGraph::new(b, 3));
    let flow_graph = FlowGraph::new(a, 1);
    assert!(flow_graph.clone() == flow_graph);
}

#[test]
fn a_postorder_lists_children_before_parents() {
    let diamond = SimpleDirectedGraph::from_edge_list(vec![(1, 2), (1, 3), (2, 4), (3, 4)]);
    assert_eq!(postorder(&diamond, 1), vec![4, 2, 3, 1]);
    assert_eq!(postorder(&diamond, 3), vec![4, 3]);
    let cycle = SimpleDirectedGraph::from_edge_list(vec![(1, 2), (2, 3), (3, 1)]);
    assert_eq!(postorder(&cycle, 1), vec![3, 2, 1]);
    assert_eq!(postorder(&cycle, 2), vec![1, 3, 2]);
    // A node that is not in the graph leads to itself only.
    assert_eq!(postorder(&cycle, 9), vec![9]);
}

#[test]
fn the_start_node_must_be_in_the_graph() {
    let invalid = "Invalid flow graph: some nodes are unreachable from the start node";
    let graph = SimpleDirectedGraph::from_edge_list(vec![(1u64, 1u64)]);
    let flow_graph = FlowGraph::new(graph, 2);
    assert_eq!(
        DominatorFinder::calculate(&flow_graph).err(),
        Some(invalid.to_string())
    );
    let empty = FlowGraph::new(SimpleDirectedGraph::from_edge_list(vec![]), 2u64);
    assert_eq!(
        DominatorFinder::calculate(&empty).err(),
        Some(invalid.to_string())
    );
}

#[test]
fn immediate_dominators_come_in_postorder() {
    let flow_graph = FlowGraph::new(chain(), 1);
    let finder = DominatorFinder::calculate(&flow_graph).unwrap();
    assert_eq!(
        finder.get_immediate_dominators(),
        vec![(4, 3), (3, 2), (2, 1), (1, 1)]
    );
    assert!(finder.flow_graph.start_node == 1);
}

#[test]
fn targets_must_be_in_the_graph() {
    let invalid = "Target set is empty or has nodes not present in the flow graph";
    let flow_graph = FlowGraph::new(chain(), 1);
    let finder = DominatorFinder::calculate(&flow_graph).unwrap();
    assert_eq!(
        finder.find_closest_common_dominator(vec![2, 9]),
        Err(invalid.to_string())
    );
}

#[test]
fn dominators_of_one_of_all_and_of_more_nodes() {
    let graph = SimpleDirectedGraph::from_edge_list(vec![
        (1u64, 2u64),
        (2, 3),
        (2, 4),
        (3, 5),
        (4, 5),
        (5, 6),
    ]);
    let flow_graph = FlowGraph::new(graph, 1);
    let finder = DominatorFinder::calculate(&flow_graph).unwrap();
    let closest = |targets: Vec<u64>| finder.find_closest_common_dominator(targets).unwrap();
    for node in 1..=6 {
        assert_eq!(closest(vec![node]), node);
        assert_eq!(closest(vec![node, 1]), 1);
    }
    // Neither the order nor repetitions matter.
    assert_eq!(closest(vec![3, 4]), 2);
    assert_eq!(closest(vec![4, 3, 4]), 2);
    // More nodes move the dominator towards the start.
    assert_eq!(closest(vec![5, 6]), 5);
    assert_eq!(closest(vec![5, 6, 3]), 2);
    assert_eq!(closest(vec![5, 6, 3, 1]), 1);
}

#[test]
fn a_lowest_common_ancestor_is_found_by_parent_links() {
    // 4 is the root; 3 and 2 are its children; 1 and 0 are children of 3.
    let parents = vec![Some(3), Some(3), Some(4), Some(4), Some(4)];
    assert_eq!(immediate::intersect(0, 1, &parents), 3);
    assert_eq!(immediate::intersect(0, 2, &parents), 4);
    assert_eq!(immediate::find_lowest_common_ancestor(&vec![0, 1, 3], &parents), 3);
    assert_eq!(immediate::find_lowest_common_ancestor(&vec![2, 1], &parents), 4);
}

#[test]
fn the_part_that_a_node_leads_to() {
    let graph = SimpleDirectedGraph::from_edge_list(vec![(1, 2), (2, 3), (4, 3), (3, 2), (5, 1)]);
    let part = graph.reachable_from(&2);
    assert_eq!(nodes(&part), vec![2, 3]);
    assert_eq!(edges(&part), vec![(2, 3), (3, 2)]);
    assert_eq!(nodes(&graph.reachable_from(&5)), vec![1, 2, 3, 5]);
    assert_eq!(nodes(&graph.reachable_from(&9)), Vec::<u64>::new());
}

#[test]
fn the_dominator_value_is_the_closest_choke_point_of_values() {
    // 1 -> 2 -> 3 and 2 -> 4, with the values a, b, c, b.
    let graph = SimpleDirectedGraph::from_edge_list(vec![(1u64, 2u64), (2, 3), (2, 4)]);
    assert_eq!(nodes(&graph), vec![1, 2, 3, 4]);
    let flow_graph = FlowGraph::new(graph, 1);
    let values = vec!["a", "b", "c", "b"];
    assert_eq!(flow_graph.find_dominator_value(&vec![3, 4], &values), Some("b"));
    assert_eq!(flow_graph.find_dominator_value(&vec![3], &values), Some("c"));
    assert_eq!(flow_graph.find_dominator_value(&vec![3, 1], &values), Some("a"));
    // A value that comes back is not passed twice.
    let values = vec!["a", "b", "a", "b"];
    assert_eq!(flow_graph.find_dominator_value(&vec![3, 4], &values), Some("a"));
}

#[test]
fn there_may_be_no_dominator_value() {
    let values = vec![10u64, 20, 30, 40];
    let flow_graph = FlowGraph::new(chain(), 1);
    assert_eq!(flow_graph.find_dominator_value(&vec![], &values), None);
    assert_eq!(flow_graph.find_dominator_value(&vec![4, 9], &values), None);
    assert_eq!(flow_graph.find_dominator_value(&vec![4], &values), Some(40));
    let foreign = FlowGraph::new(chain(), 9);
    assert_eq!(foreign.find_dominator_value(&vec![4], &values), None);
    let late = FlowGraph::new(chain(), 2);
    assert_eq!(late.find_dominator_value(&vec![4], &values), None);
    // The values may lead everywhere though the nodes do not.
    assert_eq!(late.find_dominator_value(&vec![4], &vec![20u64, 20, 30, 40]), Some(40));
}

#[test]
fn nodes_are_compared_and_copied_by_value() {
    assert!(3i32.same(&3) && !3i32.same(&4) && 3i32.duplicate() == 3);
    assert!(3u64.same(&3) && !3u64.same(&4) && 3u64.duplicate() == 3);
    assert!(3usize.same(&3) && !3usize.same(&4) && 3usize.duplicate() == 3);
    assert!("a".same(&"a") && !"a".same(&"b") && "a".duplicate() == "a");
    let text = "a".to_string();
    assert!(text.same(&"a".to_string()) && !text.same(&"b".to_string()));
    assert_eq!(text.duplicate(), "a");
}
