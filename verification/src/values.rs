//! How values change along a flow graph.
use vstd::prelude::*;

use crate::adjacency::AdjacencyMap;
use crate::dominators;
use crate::dominators::DominatorFinder;
use crate::graph::FlowGraph;
use crate::graph::SimpleDirectedGraph;
use crate::model;
use crate::node;
use crate::node::Node;
use crate::paths;

verus! {

/// The value of `node`, where `values` holds the value of each node in order.
pub open spec fn value_of<K, V>(graph: Seq<(K, Seq<K>)>, values: Seq<V>, node: K) -> V {
    values[model::position(graph, node)]
}

/// The edges of `graph`, with each node replaced by its value.
pub open spec fn value_edges<K, V>(graph: Seq<(K, Seq<K>)>, values: Seq<V>) -> Seq<(V, V)> {
    model::edges(graph).map_values(
        |edge: (K, K)|
            (value_of(graph, values, edge.0), value_of(graph, values, edge.1)),
    )
}

/// The value transition graph: its nodes are the values, and an edge between nodes of `graph`
/// makes an edge between their values.
pub open spec fn value_graph<K, V>(graph: Seq<(K, Seq<K>)>, values: Seq<V>) -> Seq<(V, Seq<V>)> {
    model::completed(
        model::with_edges(
            model::with_nodes(Seq::empty(), values),
            value_edges(graph, values),
        ),
    )
}

/// The values of some nodes.
pub open spec fn values_of<K, V>(graph: Seq<(K, Seq<K>)>, values: Seq<V>, nodes: Seq<K>) -> Seq<
    V,
> {
    nodes.map_values(|node: K| value_of(graph, values, node))
}

/// `value` is the closest common dominator, in the value transition graph, of the values of
/// `targets`.
pub open spec fn is_dominator_value<K, V>(
    graph: Seq<(K, Seq<K>)>,
    start: K,
    values: Seq<V>,
    targets: Seq<K>,
    value: V,
) -> bool {
    paths::is_closest_common_dominator(
        model::edge_set(value_graph(graph, values)),
        value_of(graph, values, start),
        value,
        values_of(graph, values, targets),
    )
}

/// The nodes and edges of the value transition graph.
pub proof fn lemma_value_graph<K, V>(graph: Seq<(K, Seq<K>)>, values: Seq<V>)
    requires
        model::is_simple(graph),
        model::is_canonical(graph),
        values.len() == graph.len(),
    ensures
        model::is_simple(value_graph(graph, values)),
        model::is_canonical(value_graph(graph, values)),
        forall|v: V| #[trigger]
            model::has_node(value_graph(graph, values), v) <==> values.contains(v),
        forall|v: V, w: V| #[trigger]
            model::has_edge(value_graph(graph, values), v, w) <==> exists|x: K, y: K| #[trigger]
                model::has_edge(graph, x, y) && value_of(graph, values, x) == v && value_of(
                    graph,
                    values,
                    y,
                ) == w,
{
    let empty = Seq::<(V, Seq<V>)>::empty();
    let entered = model::with_nodes(empty, values);
    let added = value_edges(graph, values);
    let joined = model::with_edges(entered, added);
    let result = value_graph(graph, values);
    let listed = model::edges(graph);
    model::lemma_with_nodes(empty, values);
    model::lemma_with_edges(entered, added);
    model::lemma_completed(joined);
    model::lemma_edges(graph);
    // Every end of an added edge is a value.
    assert forall|i: int| 0 <= i < added.len() implies {
        &&& values.contains((#[trigger] added[i]).0)
        &&& values.contains(added[i].1)
    } by {
        let edge = listed[i];
        assert(listed.contains((edge.0, edge.1)));
        model::lemma_edge_ends(graph, edge.0, edge.1);
        assert(values[model::position(graph, edge.0)] == added[i].0);
        assert(values[model::position(graph, edge.1)] == added[i].1);
    }
    assert forall|v: V, w: V| #[trigger]
        model::has_edge(result, v, w) <==> added.contains((v, w)) by {
        assert(model::children(result, v) == model::children(joined, v));
        assert(model::has_edge(joined, v, w) <==> model::has_edge(entered, v, w)
            || added.contains((v, w)));
        assert(model::children(entered, v) == model::children(empty, v));
    }
    assert forall|v: V| #[trigger] model::has_node(result, v) <==> values.contains(v) by {
        assert(model::has_node(joined, v) <==> model::has_node(entered, v) || exists|i: int|
            0 <= i < added.len() && (#[trigger] added[i]).0 == v);
        assert(model::has_node(entered, v) <==> model::has_node(empty, v) || values.contains(v));
        if exists|u: V| #[trigger] model::has_edge(joined, u, v) {
            let u = choose|u: V| #[trigger] model::has_edge(joined, u, v);
            assert(model::children(entered, u) == model::children(empty, u));
            assert(added.contains((u, v)));
            let i = choose|i: int| 0 <= i < added.len() && added[i] == (u, v);
            assert(added[i].1 == v);
        }
    }
    assert forall|v: V, w: V| #[trigger]
        model::has_edge(result, v, w) <==> exists|x: K, y: K| #[trigger]
            model::has_edge(graph, x, y) && value_of(graph, values, x) == v && value_of(
                graph,
                values,
                y,
            ) == w by {
        if added.contains((v, w)) {
            let i = choose|i: int| 0 <= i < added.len() && added[i] == (v, w);
            let edge = listed[i];
            assert(listed.contains((edge.0, edge.1)));
            assert(model::has_edge(graph, edge.0, edge.1));
        }
        if exists|x: K, y: K| #[trigger]
            model::has_edge(graph, x, y) && value_of(graph, values, x) == v && value_of(
                graph,
                values,
                y,
            ) == w {
            let (x, y) = choose|x: K, y: K| #[trigger]
                model::has_edge(graph, x, y) && value_of(graph, values, x) == v && value_of(
                    graph,
                    values,
                    y,
                ) == w;
            assert(listed.contains((x, y)));
            let i = choose|i: int| 0 <= i < listed.len() && listed[i] == (x, y);
            assert(added[i] == (v, w));
        }
    }
}

/// The values along a path make a path.
pub proof fn lemma_path_of_values<K, V>(
    graph: Seq<(K, Seq<K>)>,
    values: Seq<V>,
    from: K,
    to: K,
    path: Seq<K>,
)
    requires
        model::is_simple(graph),
        model::is_canonical(graph),
        values.len() == graph.len(),
        paths::is_path_between(model::edge_set(graph), from, to, path),
    ensures
        paths::is_path_between(
            model::edge_set(value_graph(graph, values)),
            value_of(graph, values, from),
            value_of(graph, values, to),
            path.map_values(|node: K| value_of(graph, values, node)),
        ),
{
    lemma_value_graph(graph, values);
    let edges = model::edge_set(value_graph(graph, values));
    let shown = path.map_values(|node: K| value_of(graph, values, node));
    assert forall|i: int, j: int|
        #![trigger shown[i], shown[j]]
        0 <= i && j == i + 1 && j < shown.len() implies edges.contains((shown[i], shown[j])) by {
        assert(model::edge_set(graph).contains((path[i], path[j])));
        assert(model::has_edge(graph, path[i], path[j]));
        assert(model::has_edge(value_graph(graph, values), shown[i], shown[j]));
    }
}

/// Where the start node leads to every node, its value leads to every value. So values of nodes
/// always have a closest common dominator.
pub proof fn lemma_value_graph_valid<K, V>(graph: Seq<(K, Seq<K>)>, start: K, values: Seq<V>)
    requires
        model::is_simple(graph),
        model::is_canonical(graph),
        values.len() == graph.len(),
        dominators::is_valid_flow_graph(graph, start),
    ensures
        dominators::is_valid_flow_graph(
            value_graph(graph, values),
            value_of(graph, values, start),
        ),
{
    lemma_value_graph(graph, values);
    let transitions = value_graph(graph, values);
    let edges = model::edge_set(graph);
    assert(values[model::position(graph, start)] == value_of(graph, values, start));
    assert forall|v: V| #[trigger] model::has_node(transitions, v) implies paths::reaches(
        model::edge_set(transitions),
        value_of(graph, values, start),
        v,
    ) by {
        let i = choose|i: int| 0 <= i < values.len() && values[i] == v;
        let node = graph[i].0;
        model::lemma_position(graph, i);
        let path = choose|path: Seq<K>| paths::is_path_between(edges, start, node, path);
        lemma_path_of_values(graph, values, start, node, path);
    }
}

/// The dominator value of some nodes is a value.
pub proof fn lemma_dominator_value_occurs<K, V>(
    graph: Seq<(K, Seq<K>)>,
    start: K,
    values: Seq<V>,
    targets: Seq<K>,
    value: V,
)
    requires
        model::is_simple(graph),
        model::is_canonical(graph),
        values.len() == graph.len(),
        dominators::is_valid_flow_graph(
            value_graph(graph, values),
            value_of(graph, values, start),
        ),
        targets.len() > 0,
        model::has_node(graph, targets[0]),
        is_dominator_value(graph, start, values, targets, value),
    ensures
        values.contains(value),
{
    let transitions = value_graph(graph, values);
    let edges = model::edge_set(transitions);
    let from = value_of(graph, values, start);
    let target = values_of(graph, values, targets)[0];
    lemma_value_graph(graph, values);
    assert(target == value_of(graph, values, targets[0]));
    assert(values[model::position(graph, targets[0])] == target);
    assert(model::has_node(transitions, target));
    assert(paths::dominates(edges, from, value, target));
    paths::lemma_dominator_reached(edges, from, value, target);
    let path = choose|path: Seq<V>| paths::is_path_between(edges, from, value, path);
    dominators::lemma_reached_is_node(transitions, from, path);
}

/// The places of the nodes of a graph are those of its entries.
proof fn lemma_place<N: Node>(
    graph: Seq<(N::V, Seq<N::V>)>,
    nodes: Seq<&N>,
    node: N::V,
    place: Option<usize>,
)
    requires
        model::is_simple(graph),
        node::shown(nodes) == model::nodes(graph),
        match place {
            Some(i) => i < nodes.len() && nodes[i as int]@ == node,
            None => forall|i: int| 0 <= i < nodes.len() ==> (#[trigger] nodes[i])@ != node,
        },
    ensures
        place is Some <==> model::has_node(graph, node),
        place matches Some(i) ==> model::position(graph, node) == i,
        nodes.len() == graph.len(),
{
    let shown = node::shown(nodes);
    assert(shown.len() == nodes.len());
    assert(model::nodes(graph).len() == graph.len());
    match place {
        Some(i) => {
            assert(shown[i as int] == nodes[i as int]@);
            assert(model::nodes(graph)[i as int] == graph[i as int].0);
            model::lemma_position(graph, i as int);
        },
        None => {
            if model::has_node(graph, node) {
                let p = model::position(graph, node);
                assert(graph[p].0 == node);
                assert(model::nodes(graph)[p] == graph[p].0);
                assert(shown[p] == nodes[p]@);
            }
        },
    }
}

impl<N: Node> FlowGraph<N> {
    /// Finds the closest common dominator of the values of the given nodes in the value
    /// transition graph, where `values` holds the value of each node in the order of the graph.
    /// There is none if there are no given nodes, if some of them or the start node are not in
    /// the graph, or if the value of the start node does not lead to every value.
    pub fn find_dominator_value<T: Node>(
        &self,
        target_nodes: &Vec<N>,
        values: &Vec<T>,
    ) -> (dominator: Option<T>)
        requires
            values@.len() == self.graph@.len(),
        ensures
            dominator is Some <==> {
                &&& model::has_node(self.graph@, self.start_node@)
                &&& dominators::is_valid_flow_graph(
                    value_graph(self.graph@, node::shown(values@)),
                    value_of(
                        self.graph@,
                        node::shown(values@),
                        self.start_node@,
                    ),
                )
                &&& target_nodes@.len() > 0
                &&& forall|i: int|
                    0 <= i < target_nodes@.len() ==> model::has_node(
                        self.graph@,
                        #[trigger] target_nodes@[i]@,
                    )
            },
            dominator matches Some(value) ==> is_dominator_value(
                self.graph@,
                self.start_node@,
                node::shown(values@),
                node::shown(target_nodes@),
                value@,
            ),
    {
        let ghost graph = self.graph@;
        let ghost shown_values = node::shown(values@);
        let ghost targets = node::shown(target_nodes@);
        let ghost added = value_edges(graph, shown_values);
        let nodes = self.graph.nodes();
        proof {
            use_type_invariant(&self.graph);
            self.graph.lemma_canonical_form();
            model::lemma_edges(graph);
            lemma_value_graph(graph, shown_values);
        }
        let start = node::place_of(&nodes, &self.start_node);
        proof {
            lemma_place(graph, nodes@, self.start_node@, start);
        }
        let start: usize = match start {
            Some(start) => start,
            None => {
                return None;
            },
        };

        // Build the value transition graph.
        let mut adj: AdjacencyMap<T> = AdjacencyMap::new();
        let mut i: usize = 0;
        assert(shown_values.take(0) =~= Seq::<T::V>::empty());
        while i < values.len()
            invariant
                i <= values@.len(),
                shown_values == node::shown(values@),
                adj.wf(),
                adj@ == model::with_nodes(Seq::empty(), shown_values.take(i as int)),
            decreases values@.len() - i,
        {
            adj.add_node(values[i].duplicate());
            proof {
                assert(shown_values.take(i + 1).drop_last() =~= shown_values.take(i as int));
                assert(shown_values.take(i + 1).last() == shown_values[i as int]);
            }
            i = i + 1;
        }
        assert(shown_values.take(i as int) =~= shown_values);
        let ghost entered = adj@;
        let edges = self.graph.edges();
        let ghost shown_edges = node::shown(edges@);
        let mut e: usize = 0;
        assert(added.take(0) =~= Seq::<(T::V, T::V)>::empty());
        assert(shown_edges.len() == added.len());
        while e < edges.len()
            invariant
                e <= edges@.len(),
                edges@.len() == added.len(),
                graph == self.graph@,
                model::is_simple(graph),
                model::is_canonical(graph),
                node::shown(nodes@) == model::nodes(graph),
                shown_values == node::shown(values@),
                values@.len() == graph.len(),
                shown_edges == node::shown(edges@),
                shown_edges == model::edges(graph),
                forall|u: N::V, v: N::V| #[trigger]
                    model::edges(graph).contains((u, v)) <==> model::has_edge(graph, u, v),
                added == value_edges(graph, shown_values),
                adj.wf(),
                adj@ == model::with_edges(entered, added.take(e as int)),
            decreases edges@.len() - e,
        {
            let (parent, child) = edges[e];
            let parent_place = node::place_of(&nodes, parent);
            let child_place = node::place_of(&nodes, child);
            proof {
                assert(shown_edges[e as int] == (parent@, child@));
                assert(model::edges(graph).contains((parent@, child@)));
                model::lemma_edge_ends(graph, parent@, child@);
                lemma_place(graph, nodes@, parent@, parent_place);
                lemma_place(graph, nodes@, child@, child_place);
            }
            if let (Some(p), Some(c)) = (parent_place, child_place) {
                assert(shown_values[p as int] == values@[p as int]@);
                assert(shown_values[c as int] == values@[c as int]@);
                adj.add_edge(values[p].duplicate(), values[c].duplicate());
            }
            proof {
                assert(added.take(e + 1).drop_last() =~= added.take(e as int));
                assert(added.take(e + 1).last() == added[e as int]);
            }
            e = e + 1;
        }
        assert(added.take(e as int) =~= added);
        let transitions = FlowGraph::new(
            SimpleDirectedGraph::new(adj),
            values[start].duplicate(),
        );
        assert(shown_values[start as int] == values@[start as int]@);
        assert(transitions.graph@ == value_graph(graph, shown_values));

        // Find the values of the given nodes.
        let mut target_values: Vec<T> = Vec::new();
        let mut t: usize = 0;
        while t < target_nodes.len()
            invariant
                t <= target_nodes@.len(),
                graph == self.graph@,
                model::is_simple(graph),
                node::shown(nodes@) == model::nodes(graph),
                shown_values == node::shown(values@),
                values@.len() == graph.len(),
                target_values@.len() == t,
                forall|j: int|
                    0 <= j < t ==> model::has_node(graph, #[trigger] target_nodes@[j]@),
                forall|j: int|
                    0 <= j < t ==> (#[trigger] target_values@[j])@ == value_of(
                        graph,
                        shown_values,
                        target_nodes@[j]@,
                    ),
            decreases target_nodes@.len() - t,
        {
            let place = node::place_of(&nodes, &target_nodes[t]);
            proof {
                lemma_place(graph, nodes@, target_nodes@[t as int]@, place);
            }
            match place {
                Some(p) => {
                    assert(shown_values[p as int] == values@[p as int]@);
                    target_values.push(values[p].duplicate());
                },
                None => {
                    return None;
                },
            }
            t = t + 1;
        }
        proof {
            assert(node::shown(target_values@) =~= values_of(
                graph,
                shown_values,
                targets,
            ));
            assert forall|j: int| 0 <= j < target_values@.len() implies model::has_node(
                transitions.graph@,
                #[trigger] target_values@[j]@,
            ) by {
                assert(model::has_node(graph, target_nodes@[j]@));
                let p = model::position(graph, target_nodes@[j]@);
                assert(shown_values[p] == target_values@[j]@);
            }
        }
        match DominatorFinder::calculate(&transitions) {
            Ok(finder) => match finder.find_closest_common_dominator(target_values) {
                Ok(value) => Some(value),
                Err(_) => None,
            },
            Err(_) => None,
        }
    }
}

} // verus!
