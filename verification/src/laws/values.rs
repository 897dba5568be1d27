//! What the dominator value of some nodes is.
use vstd::prelude::*;

use crate::dominators;
use crate::model;
use crate::paths;
use crate::values;

verus! {

/// `edges` are the steps between values: one for every edge between nodes with these values.
pub open spec fn are_value_steps<K, V>(
    graph: Seq<(K, Seq<K>)>,
    node_values: Seq<V>,
    edges: Set<(V, V)>,
) -> bool {
    forall|v: V, w: V| #[trigger]
        edges.contains((v, w)) <==> exists|i: int, j: int|
            0 <= i < graph.len() && 0 <= j < graph.len() && #[trigger] model::has_edge(
                graph,
                graph[i].0,
                graph[j].0,
            ) && node_values[i] == v && node_values[j] == w
}

/// `shown` are the values of the nodes `targets`, all of which are in the graph.
pub open spec fn are_values_of<K, V>(
    graph: Seq<(K, Seq<K>)>,
    node_values: Seq<V>,
    targets: Seq<K>,
    shown: Seq<V>,
) -> bool {
    &&& shown.len() == targets.len()
    &&& forall|t: int|
        0 <= t < targets.len() ==> exists|i: int|
            0 <= i < graph.len() && (#[trigger] graph[i]).0 == #[trigger] targets[t]
    &&& forall|t: int, i: int|
        0 <= t < targets.len() && 0 <= i < graph.len() && (#[trigger] graph[i]).0
            == #[trigger] targets[t] ==> shown[t] == node_values[i]
}

/// Each node has the value that stands in its place.
pub proof fn lemma_value_in_place<K, V>(graph: Seq<(K, Seq<K>)>, node_values: Seq<V>, i: int)
    requires
        model::is_simple(graph),
        0 <= i < graph.len(),
    ensures
        values::value_of(graph, node_values, graph[i].0) == node_values[i],
{
    model::lemma_position(graph, i);
}

/// The edges between values are the steps between them.
proof fn lemma_value_steps<K, V>(
    graph: Seq<(K, Seq<K>)>,
    node_values: Seq<V>,
    edges: Set<(V, V)>,
)
    requires
        model::is_simple(graph),
        model::is_canonical(graph),
        node_values.len() == graph.len(),
        are_value_steps(graph, node_values, edges),
    ensures
        model::edge_set(values::value_graph(graph, node_values)) == edges,
{
    values::lemma_value_graph(graph, node_values);
    let transitions = values::value_graph(graph, node_values);
    assert forall|e: (V, V)| model::edge_set(transitions).contains(e) <==> edges.contains(e) by {
        let (v, w) = e;
        assert(model::edge_set(transitions).contains((v, w)) <==> model::has_edge(
            transitions,
            v,
            w,
        ));
        if model::has_edge(transitions, v, w) {
            let (x, y) = choose|x: K, y: K| #[trigger]
                model::has_edge(graph, x, y) && values::value_of(graph, node_values, x) == v
                    && values::value_of(graph, node_values, y) == w;
            model::lemma_edge_ends(graph, x, y);
            let i = model::position(graph, x);
            let j = model::position(graph, y);
            assert(model::has_edge(graph, graph[i].0, graph[j].0));
            assert(edges.contains((v, w)));
        }
        if edges.contains((v, w)) {
            let (i, j) = choose|i: int, j: int|
                0 <= i < graph.len() && 0 <= j < graph.len() && #[trigger] model::has_edge(
                    graph,
                    graph[i].0,
                    graph[j].0,
                ) && node_values[i] == v && node_values[j] == w;
            lemma_value_in_place(graph, node_values, i);
            lemma_value_in_place(graph, node_values, j);
            assert(model::has_edge(transitions, v, w));
        }
    }
    assert(model::edge_set(transitions) =~= edges);
}

/// The dominator value of some nodes is the closest value that all steps from the value of the
/// start to theirs lead through.
pub proof fn lemma_dominator_value<K, V>(
    graph: Seq<(K, Seq<K>)>,
    start: int,
    node_values: Seq<V>,
    targets: Seq<K>,
    value: V,
    edges: Set<(V, V)>,
    shown: Seq<V>,
)
    requires
        model::is_simple(graph),
        model::is_canonical(graph),
        node_values.len() == graph.len(),
        0 <= start < graph.len(),
        are_value_steps(graph, node_values, edges),
        are_values_of(graph, node_values, targets, shown),
    ensures
        values::is_dominator_value(graph, graph[start].0, node_values, targets, value)
            <==> paths::is_closest_common_dominator(edges, node_values[start], value, shown),
{
    lemma_value_steps(graph, node_values, edges);
    lemma_value_in_place(graph, node_values, start);
    let of_targets = values::values_of(graph, node_values, targets);
    assert(of_targets.len() == targets.len());
    assert forall|t: int| 0 <= t < targets.len() implies of_targets[t] == shown[t] by {
        let i = choose|i: int|
            0 <= i < graph.len() && (#[trigger] graph[i]).0 == #[trigger] targets[t];
        lemma_value_in_place(graph, node_values, i);
    }
    assert(of_targets =~= shown);
}

/// The values make a valid flow graph just if steps lead from the value of the start to all of
/// them.
pub proof fn lemma_values_reached<K, V>(
    graph: Seq<(K, Seq<K>)>,
    start: int,
    node_values: Seq<V>,
    edges: Set<(V, V)>,
)
    requires
        model::is_simple(graph),
        model::is_canonical(graph),
        node_values.len() == graph.len(),
        0 <= start < graph.len(),
        are_value_steps(graph, node_values, edges),
    ensures
        dominators::is_valid_flow_graph(
            values::value_graph(graph, node_values),
            values::value_of(graph, node_values, graph[start].0),
        ) <==> forall|i: int|
            0 <= i < node_values.len() ==> paths::reaches(
                edges,
                node_values[start],
                #[trigger] node_values[i],
            ),
{
    let transitions = values::value_graph(graph, node_values);
    lemma_value_steps(graph, node_values, edges);
    lemma_value_in_place(graph, node_values, start);
    values::lemma_value_graph(graph, node_values);
    assert(node_values.contains(node_values[start]));
    if dominators::is_valid_flow_graph(transitions, node_values[start]) {
        assert forall|i: int| 0 <= i < node_values.len() implies paths::reaches(
            edges,
            node_values[start],
            #[trigger] node_values[i],
        ) by {
            assert(node_values.contains(node_values[i]));
            assert(model::has_node(transitions, node_values[i]));
        }
    }
    if forall|i: int|
        0 <= i < node_values.len() ==> paths::reaches(
            edges,
            node_values[start],
            #[trigger] node_values[i],
        ) {
        assert forall|v: V| #[trigger] model::has_node(transitions, v) implies paths::reaches(
            model::edge_set(transitions),
            node_values[start],
            v,
        ) by {
            let i = choose|i: int| 0 <= i < node_values.len() && node_values[i] == v;
            assert(paths::reaches(edges, node_values[start], node_values[i]));
        }
    }
}

/// Every path from the start to one of the nodes goes through a node with the dominator value.
pub proof fn lemma_dominator_value_is_passed<K, V>(
    graph: Seq<(K, Seq<K>)>,
    start: K,
    node_values: Seq<V>,
    targets: Seq<K>,
    value: V,
    t: int,
    path: Seq<K>,
) -> (found: (int, int))
    requires
        model::is_simple(graph),
        model::is_canonical(graph),
        node_values.len() == graph.len(),
        model::has_node(graph, start),
        values::is_dominator_value(graph, start, node_values, targets, value),
        0 <= t < targets.len(),
        paths::is_path_between(model::edge_set(graph), start, targets[t], path),
    ensures
        0 <= found.0 < path.len(),
        0 <= found.1 < graph.len(),
        graph[found.1].0 == path[found.0],
        node_values[found.1] == value,
{
    let shown = path.map_values(|node: K| values::value_of(graph, node_values, node));
    let of_targets = values::values_of(graph, node_values, targets);
    values::lemma_path_of_values(graph, node_values, start, targets[t], path);
    assert(of_targets[t] == values::value_of(graph, node_values, targets[t]));
    assert(paths::dominates(
        model::edge_set(values::value_graph(graph, node_values)),
        values::value_of(graph, node_values, start),
        value,
        of_targets[t],
    ));
    assert(shown.contains(value));
    let k = choose|k: int| 0 <= k < shown.len() && shown[k] == value;
    paths::lemma_path_prefix(model::edge_set(graph), start, targets[t], path, k);
    dominators::lemma_reached_is_node(graph, start, path.take(k + 1));
    assert(path.take(k + 1).last() == path[k]);
    (k, model::position(graph, path[k]))
}

/// Nodes that agree have the value that they agree on as their dominator value.
pub proof fn lemma_dominator_value_of_agreeing<K, V>(
    graph: Seq<(K, Seq<K>)>,
    start: K,
    node_values: Seq<V>,
    targets: Seq<K>,
    value: V,
)
    requires
        model::is_simple(graph),
        model::is_canonical(graph),
        node_values.len() == graph.len(),
        dominators::is_valid_flow_graph(
            values::value_graph(graph, node_values),
            values::value_of(graph, node_values, start),
        ),
        targets.len() > 0,
        forall|t: int|
            0 <= t < targets.len() ==> model::has_node(graph, #[trigger] targets[t])
                && values::value_of(graph, node_values, targets[t]) == value,
    ensures
        forall|v: V| #[trigger]
            values::is_dominator_value(graph, start, node_values, targets, v) <==> v == value,
{
    let edges = model::edge_set(values::value_graph(graph, node_values));
    let from = values::value_of(graph, node_values, start);
    let of_targets = values::values_of(graph, node_values, targets);
    values::lemma_value_graph(graph, node_values);
    assert forall|t: int| 0 <= t < of_targets.len() implies of_targets[t] == value by {
        assert(values::value_of(graph, node_values, targets[t]) == value);
    }
    assert(values::value_of(graph, node_values, targets[0]) == value);
    assert(node_values[model::position(graph, targets[0])] == value);
    assert(node_values.contains(value));
    assert(model::has_node(values::value_graph(graph, node_values), value));
    paths::lemma_closest_of_one(edges, from, value);
    assert(seq![value].to_set() =~= of_targets.to_set()) by {
        assert(seq![value][0] == value);
        assert(of_targets[0] == value);
    }
    paths::lemma_closest_of_same_set(edges, from, value, seq![value], of_targets);
    assert forall|v: V| #[trigger]
        values::is_dominator_value(graph, start, node_values, targets, v) <==> v == value by {
        if values::is_dominator_value(graph, start, node_values, targets, v) {
            assert(of_targets[0] == value);
            paths::lemma_closest_common_dominator_unique(edges, from, v, value, of_targets);
        }
    }
}

} // verus!
