//! What calls of the operations on graphs, changes, identifiers and merges give back.
use vstd::prelude::*;

use crate::adjacency::AdjacencyMap;
use crate::changes;
use crate::changes::CommitsByChangeId;
use crate::commit::Commit;
use crate::commit::CommitEvolutionEntry;
use crate::converge;
use crate::dominators::DominatorFinder;
use crate::error;
use crate::error::ConvergeError;
use crate::graph::FlowGraph;
use crate::graph::SimpleDirectedGraph;
use crate::ids::ChangeId;
use crate::ids::CommitId;
use crate::ids::TreeId;
use crate::immediate;
use crate::immediate::Index;
use crate::laws::changes as laws_of_changes;
use crate::laws::converging;
use crate::laws::dominance;
use crate::laws::merges;
use crate::laws::orders;
use crate::laws::postorders;
use crate::laws::texts;
use crate::laws::values as laws_of_values;
use crate::merge;
use crate::merge::Merge;
use crate::model;
use crate::node;
use crate::node::Node;
use crate::paths;
use crate::reach;
use crate::ui::ConvergeUI;

verus! {

/// Identifiers give back the bytes that they are made of.
pub proof fn lemma_identifiers(
    bytes: Vec<u8>,
    commit: CommitId,
    change: ChangeId,
    tree: TreeId,
    of_commit: &Vec<u8>,
    of_change: &Vec<u8>,
    of_tree: &Vec<u8>,
)
    requires
        call_ensures(CommitId::new, (bytes,), commit),
        call_ensures(ChangeId::new, (bytes,), change),
        call_ensures(TreeId::new, (bytes,), tree),
        call_ensures(CommitId::as_bytes, (&commit,), of_commit),
        call_ensures(ChangeId::as_bytes, (&change,), of_change),
        call_ensures(TreeId::as_bytes, (&tree,), of_tree),
    ensures
        of_commit@ == bytes@,
        of_change@ == bytes@,
        of_tree@ == bytes@,
{
}

/// Identifiers have the same hexadecimal form just if they are made of the same bytes. Each byte
/// can be read off it.
pub proof fn lemma_hexadecimal_forms(
    a: CommitId,
    b: CommitId,
    bytes_of_a: &Vec<u8>,
    bytes_of_b: &Vec<u8>,
    hex_of_a: String,
    hex_of_b: String,
)
    requires
        call_ensures(CommitId::as_bytes, (&a,), bytes_of_a),
        call_ensures(CommitId::as_bytes, (&b,), bytes_of_b),
        call_ensures(CommitId::hex, (&a,), hex_of_a),
        call_ensures(CommitId::hex, (&b,), hex_of_b),
    ensures
        hex_of_a@ == hex_of_b@ <==> bytes_of_a@ == bytes_of_b@,
        hex_of_a@.len() == 2 * bytes_of_a@.len(),
        forall|i: int|
            0 <= i < bytes_of_a@.len() ==> 16 * texts::digit_value(hex_of_a@[2 * i])
                + texts::digit_value(hex_of_a@[2 * i + 1]) == #[trigger] bytes_of_a@[i],
{
    texts::lemma_hex_reads_back(a@);
    if hex_of_a@ == hex_of_b@ {
        texts::lemma_hex_is_unique(a@, b@);
    }
}

/// A merge gives back the values that it is made of, of which there is an odd number.
pub proof fn lemma_values_of_merge<T: Node>(
    values: Vec<T>,
    merge: Option<Merge<T>>,
    listed: &Vec<T>,
)
    requires
        call_ensures(Merge::<T>::from_values, (values,), merge),
        merge is Some ==> call_ensures(Merge::<T>::values, (&merge->0,), listed),
    ensures
        merge is Some <==> values@.len() % 2 == 1,
        merge is Some ==> listed@.len() == values@.len() && forall|i: int|
            0 <= i < values@.len() ==> (#[trigger] listed@[i])@ == values@[i]@,
{
    if merge is Some {
        assert(node::shown(listed@) == node::shown(values@));
        assert(node::shown(listed@).len() == listed@.len());
        assert(node::shown(values@).len() == values@.len());
        assert forall|i: int| 0 <= i < values@.len() implies (#[trigger] listed@[i])@
            == values@[i]@ by {
            assert(node::shown(listed@)[i] == node::shown(values@)[i]);
        }
    }
}

/// A merge of one value resolves to it.
pub proof fn lemma_resolved_value<T: Node>(
    value: T,
    merge: Merge<T>,
    listed: &Vec<T>,
    resolved: Option<&T>,
)
    requires
        call_ensures(Merge::<T>::values, (&merge,), listed),
        call_ensures(Merge::<T>::resolved, (value,), merge),
        call_ensures(Merge::<T>::resolve_trivial, (&merge,), resolved),
    ensures
        resolved matches Some(found) && found@ == value@,
{
    merges::lemma_small_merges(value@, value@, value@, value@);
    assert(merge::resolves_to(node::shown(listed@), value@));
    if let Some(found) = resolved {
        merges::lemma_small_merges(value@, value@, value@, found@);
    }
}

/// A merge resolves to the only value that is added more often than it is removed, if there is
/// one and at most one value is removed more often than it is added.
pub proof fn lemma_resolved_merge<T: Node>(merge: Merge<T>, listed: &Vec<T>, resolved: Option<&T>)
    requires
        call_ensures(Merge::<T>::values, (&merge,), listed),
        call_ensures(Merge::<T>::resolve_trivial, (&merge,), resolved),
    ensures
        ({
            let values = node::shown(listed@);
            &&& resolved matches Some(value) ==> {
                &&& merges::times_added(values, value@) > merges::times_removed(values, value@)
                &&& forall|v: T::V|
                    v != value@ ==> #[trigger] merges::times_added(values, v)
                        <= merges::times_removed(values, v)
                &&& forall|v: T::V, w: T::V|
                    #![trigger merges::times_added(values, v), merges::times_added(values, w)]
                    merges::times_added(values, v) < merges::times_removed(values, v)
                        && merges::times_added(values, w) < merges::times_removed(values, w) ==> v
                        == w
            }
            &&& forall|value: T::V|
                #[trigger] merges::times_added(values, value) > merges::times_removed(values, value)
                    && (forall|v: T::V|
                    v != value ==> #[trigger] merges::times_added(values, v)
                        <= merges::times_removed(values, v)) && (forall|v: T::V, w: T::V|
                    #![trigger merges::times_added(values, v), merges::times_added(values, w)]
                    merges::times_added(values, v) < merges::times_removed(values, v)
                        && merges::times_added(values, w) < merges::times_removed(values, w) ==> v
                        == w) ==> (resolved matches Some(found) && found@ == value)
        }),
{
    let values = node::shown(listed@);
    if let Some(value) = resolved {
        merges::lemma_resolution(values, value@);
    }
    assert forall|value: T::V|
        #[trigger] merges::times_added(values, value) > merges::times_removed(values, value) && (
        forall|v: T::V|
            v != value ==> #[trigger] merges::times_added(values, v) <= merges::times_removed(
                values,
                v,
            )) && (forall|v: T::V, w: T::V|
            #![trigger merges::times_added(values, v), merges::times_added(values, w)]
            merges::times_added(values, v) < merges::times_removed(values, v)
                && merges::times_added(values, w) < merges::times_removed(values, w) ==> v
                == w) implies (resolved matches Some(found) && found@ == value) by {
        merges::lemma_resolution(values, value);
        if let Some(found) = resolved {
            merges::lemma_resolves_once(values, found@, value);
        }
    }
}

/// Sides merged with the base that they changed resolve to a value just if each of them is the
/// base or that value, and one of them is.
pub proof fn lemma_merged_sides<T: Node>(
    base: &T,
    sides: Vec<T>,
    merge: Merge<T>,
    listed: &Vec<T>,
    resolved: Option<&T>,
)
    requires
        sides@.len() > 0,
        call_ensures(Merge::<T>::values, (&merge,), listed),
        call_ensures(converge::merge_sides::<T>, (base, sides), merge),
        call_ensures(Merge::<T>::resolve_trivial, (&merge,), resolved),
    ensures
        match resolved {
            Some(value) => {
                &&& exists|i: int| 0 <= i < sides@.len() && (#[trigger] sides@[i])@ == value@
                &&& forall|i: int|
                    0 <= i < sides@.len() ==> (#[trigger] sides@[i])@ == base@ || sides@[i]@
                        == value@
            },
            None => exists|i: int, j: int|
                0 <= i < sides@.len() && 0 <= j < sides@.len() && (#[trigger] sides@[i])@ != base@
                    && (#[trigger] sides@[j])@ != base@ && sides@[i]@ != sides@[j]@,
        },
{
    let shown = node::shown(sides@);
    assert(shown.len() == sides@.len());
    assert forall|i: int| 0 <= i < sides@.len() implies shown[i] == (#[trigger] sides@[i])@ by {}
    match resolved {
        Some(value) => {
            converge::lemma_merge_converges(base@, shown, value@);
            let i = choose|i: int| 0 <= i < shown.len() && shown[i] == value@;
            assert(sides@[i]@ == value@);
            assert forall|i: int| 0 <= i < sides@.len() implies (#[trigger] sides@[i])@ == base@
                || sides@[i]@ == value@ by {
                assert(shown[i] == base@ || shown[i] == value@);
            }
        },
        None => {
            assert forall|v: T::V| !#[trigger] converge::is_converged(base@, shown, v) by {
                converge::lemma_merge_converges(base@, shown, v);
                assert(!merge::resolves_to(node::shown(listed@), v));
            }
            converging::lemma_when_sides_converge(base@, shown);
            let (i, j) = choose|i: int, j: int|
                0 <= i < shown.len() && 0 <= j < shown.len() && !(#[trigger] shown[i] == base@
                    || #[trigger] shown[j] == base@ || shown[i] == shown[j]);
            assert(sides@[i]@ == shown[i] && sides@[j]@ == shown[j]);
        },
    }
}

/// The nodes of a graph made of edges are the ends of the edges: first where the edges start, in
/// their order, then where the edges of the graph end.
pub proof fn lemma_nodes_of_edge_list<N: Node>(
    edges: Vec<(N, N)>,
    graph: SimpleDirectedGraph<N>,
    node: &N,
    found: bool,
    nodes: Vec<&N>,
    num: usize,
    listed: Vec<(&N, &N)>,
)
    requires
        call_ensures(SimpleDirectedGraph::<N>::edges, (&graph,), listed),
        call_ensures(SimpleDirectedGraph::<N>::from_edge_list, (edges,), graph),
        call_ensures(SimpleDirectedGraph::<N>::contains_node, (&graph, node), found),
        call_ensures(SimpleDirectedGraph::<N>::nodes, (&graph,), nodes),
        call_ensures(SimpleDirectedGraph::<N>::num_nodes, (&graph,), num),
    ensures
        found <==> exists|i: int|
            0 <= i < edges@.len() && ((#[trigger] edges@[i]).0@ == node@ || edges@[i].1@ == node@),
        found <==> exists|i: int| 0 <= i < nodes@.len() && (#[trigger] nodes@[i])@ == node@,
        num == nodes@.len(),
        forall|i: int, j: int|
            0 <= i < j < nodes@.len() ==> (#[trigger] nodes@[i])@ != (#[trigger] nodes@[j])@,
        orders::lists_once(
            node::shown(edges@).map_values(|edge: (N::V, N::V)| edge.0) + node::shown(
                listed@,
            ).map_values(|edge: (N::V, N::V)| edge.1),
            node::shown(nodes@),
        ),
{
    let shown = node::shown(nodes@);
    assert(shown.len() == nodes@.len());
    orders::lemma_edge_list(node::shown(edges@));
    orders::lemma_nodes(graph@);
    if found {
        let i = choose|i: int| 0 <= i < graph@.len() && (#[trigger] graph@[i]).0 == node@;
        assert(shown[i] == node@);
        assert(nodes@[i]@ == node@);
    }
    if exists|i: int| 0 <= i < nodes@.len() && (#[trigger] nodes@[i])@ == node@ {
        let i = choose|i: int| 0 <= i < nodes@.len() && (#[trigger] nodes@[i])@ == node@;
        assert(shown[i] == node@);
        assert(graph@[i].0 == node@);
    }
    lemma_edge_list_is_simple(node::shown(edges@));
    assert forall|i: int, j: int| 0 <= i < j < nodes@.len() implies (#[trigger] nodes@[i])@ != (
    #[trigger] nodes@[j])@ by {
        assert(shown[i] == graph@[i].0 && shown[j] == graph@[j].0);
        assert(shown[i] == nodes@[i]@ && shown[j] == nodes@[j]@);
    }
}

/// A graph made of edges is one.
proof fn lemma_edge_list_is_simple<K>(edges: Seq<(K, K)>)
    ensures
        model::is_simple(model::with_edges(Seq::empty(), edges)),
        model::is_simple(model::completed(model::with_edges(Seq::empty(), edges))),
{
    model::lemma_with_edges(Seq::<(K, Seq<K>)>::empty(), edges);
    model::lemma_completed(model::with_edges(Seq::<(K, Seq<K>)>::empty(), edges));
}

/// The edges of a graph made of edges are these, and the nodes adjacent to a node come in the order
/// of the edges to them.
pub proof fn lemma_edges_of_edge_list<N: Node>(
    edges: Vec<(N, N)>,
    graph: SimpleDirectedGraph<N>,
    node: &N,
    adjacent: Option<Vec<&N>>,
    listed: Vec<(&N, &N)>,
)
    requires
        call_ensures(SimpleDirectedGraph::<N>::from_edge_list, (edges,), graph),
        call_ensures(SimpleDirectedGraph::<N>::adjacent_nodes, (&graph, node), adjacent),
        call_ensures(SimpleDirectedGraph::<N>::edges, (&graph,), listed),
    ensures
        adjacent is None <==> forall|i: int|
            0 <= i < edges@.len() ==> (#[trigger] edges@[i]).0@ != node@ && edges@[i].1@ != node@,
        adjacent matches Some(found) ==> orders::lists_once(
            node::shown(edges@).filter(
                |edge: (N::V, N::V)| edge.0 == node@,
            ).map_values(|edge: (N::V, N::V)| edge.1),
            node::shown(found@),
        ),
        forall|u: N::V, v: N::V|
            #![trigger node::shown(listed@).contains((u, v))]
            #![trigger node::shown(edges@).contains((u, v))]
            node::shown(listed@).contains((u, v)) <==> node::shown(edges@).contains((u, v)),
{
    let shown = node::shown(edges@);
    let given = model::with_edges(Seq::<(N::V, Seq<N::V>)>::empty(), shown);
    lemma_edge_list_is_simple(shown);
    model::lemma_completed(given);
    model::lemma_edges(graph@);
    orders::lemma_with_edges(Seq::<(N::V, Seq<N::V>)>::empty(), shown, node@);
    let own = shown.filter(|edge: (N::V, N::V)| edge.0 == node@).map_values(
        |edge: (N::V, N::V)| edge.1,
    );
    assert(model::children(graph@, node@) == model::children(given, node@));
    assert(!model::has_node(Seq::<(N::V, Seq<N::V>)>::empty(), node@));
    assert(Seq::<N::V>::empty() + own =~= own);
    assert forall|u: N::V, v: N::V|
        #![trigger node::shown(listed@).contains((u, v))]
        #![trigger shown.contains((u, v))]
        node::shown(listed@).contains((u, v)) <==> shown.contains((u, v)) by {
        assert(model::edges(graph@).contains((u, v)) <==> model::has_edge(graph@, u, v));
        assert(model::has_edge(graph@, u, v) <==> shown.contains((u, v)));
    }
}

/// A graph made of a map has the edges of the map in the same order. Its nodes are those of the map,
/// followed by the children that the map lists no children of.
pub proof fn lemma_graph_of_map<N: Node>(
    map: AdjacencyMap<N>,
    graph: SimpleDirectedGraph<N>,
    node: &N,
    entered: bool,
    found: bool,
    children: Option<Vec<&N>>,
    adjacent: Option<Vec<&N>>,
    edges_before: Vec<(&N, &N)>,
    edges: Vec<(&N, &N)>,
    nodes_before: Vec<&N>,
    nodes: Vec<&N>,
    num: usize,
)
    requires
        map.wf(),
        call_ensures(SimpleDirectedGraph::<N>::new, (map,), graph),
        call_ensures(AdjacencyMap::<N>::contains_node, (&map, node), entered),
        call_ensures(SimpleDirectedGraph::<N>::contains_node, (&graph, node), found),
        call_ensures(AdjacencyMap::<N>::children, (&map, node), children),
        call_ensures(SimpleDirectedGraph::<N>::adjacent_nodes, (&graph, node), adjacent),
        call_ensures(AdjacencyMap::<N>::edges, (&map,), edges_before),
        call_ensures(SimpleDirectedGraph::<N>::edges, (&graph,), edges),
        call_ensures(AdjacencyMap::<N>::nodes, (&map,), nodes_before),
        call_ensures(SimpleDirectedGraph::<N>::nodes, (&graph,), nodes),
        call_ensures(AdjacencyMap::<N>::num_nodes, (&map,), num),
    ensures
        num == nodes_before@.len(),
        entered <==> node::shown(nodes_before@).contains(node@),
        entered <==> children is Some,
        found <==> node::shown(nodes@).contains(node@),
        found <==> adjacent is Some,
        found <==> entered || exists|e: int|
            0 <= e < edges@.len() && (#[trigger] edges@[e]).1@ == node@,
        entered ==> node::shown(children->0@) == node::shown(adjacent->0@),
        found && !entered ==> adjacent->0@.len() == 0,
        node::shown(edges@) == node::shown(edges_before@),
        orders::lists_once(
            node::shown(nodes_before@) + node::shown(edges@).map_values(
                |edge: (N::V, N::V)| edge.1,
            ),
            node::shown(nodes@),
        ),
        entered ==> forall|v: N::V|
            node::shown(children->0@).contains(v) <==> node::shown(edges@).contains((node@, v)),
{
    let given = map@;
    map.lemma_simple();
    model::lemma_completed(given);
    model::lemma_edges(given);
    orders::lemma_completed(given);
    orders::lemma_edges_with_nodes(
        given,
        model::edges(given).map_values(|edge: (N::V, N::V)| edge.1),
    );
    orders::lemma_nodes(given);
    orders::lemma_nodes(graph@);
    assert(node::shown(nodes_before@).len() == nodes_before@.len());
    let listed = node::shown(edges@);
    assert(listed.len() == edges@.len());
    assert(forall|e: int|
        0 <= e < listed.len() ==> listed[e] == ((#[trigger] edges@[e]).0@, edges@[e].1@));
    if found && !entered {
        let u = choose|u: N::V| #[trigger] model::has_edge(given, u, node@);
        assert(model::edges(given).contains((u, node@)));
        let e = choose|e: int| 0 <= e < listed.len() && listed[e] == (u, node@);
        assert(edges@[e].1@ == node@);
        assert(model::children(graph@, node@) == model::children(given, node@));
        assert(node::shown(adjacent->0@).len() == adjacent->0@.len());
    }
    if exists|e: int| 0 <= e < edges@.len() && (#[trigger] edges@[e]).1@ == node@ {
        let e = choose|e: int| 0 <= e < edges@.len() && (#[trigger] edges@[e]).1@ == node@;
        assert(listed[e] == (edges@[e].0@, node@));
        assert(model::edges(given).contains((edges@[e].0@, node@)));
        assert(model::has_edge(given, edges@[e].0@, node@));
    }
    if entered {
        assert(model::children(graph@, node@) == model::children(given, node@));
        assert forall|v: N::V|
            node::shown(children->0@).contains(v) <==> listed.contains((node@, v)) by {
            assert(model::edges(given).contains((node@, v)) <==> model::has_edge(given, node@, v));
        }
    }
}

/// Reversing keeps the nodes and turns every edge round.
pub proof fn lemma_reverse<N: Node>(
    graph: &SimpleDirectedGraph<N>,
    reverse: SimpleDirectedGraph<N>,
    node: &N,
    before: bool,
    after: bool,
    edges: Vec<(&N, &N)>,
    turned: Vec<(&N, &N)>,
)
    requires
        model::is_simple(graph@),
        model::is_canonical(graph@),
        call_ensures(SimpleDirectedGraph::<N>::reverse, (graph,), reverse),
        call_ensures(SimpleDirectedGraph::<N>::contains_node, (graph, node), before),
        call_ensures(SimpleDirectedGraph::<N>::contains_node, (&reverse, node), after),
        call_ensures(SimpleDirectedGraph::<N>::edges, (graph,), edges),
        call_ensures(SimpleDirectedGraph::<N>::edges, (&reverse,), turned),
    ensures
        before == after,
        forall|u: N::V, v: N::V|
            #![trigger node::shown(edges@).contains((u, v))]
            #![trigger node::shown(turned@).contains((v, u))]
            node::shown(edges@).contains((u, v)) <==> node::shown(turned@).contains((v, u)),
{
    model::lemma_reversed(graph@);
    model::lemma_edges(graph@);
    model::lemma_edges(reverse@);
    assert forall|u: N::V, v: N::V|
        #![trigger node::shown(edges@).contains((u, v))]
        #![trigger node::shown(turned@).contains((v, u))]
        node::shown(edges@).contains((u, v)) <==> node::shown(turned@).contains((v, u)) by {
        assert(model::edges(graph@).contains((u, v)) <==> model::has_edge(graph@, u, v));
        assert(model::edges(reverse@).contains((v, u)) <==> model::has_edge(reverse@, v, u));
        assert(model::has_edge(reverse@, v, u) <==> model::has_edge(graph@, u, v));
    }
}

/// Graphs compare equal just if they have the same nodes and edges. Clones compare equal.
pub proof fn lemma_comparison<N: Node>(
    a: &SimpleDirectedGraph<N>,
    b: &SimpleDirectedGraph<N>,
    copy: SimpleDirectedGraph<N>,
    equal: bool,
    same: bool,
)
    requires
        call_ensures(SimpleDirectedGraph::<N>::eq, (a, b), equal),
        call_ensures(SimpleDirectedGraph::<N>::clone, (a,), copy),
        call_ensures(SimpleDirectedGraph::<N>::eq, (a, &copy), same),
    ensures
        same,
        equal <==> {
            &&& forall|k: N::V| #[trigger] model::has_node(a@, k) <==> model::has_node(b@, k)
            &&& forall|u: N::V, v: N::V| #[trigger]
                model::has_edge(a@, u, v) <==> model::has_edge(b@, u, v)
        },
{
}

/// The part that a node leads to has the nodes that are reached and the edges between them.
pub proof fn lemma_reachable_part<N: Node>(
    graph: &SimpleDirectedGraph<N>,
    start: &N,
    part: SimpleDirectedGraph<N>,
)
    requires
        model::is_simple(graph@),
        model::is_canonical(graph@),
        call_ensures(SimpleDirectedGraph::<N>::reachable_from, (graph, start), part),
    ensures
        forall|k: N::V| #[trigger]
            model::has_node(part@, k) <==> model::has_node(graph@, k) && paths::reaches(
                model::edge_set(graph@),
                start@,
                k,
            ),
        forall|u: N::V, v: N::V| #[trigger]
            model::has_edge(part@, u, v) <==> model::has_edge(graph@, u, v) && paths::reaches(
                model::edge_set(graph@),
                start@,
                u,
            ),
{
    reach::lemma_part_from(graph@, start@);
    assert forall|u: N::V, v: N::V| #[trigger]
        model::has_edge(part@, u, v) <==> model::has_edge(graph@, u, v) && paths::reaches(
            model::edge_set(graph@),
            start@,
            u,
        ) by {
        if model::has_node(part@, u) {
            assert(model::children(part@, u) == model::children(graph@, u));
        }
    }
}

/// The postorder from a node lists what it leads to, each node once and the start last. Of the ends
/// of an edge the child comes first, unless it leads back to its parent. It goes through the
/// children in order.
pub proof fn lemma_postorder<'a, N: Node>(
    graph: &'a SimpleDirectedGraph<N>,
    start: &'a N,
    order: Vec<&'a N>,
)
    requires
        model::is_simple(graph@),
        call_ensures(SimpleDirectedGraph::<N>::get_postorder, (graph, start), order),
    ensures
        order@.len() > 0 && order@[order@.len() - 1]@ == start@,
        forall|i: int, j: int|
            0 <= i < j < order@.len() ==> (#[trigger] order@[i])@ != (#[trigger] order@[j])@,
        forall|k: N::V|
            paths::reaches(model::edge_set(graph@), start@, k) <==> exists|i: int|
                0 <= i < order@.len() && (#[trigger] order@[i])@ == k,
        forall|i: int, j: int|
            0 <= i < j < order@.len() && #[trigger] model::has_edge(
                graph@,
                order@[i]@,
                order@[j]@,
            ) ==> paths::reaches(model::edge_set(graph@), order@[j]@, order@[i]@),
        node::shown(order@) == postorders::listed_upto(
            graph@,
            start@,
            model::children(graph@, start@).len(),
        ).push(start@),
{
    let shown = node::shown(order@);
    assert(shown.len() == order@.len());
    assert(forall|i: int| 0 <= i < order@.len() ==> shown[i] == (#[trigger] order@[i])@);
    dominance::lemma_postorder_listing(graph@, start@, shown);
    postorders::lemma_postorder(graph@, start@);
    assert forall|k: N::V|
        paths::reaches(model::edge_set(graph@), start@, k) <==> exists|i: int|
            0 <= i < order@.len() && (#[trigger] order@[i])@ == k by {
        if paths::reaches(model::edge_set(graph@), start@, k) {
            let i = choose|i: int| 0 <= i < shown.len() && #[trigger] shown[i] == k;
            assert(order@[i]@ == k);
        }
        if exists|i: int| 0 <= i < order@.len() && (#[trigger] order@[i])@ == k {
            let i = choose|i: int| 0 <= i < order@.len() && (#[trigger] order@[i])@ == k;
            assert(shown[i] == k);
        }
    }
    assert forall|i: int, j: int| 0 <= i < j < order@.len() implies (#[trigger] order@[i])@ != (
    #[trigger] order@[j])@ by {
        assert(shown[i] != shown[j]);
    }
    assert forall|i: int, j: int|
        0 <= i < j < order@.len() && #[trigger] model::has_edge(
            graph@,
            order@[i]@,
            order@[j]@,
        ) implies paths::reaches(model::edge_set(graph@), order@[j]@, order@[i]@) by {
        assert(model::has_edge(graph@, shown[i], shown[j]));
    }
}

/// A finder is made just for flow graphs whose start is a node that leads to every node.
pub proof fn lemma_finder<'a, N: Node>(
    flow_graph: &'a FlowGraph<N>,
    finder: Result<DominatorFinder<'a, N>, String>,
)
    requires
        call_ensures(DominatorFinder::<'a, N>::calculate, (flow_graph,), finder),
    ensures
        finder is Ok <==> {
            &&& model::has_node(flow_graph.graph@, flow_graph.start_node@)
            &&& forall|nodes: Set<N::V>, i: int|
                #[trigger]
                dominance::is_closed_from(
                    model::edge_set(flow_graph.graph@),
                    flow_graph.start_node@,
                    nodes,
                ) && 0 <= i < flow_graph.graph@.len() ==> nodes.contains(
                    (#[trigger] flow_graph.graph@[i]).0,
                )
        },
{
    dominance::lemma_valid_flow_graph(flow_graph.graph@, flow_graph.start_node@);
}

/// The closest common dominator of some nodes dominates all of them, and whatever else dominates
/// all of them dominates it. There is one just if there are nodes and all of them are in the graph.
pub proof fn lemma_closest_common_dominator<'a, N: Node>(
    flow_graph: &'a FlowGraph<N>,
    finder: DominatorFinder<'a, N>,
    target_set: Vec<N>,
    dominator: Result<N, String>,
)
    requires
        call_ensures(DominatorFinder::<'a, N>::calculate, (flow_graph,), Ok(finder)),
        call_ensures(
            DominatorFinder::<'a, N>::find_closest_common_dominator,
            (&finder, target_set),
            dominator,
        ),
    ensures
        ({
            let edges = model::edge_set(flow_graph.graph@);
            let start = flow_graph.start_node@;
            &&& dominator is Ok <==> target_set@.len() > 0 && forall|i: int|
                0 <= i < target_set@.len() ==> model::has_node(
                    flow_graph.graph@,
                    (#[trigger] target_set@[i])@,
                )
            &&& dominator matches Ok(dom) ==> {
                &&& forall|i: int|
                    0 <= i < target_set@.len() ==> paths::dominates(
                        edges,
                        start,
                        dom@,
                        (#[trigger] target_set@[i])@,
                    )
                &&& forall|z: N::V|
                    (forall|i: int|
                        0 <= i < target_set@.len() ==> paths::dominates(
                            edges,
                            start,
                            z,
                            (#[trigger] target_set@[i])@,
                        )) ==> #[trigger] paths::dominates(edges, start, z, dom@)
            }
        }),
{
    let edges = model::edge_set(flow_graph.graph@);
    let start = flow_graph.start_node@;
    let shown = node::shown(target_set@);
    assert(shown.len() == target_set@.len());
    assert(forall|i: int|
        0 <= i < target_set@.len() ==> shown[i] == (#[trigger] target_set@[i])@);
    if let Ok(dom) = dominator {
        assert(shown[0] == target_set@[0]@);
        assert(model::has_node(flow_graph.graph@, target_set@[0]@));
        dominance::lemma_closest_common_dominator(edges, start, dom@, shown);
        assert forall|i: int| 0 <= i < target_set@.len() implies paths::dominates(
            edges,
            start,
            dom@,
            (#[trigger] target_set@[i])@,
        ) by {
            assert(paths::dominates(edges, start, dom@, shown[i]));
        }
        assert forall|z: N::V|
            (forall|i: int|
                0 <= i < target_set@.len() ==> paths::dominates(
                    edges,
                    start,
                    z,
                    (#[trigger] target_set@[i])@,
                )) implies #[trigger] paths::dominates(edges, start, z, dom@) by {
            assert forall|i: int| 0 <= i < shown.len() implies paths::dominates(
                edges,
                start,
                z,
                #[trigger] shown[i],
            ) by {
                assert(paths::dominates(edges, start, z, target_set@[i]@));
            }
        }
    }
}

/// Every node is listed in postorder with its immediate dominator: another node that dominates it
/// and that every other node which dominates it dominates. The start is listed with itself.
pub proof fn lemma_immediate_dominators<'a, N: Node>(
    flow_graph: &'a FlowGraph<N>,
    finder: DominatorFinder<'a, N>,
    order: Vec<&'a N>,
    listed: Vec<(N, N)>,
)
    requires
        call_ensures(
            SimpleDirectedGraph::<N>::get_postorder,
            (&flow_graph.graph, &flow_graph.start_node),
            order,
        ),
        call_ensures(DominatorFinder::<'a, N>::calculate, (flow_graph,), Ok(finder)),
        call_ensures(DominatorFinder::<'a, N>::get_immediate_dominators, (&finder,), listed),
    ensures
        ({
            let edges = model::edge_set(flow_graph.graph@);
            let start = flow_graph.start_node@;
            &&& listed@.len() == order@.len()
            &&& forall|i: int|
                0 <= i < listed@.len() ==> (#[trigger] listed@[i]).0@ == order@[i]@
            &&& forall|i: int|
                0 <= i < listed@.len() ==> if (#[trigger] listed@[i]).0@ == start {
                    listed@[i].1@ == start
                } else {
                    &&& listed@[i].1@ != listed@[i].0@
                    &&& paths::dominates(edges, start, listed@[i].1@, listed@[i].0@)
                    &&& forall|z: N::V|
                        z != listed@[i].0@ && #[trigger] paths::dominates(
                            edges,
                            start,
                            z,
                            listed@[i].0@,
                        ) ==> paths::dominates(edges, start, z, listed@[i].1@)
                }
        }),
{
    let edges = model::edge_set(flow_graph.graph@);
    let start = flow_graph.start_node@;
    let shown = node::shown(order@);
    assert(shown.len() == order@.len());
    assert forall|i: int| 0 <= i < listed@.len() implies (#[trigger] listed@[i]).0@
        == order@[i]@ by {
        assert(shown[i] == order@[i]@);
    }
    assert forall|i: int| 0 <= i < listed@.len() implies if (#[trigger] listed@[i]).0@ == start {
        listed@[i].1@ == start
    } else {
        &&& listed@[i].1@ != listed@[i].0@
        &&& paths::dominates(edges, start, listed@[i].1@, listed@[i].0@)
        &&& forall|z: N::V|
            z != listed@[i].0@ && #[trigger] paths::dominates(
                edges,
                start,
                z,
                listed@[i].0@,
            ) ==> paths::dominates(edges, start, z, listed@[i].1@)
    } by {
        assert(shown[i] == listed@[i].0@);
        assert(shown.contains(shown[i]));
        if listed@[i].0@ != start {
            dominance::lemma_immediate_dominator(edges, start, listed@[i].1@, listed@[i].0@);
        }
    }
}

/// The lowest common ancestor: following the parent links leads to it from each of the nodes, and
/// from it to whatever else they lead to from each of them.
pub proof fn lemma_lowest_common_ancestor(
    targets: &Vec<Index>,
    parents: &Vec<Option<Index>>,
    lca: Index,
    other: int,
)
    requires
        immediate::is_upward_tree(parents@),
        forall|i: int| 0 <= i < targets@.len() ==> (#[trigger] targets@[i]) < parents@.len(),
        call_ensures(immediate::find_lowest_common_ancestor, (targets, parents), lca),
    ensures
        lca < parents@.len(),
        forall|i: int|
            0 <= i < targets@.len() ==> dominance::links_lead_to(
                parents@,
                lca as int,
                #[trigger] targets@[i] as int,
            ),
        (forall|i: int|
            0 <= i < targets@.len() ==> dominance::links_lead_to(
                parents@,
                other,
                #[trigger] targets@[i] as int,
            )) ==> {
            &&& lca <= other
            &&& dominance::links_lead_to(parents@, other, lca as int)
        },
{
    assert forall|i: int| 0 <= i < targets@.len() implies dominance::links_lead_to(
        parents@,
        lca as int,
        #[trigger] targets@[i] as int,
    ) by {
        assert(immediate::is_ancestor(parents@, lca as int, targets@[i] as int));
        dominance::lemma_ancestor(parents@, lca as int, targets@[i] as int);
    }
    if forall|i: int|
        0 <= i < targets@.len() ==> dominance::links_lead_to(
            parents@,
            other,
            #[trigger] targets@[i] as int,
        ) {
        assert forall|i: int| 0 <= i < targets@.len() implies immediate::is_ancestor(
            parents@,
            other,
            #[trigger] targets@[i] as int,
        ) by {
            dominance::lemma_ancestor(parents@, other, targets@[i] as int);
        }
        dominance::lemma_lowest_common_ancestor(parents@, lca as int, targets@, other);
        dominance::lemma_ancestor(parents@, other, lca as int);
    }
}

/// Following the parent links from a node leads to its dominators and to nothing else, where the
/// edges are those from the listed predecessors and the entry is the last node.
pub proof fn lemma_numbered_dominators(
    adj: &Vec<Vec<Index>>,
    rev_adj: &Vec<Vec<Index>>,
    parents: Vec<Option<Index>>,
    edges: Set<(int, int)>,
    dom: int,
    node: int,
)
    requires
        forall|p: int, u: int| #[trigger]
            edges.contains((p, u)) <==> 0 <= u < rev_adj@.len() && exists|k: int|
                0 <= k < rev_adj@[u]@.len() && #[trigger] rev_adj@[u]@[k] == p,
        0 <= dom < rev_adj@.len(),
        0 <= node < rev_adj@.len(),
        call_ensures(immediate::get_immediate_dominators_internal, (adj, rev_adj), parents),
    ensures
        parents@.len() == rev_adj@.len(),
        dominance::links_lead_to(parents@, dom, node) <==> paths::dominates(
            edges,
            rev_adj@.len() - 1,
            dom,
            node,
        ),
{
    let listed = immediate::pred_edges(rev_adj@);
    assert forall|e: (int, int)| listed.contains(e) <==> edges.contains(e) by {
        assert(edges.contains((e.0, e.1)) <==> 0 <= e.1 < rev_adj@.len() && exists|k: int|
            0 <= k < rev_adj@[e.1]@.len() && #[trigger] rev_adj@[e.1]@[k] == e.0);
    }
    assert(listed =~= edges);
    dominance::lemma_ancestor(parents@, dom, node);
    assert(immediate::is_ancestor(parents@, dom, node) <==> immediate::dominates(
        rev_adj@,
        dom,
        node,
    ));
}

/// A check fails just if what it is for does not hold, with the given message.
pub proof fn lemma_check(predicate: bool, msg: &str, result: Result<(), ConvergeError>)
    requires
        call_ensures(error::validate, (predicate, msg), result),
    ensures
        predicate <==> result is Ok,
        !predicate ==> (result matches Err(ConvergeError::Other(text)) && text@ == msg@),
{
}

/// Two nodes intersect at the lowest common ancestor of both.
pub proof fn lemma_intersection(
    b1: Index,
    b2: Index,
    both: &Vec<Index>,
    parents: &Vec<Option<Index>>,
    met: Index,
    lca: Index,
)
    requires
        both@ == seq![b1, b2],
        call_ensures(immediate::intersect, (b1, b2, parents), met),
        call_ensures(immediate::find_lowest_common_ancestor, (both, parents), lca),
    ensures
        met == lca,
{
    dominance::lemma_lowest_of_two(parents@, met as int, b1, b2);
    dominance::lemma_lowest_of_two(parents@, lca as int, b1, b2);
    assert(immediate::is_common_ancestor(parents@, met as int, both@));
    assert(immediate::is_common_ancestor(parents@, lca as int, both@));
    assert(immediate::is_ancestor(parents@, met as int, lca as int));
    assert(immediate::is_ancestor(parents@, lca as int, met as int));
}

/// One of the commits has the identifier.
pub open spec fn holds_id(commits: Seq<Commit>, id: Seq<u8>) -> bool {
    exists|k: int| 0 <= k < commits.len() && (#[trigger] commits[k])@.id == id
}

/// Where there are two commits with the same change-id and different identifiers, the change is
/// divergent and both are listed under it. Every commit that is listed under a change is one of
/// the given ones, and there are two such commits for each change.
pub proof fn lemma_divergent_changes(
    commits: Vec<Commit>,
    found: CommitsByChangeId,
    change_id: &ChangeId,
    listed: Option<&Vec<Commit>>,
)
    requires
        call_ensures(changes::find_divergent_changes, (commits,), found),
        call_ensures(CommitsByChangeId::get, (&found, change_id), listed),
    ensures
        listed is Some <==> exists|i: int, j: int|
            0 <= i < commits@.len() && 0 <= j < commits@.len() && (
            #[trigger] commits@[i])@.change_id == change_id@ && (#[trigger] commits@[j])@.change_id
                == change_id@ && commits@[i]@.id != commits@[j]@.id,
        listed matches Some(listed) ==> {
            &&& forall|i: int|
                0 <= i < commits@.len() && (#[trigger] commits@[i])@.change_id == change_id@
                    ==> holds_id(listed@, commits@[i]@.id)
            &&& forall|k: int|
                0 <= k < listed@.len() ==> exists|i: int|
                    0 <= i < commits@.len() && (#[trigger] commits@[i])@.change_id == change_id@
                        && commits@[i]@.id == (#[trigger] listed@[k])@.id
            &&& forall|k: int, l: int|
                0 <= k < l < listed@.len() ==> (#[trigger] listed@[k])@.id != (
                #[trigger] listed@[l])@.id
        },
{
    let shown = node::shown(commits@);
    let change = change_id@;
    assert(shown.len() == commits@.len());
    assert(forall|i: int| 0 <= i < commits@.len() ==> shown[i] == (#[trigger] commits@[i])@);
    laws_of_changes::lemma_two_commits_make_a_divergent_change(shown);
    if listed is Some {
        let (i, j) = choose|i: int, j: int|
            0 <= i < shown.len() && 0 <= j < shown.len() && (#[trigger] shown[i]).change_id
                == change && (#[trigger] shown[j]).change_id == change && shown[i].id
                != shown[j].id;
        assert(commits@[i]@ == shown[i] && commits@[j]@ == shown[j]);
        laws_of_changes::lemma_commits_of_a_divergent_change(shown, change);
        let list = listed->0@;
        assert forall|k: int, l: int| 0 <= k < l < list.len() implies (#[trigger] list[k])@.id != (
        #[trigger] list[l])@.id by {
            laws_of_changes::lemma_distinct_commits(list, k, l);
        }
        assert forall|a: int, b: int| 0 <= a < list.len() && 0 <= b < list.len() && a != b implies (
        #[trigger] list[a]).id@ != (#[trigger] list[b]).id@ by {
            if a < b {
                laws_of_changes::lemma_distinct_commits(list, a, b);
            } else {
                laws_of_changes::lemma_distinct_commits(list, b, a);
            }
        }
        laws_of_changes::lemma_commits_by_id(list);
        assert forall|i: int|
            0 <= i < commits@.len() && (#[trigger] commits@[i])@.change_id
                == change implies holds_id(list, commits@[i]@.id) by {
            assert(shown[i].change_id == change && shown[i].id == commits@[i]@.id);
            assert(found@[change].contains_key(shown[i].id));
            assert(changes::by_id(list).contains_key(commits@[i]@.id));
            let k = choose|k: int|
                0 <= k < list.len() && (#[trigger] list[k]).id@ == commits@[i]@.id;
            assert(list[k]@.id == commits@[i]@.id);
        }
        assert forall|k: int| 0 <= k < list.len() implies exists|i: int|
            0 <= i < commits@.len() && (#[trigger] commits@[i])@.change_id == change
                && commits@[i]@.id == (#[trigger] list[k])@.id by {
            assert(changes::by_id(list).contains_key(list[k].id@));
            assert(found@[change].contains_key(list[k]@.id));
            let i = choose|i: int|
                0 <= i < shown.len() && (#[trigger] shown[i]).change_id == change && shown[i].id
                    == list[k]@.id;
            assert(commits@[i]@ == shown[i]);
        }
    }
    if exists|i: int, j: int|
        0 <= i < commits@.len() && 0 <= j < commits@.len() && (#[trigger] commits@[i])@.change_id
            == change_id@ && (#[trigger] commits@[j])@.change_id == change_id@ && commits@[i]@.id
            != commits@[j]@.id {
        let (i, j) = choose|i: int, j: int|
            0 <= i < commits@.len() && 0 <= j < commits@.len() && (
            #[trigger] commits@[i])@.change_id == change_id@ && (
            #[trigger] commits@[j])@.change_id == change_id@ && commits@[i]@.id
                != commits@[j]@.id;
        assert(shown[i].change_id == shown[j].change_id && shown[i].id != shown[j].id);
    }
}

/// The user is asked to choose a change only if there are several.
pub proof fn lemma_chosen_change<'a, U: ConvergeUI + ?Sized>(
    converge_ui: Option<&U>,
    found: &'a CommitsByChangeId,
    len: usize,
    empty: bool,
    keys: Vec<&'a ChangeId>,
    chosen: Result<Option<&'a ChangeId>, ConvergeError>,
)
    requires
        call_ensures(CommitsByChangeId::len, (found,), len),
        call_ensures(CommitsByChangeId::is_empty, (found,), empty),
        call_ensures(CommitsByChangeId::keys, (found,), keys),
        call_ensures(changes::choose_change::<U>, (converge_ui, found), chosen),
    ensures
        len == keys@.len(),
        empty <==> len == 0,
        len == 0 ==> (chosen matches Ok(None)),
        len == 1 ==> (chosen matches Ok(Some(change_id)) && change_id@ == keys@[0]@),
        len > 1 && converge_ui is None ==> (chosen matches Ok(None)),
        len > 1 && converge_ui is Some ==> call_ensures(
            U::choose_change,
            (converge_ui->Some_0, found),
            chosen,
        ),
{
    let shown = node::shown(keys@);
    shown.unique_seq_to_set();
    assert(shown.len() == keys@.len());
    if len == 1 {
        assert(shown[0] == keys@[0]@);
        assert(shown.contains(keys@[0]@));
        assert(found@.dom().contains(keys@[0]@));
    }
    if len == 0 {
        assert(found@.dom() =~= Set::<Seq<u8>>::empty());
    }
}

/// The dominator value of some nodes: the closest value that all steps between values, from that of
/// the start to theirs, lead through.
pub proof fn lemma_dominator_value<N: Node, T: Node>(
    flow_graph: &FlowGraph<N>,
    start: int,
    targets: &Vec<N>,
    values: &Vec<T>,
    dominator: Option<T>,
    edges: Set<(T::V, T::V)>,
    shown: Seq<T::V>,
)
    requires
        model::is_simple(flow_graph.graph@),
        model::is_canonical(flow_graph.graph@),
        values@.len() == flow_graph.graph@.len(),
        0 <= start < flow_graph.graph@.len(),
        flow_graph.graph@[start].0 == flow_graph.start_node@,
        laws_of_values::are_value_steps(flow_graph.graph@, node::shown(values@), edges),
        laws_of_values::are_values_of(
            flow_graph.graph@,
            node::shown(values@),
            node::shown(targets@),
            shown,
        ),
        call_ensures(FlowGraph::<N>::find_dominator_value::<T>, (flow_graph, targets, values), dominator),
    ensures
        dominator is Some <==> targets@.len() > 0 && forall|i: int|
            0 <= i < values@.len() ==> paths::reaches(
                edges,
                values@[start]@,
                (#[trigger] values@[i])@,
            ),
        dominator matches Some(value) ==> paths::is_closest_common_dominator(
            edges,
            values@[start]@,
            value@,
            shown,
        ),
{
    let graph = flow_graph.graph@;
    let all = node::shown(values@);
    let wanted = node::shown(targets@);
    assert(all.len() == values@.len());
    assert(all[start] == values@[start]@);
    laws_of_values::lemma_values_reached(graph, start, all, edges);
    if let Some(value) = dominator {
        laws_of_values::lemma_dominator_value(graph, start, all, wanted, value@, edges, shown);
    }
    assert(model::has_node(graph, graph[start].0));
    assert forall|i: int| 0 <= i < targets@.len() implies model::has_node(
        graph,
        #[trigger] targets@[i]@,
    ) by {
        assert(wanted[i] == targets@[i]@);
    }
    if forall|i: int| 0 <= i < all.len() ==> paths::reaches(edges, all[start], #[trigger] all[i]) {
        assert forall|i: int| 0 <= i < values@.len() implies paths::reaches(
            edges,
            values@[start]@,
            (#[trigger] values@[i])@,
        ) by {
            assert(paths::reaches(edges, all[start], all[i]));
        }
    }
    if forall|i: int|
        0 <= i < values@.len() ==> paths::reaches(
            edges,
            values@[start]@,
            (#[trigger] values@[i])@,
        ) {
        assert forall|i: int| 0 <= i < all.len() implies paths::reaches(
            edges,
            all[start],
            #[trigger] all[i],
        ) by {
            assert(paths::reaches(edges, values@[start]@, values@[i]@));
        }
    }
}

/// Copies stand for what they are copies of.
pub proof fn lemma_copies<N: Node>(
    entry: &CommitEvolutionEntry,
    same_entry: CommitEvolutionEntry,
    found: &CommitsByChangeId,
    same_changes: CommitsByChangeId,
    flow_graph: &FlowGraph<N>,
    same_flow_graph: FlowGraph<N>,
)
    requires
        call_ensures(CommitEvolutionEntry::duplicate, (entry,), same_entry),
        call_ensures(CommitsByChangeId::clone, (found,), same_changes),
        call_ensures(FlowGraph::<N>::clone, (flow_graph,), same_flow_graph),
    ensures
        same_entry.commit@ == entry.commit@,
        same_entry.predecessors@.len() == entry.predecessors@.len(),
        forall|i: int|
            0 <= i < entry.predecessors@.len() ==> (#[trigger] same_entry.predecessors@[i])@
                == entry.predecessors@[i]@,
        same_changes@ == found@,
        same_flow_graph.graph@ == flow_graph.graph@,
        same_flow_graph.start_node@ == flow_graph.start_node@,
{
    texts::lemma_entries(same_entry, *entry);
}

} // verus!
