//! What reachability, dominance and ancestry mean.
use vstd::prelude::*;

use crate::dominators;
use crate::graph::FlowGraph;
use crate::immediate;
use crate::immediate::Index;
use crate::model;
use crate::node::Node;
use crate::paths;
use crate::postorder;

verus! {

/// `nodes` holds `from`, and the end of every edge that starts in it.
pub open spec fn is_closed_from<A>(edges: Set<(A, A)>, from: A, nodes: Set<A>) -> bool {
    &&& nodes.contains(from)
    &&& forall|x: A, y: A| nodes.contains(x) && #[trigger] edges.contains((x, y)) ==> nodes.contains(
        y,
    )
}

/// The nodes along a path stay in a closed set.
proof fn lemma_stays_in<A>(edges: Set<(A, A)>, from: A, nodes: Set<A>, path: Seq<A>, i: int)
    requires
        is_closed_from(edges, from, nodes),
        paths::is_path(edges, path),
        path[0] == from,
        0 <= i < path.len(),
    ensures
        nodes.contains(path[i]),
    decreases i,
{
    if i > 0 {
        lemma_stays_in(edges, from, nodes, path, i - 1);
        assert(edges.contains((path[i - 1], path[i])));
    }
}

/// A node is reached just if it is in every set that holds the first node and the end of every
/// edge that starts in it.
pub proof fn lemma_reached<A>(edges: Set<(A, A)>, from: A, to: A)
    ensures
        paths::reaches(edges, from, to) <==> forall|nodes: Set<A>| #[trigger]
            is_closed_from(edges, from, nodes) ==> nodes.contains(to),
{
    if paths::reaches(edges, from, to) {
        let path = choose|path: Seq<A>| paths::is_path_between(edges, from, to, path);
        assert forall|nodes: Set<A>| #[trigger]
            is_closed_from(edges, from, nodes) implies nodes.contains(to) by {
            lemma_stays_in(edges, from, nodes, path, path.len() - 1);
        }
    }
    if forall|nodes: Set<A>| #[trigger]
        is_closed_from(edges, from, nodes) ==> nodes.contains(to) {
        let nodes = Set::new(|x: A| paths::reaches(edges, from, x));
        paths::lemma_trivial_path(edges, from);
        assert forall|x: A, y: A|
            nodes.contains(x) && #[trigger] edges.contains((x, y)) implies nodes.contains(y) by {
            let path = choose|path: Seq<A>| paths::is_path_between(edges, from, x, path);
            paths::lemma_extend_path(edges, from, x, y, path);
        }
        assert(is_closed_from(edges, from, nodes));
        assert(nodes.contains(to));
    }
}

/// The edges that neither start nor end at `node`.
pub open spec fn edges_without<A>(edges: Set<(A, A)>, node: A) -> Set<(A, A)> {
    edges.filter(|edge: (A, A)| edge.0 != node && edge.1 != node)
}

/// A node dominates another one just if it is one of the two ends, or if there is no way from the
/// entry to the other one when it is taken out.
pub proof fn lemma_dominates<A>(edges: Set<(A, A)>, entry: A, dom: A, node: A)
    ensures
        paths::dominates(edges, entry, dom, node) <==> {
            ||| dom == entry
            ||| dom == node
            ||| !paths::reaches(edges_without(edges, dom), entry, node)
        },
{
    let rest = edges_without(edges, dom);
    if dom == entry {
        paths::lemma_entry_dominates(edges, entry, node);
    }
    if dom == node {
        paths::lemma_dominates_itself(edges, entry, node);
    }
    if dom != entry && dom != node {
        if paths::reaches(rest, entry, node) {
            let path = choose|path: Seq<A>| paths::is_path_between(rest, entry, node, path);
            assert(paths::is_path_between(edges, entry, node, path)) by {
                assert forall|i: int, j: int|
                    #![trigger path[i], path[j]]
                    0 <= i && j == i + 1 && j < path.len() implies edges.contains(
                    (path[i], path[j]),
                ) by {
                    assert(rest.contains((path[i], path[j])));
                }
            }
            if path.contains(dom) {
                let i = choose|i: int| 0 <= i < path.len() && path[i] == dom;
                assert(i > 0);
                assert(rest.contains((path[i - 1], path[i])));
            }
        }
        if !paths::dominates(edges, entry, dom, node) {
            let path = choose|path: Seq<A>| #[trigger]
                paths::is_path_between(edges, entry, node, path) && !path.contains(dom);
            assert(paths::is_path_between(rest, entry, node, path)) by {
                assert forall|i: int, j: int|
                    #![trigger path[i], path[j]]
                    0 <= i && j == i + 1 && j < path.len() implies rest.contains(
                    (path[i], path[j]),
                ) by {
                    assert(edges.contains((path[i], path[j])));
                    assert(path.contains(path[i]) && path.contains(path[j]));
                }
            }
        }
    }
}

/// The closest common dominator of some nodes dominates all of them, and whatever else dominates
/// all of them dominates it.
pub proof fn lemma_closest_common_dominator<A>(
    edges: Set<(A, A)>,
    entry: A,
    dom: A,
    nodes: Seq<A>,
)
    requires
        nodes.len() > 0,
        paths::reaches(edges, entry, nodes[0]),
    ensures
        paths::is_closest_common_dominator(edges, entry, dom, nodes) <==> {
            &&& forall|i: int|
                0 <= i < nodes.len() ==> paths::dominates(edges, entry, dom, #[trigger] nodes[i])
            &&& forall|z: A|
                (forall|i: int|
                    0 <= i < nodes.len() ==> paths::dominates(edges, entry, z, #[trigger] nodes[i]))
                    ==> #[trigger] paths::dominates(edges, entry, z, dom)
        },
{
    paths::lemma_closest_is_lowest(edges, entry, dom, nodes);
    if paths::is_closest_common_dominator(edges, entry, dom, nodes) {
        assert forall|z: A|
            (forall|i: int|
                0 <= i < nodes.len() ==> paths::dominates(edges, entry, z, #[trigger] nodes[i]))
                implies #[trigger] paths::dominates(edges, entry, z, dom) by {
            assert(paths::is_common_dominator(edges, entry, z, nodes));
        }
    }
    if (forall|i: int|
        0 <= i < nodes.len() ==> paths::dominates(edges, entry, dom, #[trigger] nodes[i])) && (
    forall|z: A|
        (forall|i: int|
            0 <= i < nodes.len() ==> paths::dominates(edges, entry, z, #[trigger] nodes[i]))
            ==> #[trigger] paths::dominates(edges, entry, z, dom)) {
        assert forall|z: A| #[trigger]
            paths::is_common_dominator(edges, entry, z, nodes) implies paths::dominates(
            edges,
            entry,
            z,
            dom,
        ) by {
            assert(forall|i: int|
                0 <= i < nodes.len() ==> paths::dominates(edges, entry, z, #[trigger] nodes[i]));
        }
        assert(paths::is_common_dominator(edges, entry, dom, nodes));
    }
}

/// The immediate dominator of a node is another node that dominates it, and whatever else does
/// dominates the immediate one.
pub proof fn lemma_immediate_dominator<A>(edges: Set<(A, A)>, entry: A, dom: A, node: A)
    requires
        paths::reaches(edges, entry, node),
    ensures
        paths::is_immediate_dominator(edges, entry, dom, node) <==> {
            &&& dom != node
            &&& paths::dominates(edges, entry, dom, node)
            &&& forall|z: A|
                z != node && #[trigger] paths::dominates(edges, entry, z, node)
                    ==> paths::dominates(edges, entry, z, dom)
        },
{
    paths::lemma_immediate_is_lowest(edges, entry, dom, node);
    assert forall|z: A| #[trigger]
        paths::strictly_dominates(edges, entry, z, node) <==> z != node && paths::dominates(
            edges,
            entry,
            z,
            node,
        ) by {}
    if paths::is_immediate_dominator(edges, entry, dom, node) {
        assert forall|z: A|
            z != node && #[trigger] paths::dominates(
                edges,
                entry,
                z,
                node,
            ) implies paths::dominates(edges, entry, z, dom) by {
            assert(paths::strictly_dominates(edges, entry, z, node));
        }
    }
}

/// A flow graph is valid just if its start is a node, and every set of nodes that holds the start
/// and whatever is adjacent to its nodes holds all nodes.
pub proof fn lemma_valid_flow_graph<K>(graph: Seq<(K, Seq<K>)>, start: K)
    ensures
        dominators::is_valid_flow_graph(graph, start) <==> {
            &&& model::has_node(graph, start)
            &&& forall|nodes: Set<K>, i: int|
                #[trigger]
                is_closed_from(model::edge_set(graph), start, nodes) && 0 <= i < graph.len()
                    ==> nodes.contains((#[trigger] graph[i]).0)
        },
{
    let edges = model::edge_set(graph);
    if dominators::is_valid_flow_graph(graph, start) {
        assert forall|nodes: Set<K>, i: int|
            #[trigger]
            is_closed_from(edges, start, nodes) && 0 <= i < graph.len() implies nodes.contains(
            (#[trigger] graph[i]).0,
        ) by {
            assert(model::has_node(graph, graph[i].0));
            lemma_reached(edges, start, graph[i].0);
        }
    }
    if model::has_node(graph, start) && forall|nodes: Set<K>, i: int|
        #[trigger]
        is_closed_from(edges, start, nodes) && 0 <= i < graph.len() ==> nodes.contains(
            (#[trigger] graph[i]).0,
        ) {
        assert forall|k: K| #[trigger] model::has_node(graph, k) implies paths::reaches(
            edges,
            start,
            k,
        ) by {
            let i = choose|i: int| 0 <= i < graph.len() && (#[trigger] graph[i]).0 == k;
            lemma_reached(edges, start, graph[i].0);
        }
    }
}

/// Graphs are equal just if they have the same nodes and the same edges. Flow graphs have the same
/// start besides.
pub proof fn lemma_equal_graphs<N: Node>(a: &FlowGraph<N>, b: &FlowGraph<N>)
    ensures
        vstd::std_specs::cmp::PartialEqSpec::eq_spec(&a.graph, &b.graph) <==> {
            &&& forall|k: N::V| #[trigger]
                model::has_node(a.graph@, k) <==> model::has_node(b.graph@, k)
            &&& forall|u: N::V, v: N::V| #[trigger]
                model::has_edge(a.graph@, u, v) <==> model::has_edge(b.graph@, u, v)
        },
        vstd::std_specs::cmp::PartialEqSpec::eq_spec(a, b) <==> {
            &&& vstd::std_specs::cmp::PartialEqSpec::eq_spec(&a.graph, &b.graph)
            &&& a.start_node@ == b.start_node@
        },
{
}

/// A listing in postorder holds what the start leads to, each node once and the start last. Of the
/// ends of an edge the child comes first, unless it leads back to its parent.
pub proof fn lemma_postorder_listing<K>(graph: Seq<(K, Seq<K>)>, start: K, order: Seq<K>)
    requires
        postorder::is_postorder_listing(graph, start, order),
    ensures
        order.len() > 0 && order[order.len() - 1] == start,
        forall|i: int, j: int| 0 <= i < j < order.len() ==> #[trigger] order[i] != #[trigger] order[j],
        forall|k: K|
            paths::reaches(model::edge_set(graph), start, k) <==> exists|i: int|
                0 <= i < order.len() && #[trigger] order[i] == k,
        forall|i: int, j: int|
            0 <= i < order.len() && 0 <= j < order.len() && i < j && #[trigger] model::has_edge(
                graph,
                order[i],
                order[j],
            ) ==> paths::reaches(model::edge_set(graph), order[j], order[i]),
        forall|i: int|
            0 <= i < order.len() - 1 ==> exists|j: int|
                i < j < order.len() && model::has_edge(
                    graph,
                    #[trigger] order[j],
                    #[trigger] order[i],
                ),
{
    assert forall|k: K|
        paths::reaches(model::edge_set(graph), start, k) <==> exists|i: int|
            0 <= i < order.len() && #[trigger] order[i] == k by {
        assert(order.contains(k) <==> paths::reaches(model::edge_set(graph), start, k));
    }
    assert forall|i: int, j: int|
        0 <= i < order.len() && 0 <= j < order.len() && i < j && #[trigger] model::has_edge(
            graph,
            order[i],
            order[j],
        ) implies paths::reaches(model::edge_set(graph), order[j], order[i]) by {
        if exists|k: int| 0 <= k < i && #[trigger] order[k] == order[j] {
            let k = choose|k: int| 0 <= k < i && #[trigger] order[k] == order[j];
            assert(order[k] == order[j]);
        }
    }
}

/// The parent link of `node` leads to `next`.
pub open spec fn is_link(parents: Seq<Option<Index>>, node: int, next: int) -> bool {
    0 <= node < parents.len() && parents[node] is Some && parents[node]->0 == next
}

/// `chain` follows the parent links from `node` to `ancestor`.
pub open spec fn is_chain(
    parents: Seq<Option<Index>>,
    ancestor: int,
    node: int,
    chain: Seq<int>,
) -> bool {
    &&& chain.len() > 0
    &&& chain[0] == node
    &&& chain.last() == ancestor
    &&& forall|i: int, j: int|
        #![trigger chain[i], chain[j]]
        0 <= i && j == i + 1 && j < chain.len() ==> is_link(parents, chain[i], chain[j])
}

/// Following the parent links leads from `node` to `ancestor`.
pub open spec fn links_lead_to(parents: Seq<Option<Index>>, ancestor: int, node: int) -> bool {
    exists|chain: Seq<int>| is_chain(parents, ancestor, node, chain)
}

/// The ancestors of a node are those that following the parent links leads to.
pub proof fn lemma_ancestor(parents: Seq<Option<Index>>, ancestor: int, node: int)
    requires
        immediate::is_upward_tree(parents),
        0 <= node < parents.len(),
    ensures
        immediate::is_ancestor(parents, ancestor, node) <==> links_lead_to(
            parents,
            ancestor,
            node,
        ),
{
    if immediate::is_ancestor(parents, ancestor, node) {
        let chain = lemma_chain(parents, ancestor, node);
        assert(is_chain(parents, ancestor, node, chain));
    }
    if links_lead_to(parents, ancestor, node) {
        let chain = choose|chain: Seq<int>| is_chain(parents, ancestor, node, chain);
        lemma_end_of_chain(parents, ancestor, node, chain);
    }
}

/// The links that lead to an ancestor.
proof fn lemma_chain(parents: Seq<Option<Index>>, ancestor: int, node: int) -> (chain: Seq<int>)
    requires
        immediate::is_ancestor(parents, ancestor, node),
    ensures
        is_chain(parents, ancestor, node, chain),
    decreases ancestor - node,
{
    if ancestor == node {
        let chain = seq![node];
        assert(chain.last() == node);
        assert(chain[0] == node);
        chain
    } else {
        let rest = lemma_chain(parents, ancestor, parents[node]->0 as int);
        let chain = seq![node] + rest;
        assert(chain.last() == rest.last());
        assert(chain[0] == node);
        assert forall|i: int, j: int|
            #![trigger chain[i], chain[j]]
            0 <= i && j == i + 1 && j < chain.len() implies is_link(
            parents,
            chain[i],
            chain[j],
        ) by {
            assert(chain[j] == rest[j - 1]);
            if i > 0 {
                assert(chain[i] == rest[i - 1]);
            }
        }
        chain
    }
}

/// The links lead to an ancestor.
proof fn lemma_end_of_chain(
    parents: Seq<Option<Index>>,
    ancestor: int,
    node: int,
    chain: Seq<int>,
)
    requires
        immediate::is_upward_tree(parents),
        0 <= node < parents.len(),
        is_chain(parents, ancestor, node, chain),
    ensures
        immediate::is_ancestor(parents, ancestor, node),
        ancestor >= node,
    decreases chain.len(),
{
    if chain.len() > 1 {
        let next = chain[1];
        let rest = chain.skip(1);
        assert(is_link(parents, chain[0], chain[1]));
        assert forall|i: int, j: int|
            #![trigger rest[i], rest[j]]
            0 <= i && j == i + 1 && j < rest.len() implies is_link(
            parents,
            rest[i],
            rest[j],
        ) by {
            assert(rest[i] == chain[i + 1] && rest[j] == chain[j + 1]);
        }
        assert(rest.last() == chain.last());
        if node < parents.len() - 1 {
            assert(immediate::leads_up(parents, node));
        }
        lemma_end_of_chain(parents, ancestor, next, rest);
    }
}

/// The lowest common ancestor has the lowest number of all nodes that following the links from
/// each of the given ones leads to.
pub proof fn lemma_lowest_common_ancestor(
    parents: Seq<Option<Index>>,
    lca: int,
    nodes: Seq<Index>,
    other: int,
)
    requires
        immediate::is_lowest_of_all(parents, lca, nodes),
        forall|i: int|
            0 <= i < nodes.len() ==> immediate::is_ancestor(
                parents,
                other,
                #[trigger] nodes[i] as int,
            ),
    ensures
        forall|i: int|
            0 <= i < nodes.len() ==> immediate::is_ancestor(
                parents,
                lca,
                #[trigger] nodes[i] as int,
            ),
        immediate::is_ancestor(parents, other, lca),
        lca <= other,
{
    assert(immediate::is_common_ancestor(parents, other, nodes));
}

/// The lowest common ancestor of two nodes is that of the list of both.
pub proof fn lemma_lowest_of_two(parents: Seq<Option<Index>>, lca: int, a: Index, b: Index)
    ensures
        immediate::is_lowest_common_ancestor(parents, lca, a as int, b as int)
            <==> immediate::is_lowest_of_all(parents, lca, seq![a, b]),
{
    let both = seq![a, b];
    assert(both[0] == a && both[1] == b);
    assert forall|z: int| #[trigger]
        immediate::is_common_ancestor(parents, z, both) <==> immediate::is_ancestor(
            parents,
            z,
            a as int,
        ) && immediate::is_ancestor(parents, z, b as int) by {
        if immediate::is_common_ancestor(parents, z, both) {
            assert(immediate::is_ancestor(parents, z, both[0] as int));
            assert(immediate::is_ancestor(parents, z, both[1] as int));
        }
    }
    if immediate::is_lowest_of_all(parents, lca, both) {
        assert forall|z: int| #[trigger]
            immediate::is_ancestor(parents, z, a as int) && immediate::is_ancestor(
                parents,
                z,
                b as int,
            ) implies immediate::is_ancestor(parents, z, lca) by {
            assert(immediate::is_common_ancestor(parents, z, both));
        }
    }
}

} // verus!
