//! The part of a graph that a node leads to.
use vstd::prelude::*;

use crate::adjacency::AdjacencyMap;
use crate::dominators;
use crate::graph::SimpleDirectedGraph;
use crate::model;
use crate::node;
use crate::node::Node;
use crate::paths;

verus! {

/// The entries of those nodes that `start` leads to.
pub open spec fn part_from<K>(graph: Seq<(K, Seq<K>)>, start: K) -> Seq<(K, Seq<K>)> {
    graph.filter(
        |entry: (K, Seq<K>)| paths::reaches(model::edge_set(graph), start, entry.0),
    )
}

/// Leaving out entries leaves the other ones as they are.
proof fn lemma_filtered<K>(graph: Seq<(K, Seq<K>)>, keep: spec_fn((K, Seq<K>)) -> bool)
    requires
        model::is_simple(graph),
    ensures
        model::is_simple(graph.filter(keep)),
        forall|k: K| #[trigger]
            model::has_node(graph.filter(keep), k) <==> model::has_node(graph, k) && keep(
                (k, model::children(graph, k)),
            ),
        forall|k: K|
            model::has_node(graph.filter(keep), k) ==> #[trigger] model::children(
                graph.filter(keep),
                k,
            ) == model::children(graph, k),
    decreases graph.len(),
{
    reveal(Seq::filter);
    if graph.len() > 0 {
        let init = graph.drop_last();
        let last = graph.last();
        let inner = init.filter(keep);
        let result = graph.filter(keep);
        model::lemma_drop_last(graph);
        lemma_filtered(init, keep);
        assert(graph[graph.len() - 1] == last);
        if keep(last) {
            assert(!model::has_node(inner, last.0));
            model::lemma_push_entry(inner, last);
        }
        assert forall|k: K| #[trigger]
            model::has_node(result, k) <==> model::has_node(graph, k) && keep(
                (k, model::children(graph, k)),
            ) by {
            assert(model::has_node(inner, k) <==> model::has_node(init, k) && keep(
                (k, model::children(init, k)),
            ));
            if k == last.0 {
                assert((k, model::children(graph, k)) == last);
            } else {
                assert(model::children(init, k) == model::children(graph, k));
            }
        }
        assert forall|k: K| model::has_node(result, k) implies #[trigger] model::children(
            result,
            k,
        ) == model::children(graph, k) by {
            if k != last.0 {
                assert(model::has_node(inner, k));
                assert(model::children(inner, k) == model::children(init, k));
                assert(model::children(init, k) == model::children(graph, k));
            }
        }
    }
}

/// The part of a graph that a node leads to: its nodes and edges. It is a valid flow graph.
pub proof fn lemma_part_from<K>(graph: Seq<(K, Seq<K>)>, start: K)
    requires
        model::is_simple(graph),
        model::is_canonical(graph),
    ensures
        model::is_simple(part_from(graph, start)),
        model::is_canonical(part_from(graph, start)),
        forall|k: K| #[trigger]
            model::has_node(part_from(graph, start), k) <==> model::has_node(graph, k)
                && paths::reaches(model::edge_set(graph), start, k),
        forall|k: K|
            model::has_node(part_from(graph, start), k) ==> #[trigger] model::children(
                part_from(graph, start),
                k,
            ) == model::children(graph, k),
        paths::is_part_from(
            model::edge_set(graph),
            start,
            model::edge_set(part_from(graph, start)),
        ),
        model::has_node(graph, start) ==> dominators::is_valid_flow_graph(
            part_from(graph, start),
            start,
        ),
{
    let edges = model::edge_set(graph);
    let part = part_from(graph, start);
    let keep = |entry: (K, Seq<K>)| paths::reaches(edges, start, entry.0);
    assert(part == graph.filter(keep));
    lemma_filtered(graph, keep);
    assert forall|k: K| #[trigger] model::has_node(part, k) <==> model::has_node(graph, k)
        && paths::reaches(edges, start, k) by {
        assert(keep((k, model::children(graph, k))) <==> paths::reaches(edges, start, k));
    }
    assert forall|u: K, v: K| #[trigger]
        model::edge_set(part).contains((u, v)) <==> edges.contains((u, v)) && paths::reaches(
            edges,
            start,
            u,
        ) by {
        if model::has_node(part, u) {
            assert(model::children(part, u) == model::children(graph, u));
        }
        assert(model::has_edge(part, u, v) ==> model::has_node(part, u));
        assert(model::has_edge(graph, u, v) ==> model::has_node(graph, u));
    }
    assert forall|i: int, j: int|
        0 <= i < part.len() && 0 <= j < part[i].1.len() implies model::has_node(
        part,
        #[trigger] part[i].1[j],
    ) by {
        let u = part[i].0;
        let v = part[i].1[j];
        model::lemma_position(part, i);
        assert(model::children(part, u).contains(v));
        assert(model::edge_set(part).contains((u, v)));
        model::lemma_edge_ends(graph, u, v);
        let path = choose|path: Seq<K>| paths::is_path_between(edges, start, u, path);
        paths::lemma_extend_path(edges, start, u, v, path);
    }
    if model::has_node(graph, start) {
        paths::lemma_trivial_path(edges, start);
        assert(model::has_node(part, start));
        assert forall|k: K| #[trigger] model::has_node(part, k) implies paths::reaches(
            model::edge_set(part),
            start,
            k,
        ) by {
            let path = choose|path: Seq<K>| paths::is_path_between(edges, start, k, path);
            paths::lemma_path_in_part(edges, start, model::edge_set(part), k, path);
        }
    }
}

impl<N: Node> SimpleDirectedGraph<N> {
    /// Returns the part of the graph that the given node leads to.
    pub fn reachable_from(&self, start_node: &N) -> (part: Self)
        ensures
            part@ == part_from(self@, start_node@),
    {
        let ghost graph = self@;
        let ghost edges = model::edge_set(graph);
        let ghost keep = |entry: (N::V, Seq<N::V>)|
            paths::reaches(model::edge_set(self@), start_node@, entry.0);
        proof {
            use_type_invariant(self);
            self.lemma_canonical_form();
        }
        let reached = self.get_postorder(start_node);
        let ghost shown_reached = node::shown(reached@);
        let nodes = self.nodes();
        let ghost shown_nodes = node::shown(nodes@);
        assert(shown_nodes.len() == graph.len());
        let mut adj: AdjacencyMap<N> = AdjacencyMap::new();
        let mut i: usize = 0;
        proof {
            reveal(Seq::filter);
            assert(graph.take(0).filter(keep) =~= Seq::<(N::V, Seq<N::V>)>::empty());
        }
        while i < nodes.len()
            invariant
                i <= nodes@.len(),
                nodes@.len() == graph.len(),
                graph == self@,
                edges == model::edge_set(graph),
                model::is_simple(graph),
                keep == (|entry: (N::V, Seq<N::V>)|
                    paths::reaches(model::edge_set(self@), start_node@, entry.0)),
                shown_nodes == node::shown(nodes@),
                shown_nodes == model::nodes(graph),
                shown_reached == node::shown(reached@),
                forall|k: N::V| #[trigger]
                    shown_reached.contains(k) <==> paths::reaches(edges, start_node@, k),
                adj.wf(),
                adj@ == graph.take(i as int).filter(keep),
            decreases nodes@.len() - i,
        {
            let node = nodes[i];
            let ghost entry = graph[i as int];
            let ghost before = graph.take(i as int);
            let place = node::place_of(&reached, node);
            proof {
                reveal(Seq::filter);
                assert(shown_nodes[i as int] == node@);
                assert(model::nodes(graph)[i as int] == entry.0);
                model::lemma_position(graph, i as int);
                assert(graph.take(i + 1).drop_last() =~= before);
                assert(graph.take(i + 1).last() == entry);
                assert(place is Some <==> shown_reached.contains(node@)) by {
                    if place is Some {
                        assert(shown_reached[place->0 as int] == node@);
                    }
                    if shown_reached.contains(node@) {
                        let j = choose|j: int|
                            0 <= j < shown_reached.len() && shown_reached[j] == node@;
                        assert(reached@[j]@ == node@);
                    }
                }
                assert(keep(entry) <==> place is Some);
            }
            if place.is_some() {
                proof {
                    lemma_prefix_simple(graph, i as int);
                    lemma_filtered(before, keep);
                    assert(!model::has_node(before, entry.0)) by {
                        if model::has_node(before, entry.0) {
                            let p = model::position(before, entry.0);
                            assert(graph[p].0 == before[p].0);
                        }
                    }
                    model::lemma_distinct(entry.1);
                    model::lemma_grow_entry(adj@, entry.0, entry.1);
                }
                let ghost kept = adj@;
                adj.add_node(node.duplicate());
                let ghost grown = adj@;
                let ghost added = model::entry_edges(entry);
                if let Some(children) = self.adjacent_nodes(node) {
                    let ghost shown = node::shown(children@);
                    assert(shown == entry.1);
                    let mut j: usize = 0;
                    assert(added.take(0) =~= Seq::<(N::V, N::V)>::empty());
                    while j < children.len()
                        invariant
                            j <= children@.len(),
                            node@ == entry.0,
                            shown == node::shown(children@),
                            shown == entry.1,
                            added == model::entry_edges(entry),
                            adj.wf(),
                            adj@ == model::with_edges(grown, added.take(j as int)),
                        decreases children@.len() - j,
                    {
                        adj.add_edge(node.duplicate(), children[j].duplicate());
                        proof {
                            assert(shown[j as int] == children@[j as int]@);
                            assert(added.take(j + 1).drop_last() =~= added.take(j as int));
                            assert(added.take(j + 1).last() == added[j as int]);
                        }
                        j = j + 1;
                    }
                    assert(added.take(j as int) =~= added);
                }
                assert(adj@ == kept.push(entry));
            }
            i = i + 1;
        }
        proof {
            assert(graph.take(i as int) =~= graph);
            lemma_part_from(graph, start_node@);
            model::lemma_canonical_is_complete(adj@);
        }
        SimpleDirectedGraph::new(adj)
    }
}

/// The first entries of a graph are those of a graph.
proof fn lemma_prefix_simple<K>(graph: Seq<(K, Seq<K>)>, n: int)
    requires
        model::is_simple(graph),
        0 <= n <= graph.len(),
    ensures
        model::is_simple(graph.take(n)),
{
    let prefix = graph.take(n);
    assert forall|i: int, j: int|
        0 <= i < prefix.len() && 0 <= j < prefix.len() && i != j implies (#[trigger] prefix[i]).0
        != (#[trigger] prefix[j]).0 by {
        assert(graph[i].0 != graph[j].0);
    }
    assert forall|i: int| 0 <= i < prefix.len() implies (#[trigger] prefix[i]).1.no_duplicates() by {
        assert(graph[i].1.no_duplicates());
    }
}

} // verus!
