//! Directed graphs and flow graphs.
use vstd::prelude::*;

use crate::adjacency::AdjacencyMap;
use crate::model;
use crate::node;
use crate::node::Node;
use crate::postorder;

verus! {

/// An immutable directed graph with nodes of type `N` and a minimal interface for iterating
/// over nodes and their adjacent nodes.
#[derive(Debug)]
pub struct SimpleDirectedGraph<N: Node> {
    /// Each node with the set of its adjacent nodes. The map is in canonical form: every
    /// adjacent node is entered as a node, even if it has no outgoing edges.
    adj: AdjacencyMap<N>,
}

impl<N: Node> View for SimpleDirectedGraph<N> {
    type V = Seq<(N::V, Seq<N::V>)>;

    closed spec fn view(&self) -> Seq<(N::V, Seq<N::V>)> {
        self.adj@
    }
}

impl<N: Node> SimpleDirectedGraph<N> {
    /// The map is well-formed and canonical. Every graph is like this.
    #[verifier::type_invariant]
    pub closed spec fn in_canonical_form(self) -> bool {
        self.adj.wf() && model::is_canonical(self.adj@)
    }

    /// What the invariant of graphs says of nodes and edges.
    pub proof fn lemma_canonical_form(&self)
        requires
            self.in_canonical_form(),
        ensures
            model::is_simple(self@),
            model::is_canonical(self@),
    {
        self.adj.lemma_simple();
    }

    /// What the numbers of nodes stand for.
    pub closed spec fn labels(&self) -> Seq<N::V> {
        self.adj.shown_labels()
    }

    /// Constructs a graph from an adjacency map. Adjacent nodes that are not entered as nodes
    /// are entered at the end.
    pub fn new(adj: AdjacencyMap<N>) -> (graph: Self)
        requires
            adj.wf(),
        ensures
            graph@ == model::completed(adj@),
    {
        let ghost given = adj@;
        proof {
            adj.lemma_simple();
            model::lemma_completed(given);
        }
        let mut adj = adj;
        let mut targets: Vec<N> = Vec::new();
        let edges = adj.edges();
        let ghost all = model::edges(given);
        let mut i: usize = 0;
        while i < edges.len()
            invariant
                i <= edges@.len(),
                node::shown(edges@) == all,
                targets@.len() == i,
                forall|j: int| 0 <= j < i ==> (#[trigger] targets@[j])@ == all[j].1,
            decreases edges@.len() - i,
        {
            let ghost shown = node::shown(edges@);
            assert(shown[i as int] == all[i as int]);
            targets.push(edges[i].1.duplicate());
            i = i + 1;
        }
        let ghost ends = all.map_values(|e: (N::V, N::V)| e.1);
        assert(node::shown(edges@).len() == all.len());
        let mut k: usize = 0;
        assert(ends.take(0) =~= Seq::<N::V>::empty());
        while k < targets.len()
            invariant
                k <= targets@.len(),
                targets@.len() == ends.len(),
                forall|j: int| 0 <= j < targets@.len() ==> (#[trigger] targets@[j])@ == ends[j],
                adj.wf(),
                adj@ == model::with_nodes(given, ends.take(k as int)),
            decreases targets@.len() - k,
        {
            adj.add_node(targets[k].duplicate());
            proof {
                assert(ends.take(k + 1).drop_last() =~= ends.take(k as int));
                assert(ends.take(k + 1).last() == ends[k as int]);
            }
            k = k + 1;
        }
        proof {
            assert(ends.take(k as int) =~= ends);
            assert(adj@ == model::completed(given));
        }
        SimpleDirectedGraph { adj }
    }

    /// Constructs a graph from a list of edges. The order of the input is preserved.
    pub fn from_edge_list(edges: Vec<(N, N)>) -> (graph: Self)
        ensures
            graph@ == model::completed(
                model::with_edges(
                    Seq::empty(),
                    node::shown(edges@),
                ),
            ),
            forall|u: N::V, v: N::V| #[trigger]
                model::has_edge(graph@, u, v) <==> node::shown(edges@).contains((u, v)),
            forall|k: N::V| #[trigger]
                model::has_node(graph@, k) <==> exists|i: int|
                    0 <= i < edges@.len() && ((#[trigger] edges@[i]).0@ == k || edges@[i].1@ == k),
    {
        let ghost shown = node::shown(edges@);
        let mut adj: AdjacencyMap<N> = AdjacencyMap::new();
        let mut i: usize = 0;
        assert(shown.take(0) =~= Seq::<(N::V, N::V)>::empty());
        while i < edges.len()
            invariant
                i <= edges@.len(),
                shown == node::shown(edges@),
                adj.wf(),
                adj@ == model::with_edges(Seq::empty(), shown.take(i as int)),
            decreases edges@.len() - i,
        {
            adj.add_edge(edges[i].0.duplicate(), edges[i].1.duplicate());
            proof {
                assert(shown.take(i + 1).drop_last() =~= shown.take(i as int));
                assert(shown.take(i + 1).last() == shown[i as int]);
            }
            i = i + 1;
        }
        proof {
            assert(shown.take(i as int) =~= shown);
            Self::lemma_edge_list(edges@, adj@);
        }
        Self::new(adj)
    }

    /// The nodes and edges of a graph made from a list of edges.
    proof fn lemma_edge_list(edges: Seq<(N, N)>, adj: Seq<(N::V, Seq<N::V>)>)
        requires
            adj == model::with_edges(
                Seq::empty(),
                node::shown(edges),
            ),
        ensures
            forall|u: N::V, v: N::V| #[trigger]
                model::has_edge(model::completed(adj), u, v) <==> node::shown(edges).contains((u, v)),
            forall|k: N::V| #[trigger]
                model::has_node(model::completed(adj), k) <==> exists|i: int|
                    0 <= i < edges.len() && ((#[trigger] edges[i]).0@ == k || edges[i].1@ == k),
    {
        let empty = Seq::<(N::V, Seq<N::V>)>::empty();
        let shown = node::shown(edges);
        let graph = model::completed(adj);
        model::lemma_with_edges(empty, shown);
        model::lemma_completed(adj);
        assert forall|u: N::V, v: N::V| #[trigger]
            model::has_edge(graph, u, v) <==> shown.contains((u, v)) by {
            assert(model::children(graph, u) == model::children(adj, u));
            assert(model::has_edge(adj, u, v) <==> model::has_edge(empty, u, v) || shown.contains(
                (u, v),
            ));
            assert(!model::has_node(empty, u));
        }
        assert forall|k: N::V| #[trigger]
            model::has_node(graph, k) <==> exists|i: int|
                0 <= i < edges.len() && ((#[trigger] edges[i]).0@ == k || edges[i].1@ == k) by {
            assert(!model::has_node(empty, k));
            assert(model::has_node(adj, k) <==> exists|i: int|
                0 <= i < shown.len() && (#[trigger] shown[i]).0 == k);
            if model::has_node(adj, k) {
                let i = choose|i: int| 0 <= i < shown.len() && (#[trigger] shown[i]).0 == k;
                assert(edges[i].0@ == k);
            }
            if exists|u: N::V| #[trigger] model::has_edge(adj, u, k) {
                let u = choose|u: N::V| #[trigger] model::has_edge(adj, u, k);
                assert(model::children(graph, u) == model::children(adj, u));
                assert(model::has_edge(graph, u, k));
                let i = choose|i: int| 0 <= i < shown.len() && shown[i] == (u, k);
                assert(edges[i].1@ == k);
            }
            if exists|i: int|
                0 <= i < edges.len() && ((#[trigger] edges[i]).0@ == k || edges[i].1@ == k) {
                let i = choose|i: int|
                    0 <= i < edges.len() && ((#[trigger] edges[i]).0@ == k || edges[i].1@ == k);
                let (u, v) = shown[i];
                assert(shown.contains((u, v)));
                assert(model::has_edge(graph, u, v));
                assert(model::children(graph, u) == model::children(adj, u));
                assert(model::has_edge(adj, u, v));
                if k != v {
                    assert(shown[i].0 == k);
                }
            }
        }
    }

    /// Returns the nodes of the graph.
    pub fn nodes(&self) -> (nodes: Vec<&N>)
        ensures
            node::shown(nodes@) == model::nodes(self@),
    {
        proof {
            use_type_invariant(self);
        }
        self.adj.nodes()
    }

    /// Returns the number of nodes of the graph.
    pub fn num_nodes(&self) -> (num: usize)
        ensures
            num == self@.len(),
    {
        self.adj.num_nodes()
    }

    /// Returns the edges of the graph.
    pub fn edges(&self) -> (edges: Vec<(&N, &N)>)
        ensures
            node::shown(edges@) == model::edges(self@),
    {
        proof {
            use_type_invariant(self);
        }
        self.adj.edges()
    }

    /// Returns the adjacent nodes for the given node, or `None` if the node is not in the graph.
    pub fn adjacent_nodes(&self, node: &N) -> (adjacent: Option<Vec<&N>>)
        ensures
            adjacent is Some <==> model::has_node(self@, node@),
            adjacent matches Some(found) ==> node::shown(found@)
                == model::children(self@, node@),
    {
        proof {
            use_type_invariant(self);
        }
        self.adj.children(node)
    }

    /// Returns true if the graph contains the given node.
    pub fn contains_node(&self, node: &N) -> (found: bool)
        ensures
            found == model::has_node(self@, node@),
    {
        proof {
            use_type_invariant(self);
        }
        self.adj.contains_node(node)
    }

    /// Returns the adjacency map of the graph.
    pub fn adjacency(&self) -> (adj: &AdjacencyMap<N>)
        ensures
            adj.wf(),
            adj@ == self@,
            adj.shown_labels() == self.labels(),
            model::is_simple(self@),
            model::is_canonical(self@),
    {
        proof {
            use_type_invariant(self);
            self.lemma_canonical_form();
        }
        &self.adj
    }

    /// Returns a postorder traversal of the nodes in this graph starting from the given node.
    pub fn get_postorder<'a>(&'a self, start_node: &'a N) -> (order: Vec<&'a N>)
        ensures
            node::shown(order@) == postorder::postorder(self@, start_node@),
            postorder::is_postorder_listing(
                self@,
                start_node@,
                node::shown(order@),
            ),
    {
        proof {
            use_type_invariant(self);
        }
        match self.adj.find(start_node) {
            Some(id) => {
                let ids = postorder::postorder_ids(&self.adj, id);
                self.adj.show(&ids)
            },
            None => {
                proof {
                    self.adj.lemma_labels_distinct();
                    assert(!model::has_node(self@, start_node@));
                    postorder::lemma_postorder_of_leaf(self@, start_node@);
                }
                let mut order: Vec<&'a N> = Vec::new();
                order.push(start_node);
                assert(node::shown(order@) =~= seq![start_node@]);
                order
            },
        }
    }

    /// Returns a graph with the same nodes as this graph and all edges reversed.
    pub fn reverse(&self) -> (reverse: Self)
        ensures
            reverse@ == model::reversed(self@),
            forall|k: N::V| #[trigger] model::has_node(reverse@, k) <==> model::has_node(self@, k),
            forall|u: N::V, v: N::V| #[trigger]
                model::has_edge(reverse@, u, v) <==> model::has_edge(self@, v, u),
    {
        proof {
            use_type_invariant(self);
            self.lemma_canonical_form();
            model::lemma_reversed(self@);
        }
        let mut rev_adj: AdjacencyMap<N> = AdjacencyMap::new();
        let nodes = self.adj.nodes();
        assert(node::shown(nodes@).len() == self@.len());
        let mut i: usize = 0;
        while i < nodes.len()
            invariant
                self.adj.wf(),
                self@ == self.adj@,
                model::is_simple(self@),
                i <= nodes@.len(),
                nodes@.len() == self@.len(),
                node::shown(nodes@) == model::nodes(self@),
                rev_adj.wf(),
                rev_adj@ == model::reversed(self@.take(i as int)),
            decreases nodes@.len() - i,
        {
            let parent = nodes[i];
            let ghost entry = self@[i as int];
            proof {
                assert(node::shown(nodes@)[i as int] == parent@);
                assert(model::nodes(self@)[i as int] == entry.0);
                model::lemma_position(self@, i as int);
            }
            // The parent is a node of the result even if it has no children.
            rev_adj.add_node(parent.duplicate());
            let ghost entered = rev_adj@;
            let ghost turned = entry.1.map_values(|child: N::V| (child, entry.0));
            assert(turned.take(0) =~= Seq::<(N::V, N::V)>::empty());
            match self.adj.children(parent) {
                Some(children) => {
                    assert(node::shown(children@) == entry.1);
                    let mut j: usize = 0;
                    while j < children.len()
                        invariant
                            j <= children@.len(),
                            parent@ == entry.0,
                            node::shown(children@) == entry.1,
                            turned == entry.1.map_values(|child: N::V| (child, entry.0)),
                            rev_adj.wf(),
                            rev_adj@ == model::with_edges(entered, turned.take(j as int)),
                        decreases children@.len() - j,
                    {
                        rev_adj.add_edge(children[j].duplicate(), parent.duplicate());
                        proof {
                            assert(entry.1[j as int] == node::shown(children@)[j as int]);
                            assert(turned.take(j + 1).drop_last() =~= turned.take(j as int));
                            assert(turned.take(j + 1).last() == turned[j as int]);
                        }
                        j = j + 1;
                    }
                    assert(turned.take(j as int) =~= turned);
                },
                None => {},
            }
            proof {
                assert(self@.take(i + 1).drop_last() =~= self@.take(i as int));
                assert(self@.take(i + 1).last() == entry);
            }
            i = i + 1;
        }
        assert(self@.take(i as int) =~= self@);
        SimpleDirectedGraph { adj: rev_adj }
    }
}

impl<N: Node> Clone for SimpleDirectedGraph<N> {
    fn clone(&self) -> (copy: Self)
        ensures
            copy@ == self@,
    {
        proof {
            use_type_invariant(self);
        }
        SimpleDirectedGraph { adj: self.adj.clone() }
    }
}

impl<N: Node> SimpleDirectedGraph<N> {
    /// Tells whether the graph has the given edge.
    fn has_edge(&self, parent: &N, child: &N) -> (found: bool)
        ensures
            found == model::has_edge(self@, parent@, child@),
    {
        match self.adjacent_nodes(parent) {
            Some(children) => {
                let ghost items = model::children(self@, parent@);
                let ghost shown = node::shown(children@);
                let mut i: usize = 0;
                while i < children.len()
                    invariant
                        i <= children@.len(),
                        shown == node::shown(children@),
                        shown == items,
                        items == model::children(self@, parent@),
                        forall|j: int| 0 <= j < i ==> (#[trigger] items[j]) != child@,
                    decreases children@.len() - i,
                {
                    assert(shown[i as int] == children@[i as int]@);
                    if children[i].same(child) {
                        assert(items[i as int] == child@);
                        return true;
                    }
                    i = i + 1;
                }
                false
            },
            None => false,
        }
    }

    /// Tells whether every node and every edge of the graph is one of `other`.
    fn is_subgraph_of(&self, other: &Self) -> (within: bool)
        ensures
            within <==> {
                &&& forall|k: N::V| #[trigger]
                    model::has_node(self@, k) ==> model::has_node(other@, k)
                &&& forall|u: N::V, v: N::V| #[trigger]
                    model::has_edge(self@, u, v) ==> model::has_edge(other@, u, v)
            },
    {
        proof {
            use_type_invariant(self);
            self.lemma_canonical_form();
            model::lemma_edges(self@);
        }
        let nodes = self.nodes();
        let ghost shown_nodes = node::shown(nodes@);
        let mut i: usize = 0;
        while i < nodes.len()
            invariant
                i <= nodes@.len(),
                shown_nodes == node::shown(nodes@),
                shown_nodes == model::nodes(self@),
                forall|j: int|
                    0 <= j < i ==> model::has_node(other@, #[trigger] shown_nodes[j]),
            decreases nodes@.len() - i,
        {
            assert(shown_nodes[i as int] == nodes@[i as int]@);
            if !other.contains_node(nodes[i]) {
                proof {
                    let k = nodes@[i as int]@;
                    assert(shown_nodes.len() == self@.len());
                    assert(model::nodes(self@)[i as int] == self@[i as int].0);
                    assert(model::has_node(self@, k));
                }
                return false;
            }
            i = i + 1;
        }
        assert forall|k: N::V| #[trigger] model::has_node(self@, k) implies model::has_node(
            other@,
            k,
        ) by {
            let p = model::position(self@, k);
            assert(shown_nodes.len() == self@.len());
            assert(model::nodes(self@)[p] == k);
        }
        let edges = self.edges();
        let ghost shown = node::shown(edges@);
        let mut e: usize = 0;
        while e < edges.len()
            invariant
                e <= edges@.len(),
                shown == node::shown(edges@),
                shown == model::edges(self@),
                forall|u: N::V, v: N::V| #[trigger]
                    model::edges(self@).contains((u, v)) <==> model::has_edge(self@, u, v),
                forall|j: int|
                    0 <= j < e ==> model::has_edge(
                        other@,
                        (#[trigger] shown[j]).0,
                        shown[j].1,
                    ),
            decreases edges@.len() - e,
        {
            let ghost edge = (edges@[e as int].0@, edges@[e as int].1@);
            assert(shown[e as int] == edge);
            if !other.has_edge(edges[e].0, edges[e].1) {
                assert(model::edges(self@).contains((edge.0, edge.1)));
                return false;
            }
            e = e + 1;
        }
        assert forall|u: N::V, v: N::V| #[trigger]
            model::has_edge(self@, u, v) implies model::has_edge(other@, u, v) by {
            assert(model::edges(self@).contains((u, v)));
            let j = choose|j: int| 0 <= j < shown.len() && shown[j] == (u, v);
            assert(model::has_edge(other@, shown[j].0, shown[j].1));
        }
        true
    }
}

/// Two graphs are equal if they have the same nodes and the same edges, in whatever order.
impl<N: Node> PartialEq for SimpleDirectedGraph<N> {
    fn eq(&self, other: &Self) -> (equal: bool) {
        self.is_subgraph_of(other) && other.is_subgraph_of(self)
    }
}

impl<N: Node> vstd::std_specs::cmp::PartialEqSpecImpl for SimpleDirectedGraph<N> {
    open spec fn obeys_eq_spec() -> bool {
        true
    }

    open spec fn eq_spec(&self, other: &Self) -> bool {
        model::same_graph(self@, other@)
    }
}

impl<N: Node> Eq for SimpleDirectedGraph<N> {

}

/// A directed graph with a designated start node.
///
/// Any node in the graph can be the start node. There are no reachability requirements
/// whatsoever: some nodes may be unreachable from the start node, the start node could have
/// incoming edges, the graph could be disconnected, etc.
#[derive(Debug)]
pub struct FlowGraph<N: Node> {
    /// The graph.
    pub graph: SimpleDirectedGraph<N>,
    /// The start node.
    pub start_node: N,
}

impl<N: Node> FlowGraph<N> {
    /// Constructs a flow graph.
    pub fn new(graph: SimpleDirectedGraph<N>, start_node: N) -> (flow_graph: Self)
        ensures
            flow_graph.graph == graph,
            flow_graph.start_node == start_node,
    {
        FlowGraph { graph, start_node }
    }
}

impl<N: Node> Clone for FlowGraph<N> {
    fn clone(&self) -> (copy: Self)
        ensures
            copy.graph@ == self.graph@,
            copy.start_node@ == self.start_node@,
    {
        FlowGraph { graph: self.graph.clone(), start_node: self.start_node.duplicate() }
    }
}

/// Two flow graphs are equal if their graphs are equal and their start nodes are the same.
impl<N: Node> PartialEq for FlowGraph<N> {
    fn eq(&self, other: &Self) -> (equal: bool) {
        self.graph == other.graph && self.start_node.same(&other.start_node)
    }
}

impl<N: Node> vstd::std_specs::cmp::PartialEqSpecImpl for FlowGraph<N> {
    open spec fn obeys_eq_spec() -> bool {
        true
    }

    open spec fn eq_spec(&self, other: &Self) -> bool {
        model::same_graph(self.graph@, other.graph@) && self.start_node@ == other.start_node@
    }
}

impl<N: Node> Eq for FlowGraph<N> {

}

} // verus!
