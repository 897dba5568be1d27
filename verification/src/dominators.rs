//! Dominators of flow graphs.
use vstd::prelude::*;

use crate::adjacency;
use crate::adjacency::AdjacencyMap;
use crate::graph::FlowGraph;
use crate::immediate;
use crate::immediate::Index;
use crate::model;
use crate::node;
use crate::node::Node;
use crate::paths;
use crate::postorder;

verus! {

/// The start node is a node of the graph and leads to every node.
pub open spec fn is_valid_flow_graph<K>(graph: Seq<(K, Seq<K>)>, start: K) -> bool {
    &&& model::has_node(graph, start)
    &&& forall|k: K| #[trigger]
        model::has_node(graph, k) ==> paths::reaches(model::edge_set(graph), start, k)
}

/// Following the parent links from a node leads to its dominators and to nothing else, where
/// `order` says which node each number stands for.
pub open spec fn is_dominator_tree<K>(
    graph: Seq<(K, Seq<K>)>,
    start: K,
    order: Seq<K>,
    parents: Seq<Option<Index>>,
) -> bool {
    &&& parents.len() == order.len()
    &&& immediate::is_upward_tree(parents)
    &&& forall|i: int| 0 <= i < parents.len() ==> (#[trigger] parents[i]) is Some
    &&& forall|a: int, i: int|
        0 <= a < order.len() && 0 <= i < order.len() ==> (#[trigger] immediate::is_ancestor(
            parents,
            a,
            i,
        ) <==> paths::dominates(model::edge_set(graph), start, order[a], order[i]))
}

/// The nodes with the given numbers.
pub open spec fn nodes_at<K>(order: Seq<K>, numbers: Seq<Index>) -> Seq<K> {
    numbers.map_values(|i: Index| order[i as int])
}

/// What dominates a node stands in the tree above it.
proof fn lemma_dominator_in_tree<K>(
    graph: Seq<(K, Seq<K>)>,
    start: K,
    order: Seq<K>,
    parents: Seq<Option<Index>>,
    dom: K,
    i: int,
) -> (a: int)
    requires
        is_dominator_tree(graph, start, order, parents),
        postorder::is_postorder_listing(graph, start, order),
        0 <= i < order.len(),
        paths::dominates(model::edge_set(graph), start, dom, order[i]),
    ensures
        0 <= a < order.len(),
        order[a] == dom,
        immediate::is_ancestor(parents, a, i),
{
    assert(order.contains(order[i]));
    paths::lemma_dominator_reached(model::edge_set(graph), start, dom, order[i]);
    assert(order.contains(dom));
    choose|a: int| 0 <= a < order.len() && order[a] == dom
}

/// In the dominator tree the parent of a node is its immediate dominator. The root is the start
/// node.
pub proof fn lemma_parent_is_immediate_dominator<K>(
    graph: Seq<(K, Seq<K>)>,
    start: K,
    order: Seq<K>,
    parents: Seq<Option<Index>>,
    i: int,
)
    requires
        is_dominator_tree(graph, start, order, parents),
        postorder::is_postorder_listing(graph, start, order),
        0 <= i < order.len(),
    ensures
        parents[i]->0 < order.len(),
        order[i] == start ==> parents[i]->0 == i,
        order[i] != start ==> paths::is_immediate_dominator(
            model::edge_set(graph),
            start,
            order[parents[i]->0 as int],
            order[i],
        ),
{
    let edges = model::edge_set(graph);
    let n = order.len() as int;
    assert(parents[i] is Some);
    assert(order[n - 1] == start);
    if i < n - 1 {
        assert(immediate::leads_up(parents, i));
        assert(order[i] != order[n - 1]);
        let up = parents[i]->0 as int;
        assert(immediate::is_ancestor(parents, up, up));
        assert(immediate::is_ancestor(parents, up, i));
        assert(paths::strictly_dominates(edges, start, order[up], order[i]));
        assert(order.contains(order[i]));
        assert forall|z: K| #[trigger]
            paths::strictly_dominates(edges, start, z, order[i]) implies paths::dominates(
            edges,
            start,
            z,
            order[up],
        ) by {
            let a = lemma_dominator_in_tree(graph, start, order, parents, z, i);
            assert(immediate::is_ancestor(parents, a, up));
        }
        paths::lemma_immediate_is_lowest(edges, start, order[up], order[i]);
    }
}

/// The closest common dominator of some nodes is their lowest common ancestor in the dominator
/// tree.
pub proof fn lemma_lowest_common_ancestor<K>(
    graph: Seq<(K, Seq<K>)>,
    start: K,
    order: Seq<K>,
    parents: Seq<Option<Index>>,
    lca: int,
    numbers: Seq<Index>,
)
    requires
        is_dominator_tree(graph, start, order, parents),
        postorder::is_postorder_listing(graph, start, order),
        numbers.len() > 0,
        forall|j: int| 0 <= j < numbers.len() ==> (#[trigger] numbers[j]) < order.len(),
        0 <= lca < order.len(),
    ensures
        immediate::is_lowest_of_all(parents, lca, numbers)
            <==> paths::is_closest_common_dominator(
            model::edge_set(graph),
            start,
            order[lca],
            nodes_at(order, numbers),
        ),
{
    let edges = model::edge_set(graph);
    let targets = nodes_at(order, numbers);
    assert(order.contains(order[numbers[0] as int]));
    assert(targets[0] == order[numbers[0] as int]);
    assert forall|a: int| 0 <= a < order.len() implies (#[trigger] immediate::is_common_ancestor(
        parents,
        a,
        numbers,
    ) <==> paths::is_common_dominator(edges, start, order[a], targets)) by {
        if immediate::is_common_ancestor(parents, a, numbers) {
            assert forall|j: int| 0 <= j < targets.len() implies paths::dominates(
                edges,
                start,
                order[a],
                #[trigger] targets[j],
            ) by {
                assert(immediate::is_ancestor(parents, a, numbers[j] as int));
            }
        }
        if paths::is_common_dominator(edges, start, order[a], targets) {
            assert forall|j: int| 0 <= j < numbers.len() implies immediate::is_ancestor(
                parents,
                a,
                #[trigger] numbers[j] as int,
            ) by {
                assert(paths::dominates(edges, start, order[a], targets[j]));
            }
        }
    }
    paths::lemma_closest_is_lowest(edges, start, order[lca], targets);
    if immediate::is_lowest_of_all(parents, lca, numbers) {
        assert(immediate::is_common_ancestor(parents, lca, numbers));
        assert forall|z: K| #[trigger]
            paths::is_common_dominator(edges, start, z, targets) implies paths::dominates(
            edges,
            start,
            z,
            order[lca],
        ) by {
            assert(paths::dominates(edges, start, z, targets[0]));
            let a = lemma_dominator_in_tree(
                graph,
                start,
                order,
                parents,
                z,
                numbers[0] as int,
            );
            assert(immediate::is_common_ancestor(parents, a, numbers));
            assert(immediate::is_ancestor(parents, a, lca));
        }
    }
    if paths::is_closest_common_dominator(edges, start, order[lca], targets) {
        assert(immediate::is_common_ancestor(parents, lca, numbers));
        assert forall|a: int| #[trigger]
            immediate::is_common_ancestor(parents, a, numbers) implies immediate::is_ancestor(
            parents,
            a,
            lca,
        ) by {
            assert(immediate::is_ancestor(parents, a, numbers[0] as int));
            immediate::lemma_ancestor_in_tree(parents, a, numbers[0] as int);
            assert(paths::is_common_dominator(edges, start, order[a], targets));
        }
    }
}

/// Calculates the dominators in a flow graph. Also has a method for finding the closest common
/// dominator of a set of nodes.
pub struct DominatorFinder<'a, N: Node> {
    /// The flow graph.
    pub flow_graph: &'a FlowGraph<N>,
    /// Map from nodes, by their number in the graph, to integers in postorder (the start node
    /// has the highest).
    node_to_id: Vec<Option<Index>>,
    /// The inverse of `node_to_id`.
    id_to_node: Vec<&'a N>,
    /// The immediate dominator for each node (by index). The immediate dominator of the start
    /// node is itself.
    immediate_dominators: Vec<Option<Index>>,
}

/// `rank` is the inverse of `order`.
spec fn is_inverse(order: Seq<usize>, rank: Seq<Option<Index>>) -> bool {
    &&& forall|i: int|
        0 <= i < order.len() ==> (#[trigger] order[i]) < rank.len() && rank[order[i] as int]
            == Some(i as usize)
    &&& forall|id: int|
        0 <= id < rank.len() && (#[trigger] rank[id]) is Some ==> rank[id]->0 < order.len()
            && order[rank[id]->0 as int] == id
}

/// The places of some numbers.
fn invert(order: &Vec<usize>, bound: usize) -> (rank: Vec<Option<Index>>)
    requires
        order@.no_duplicates(),
        forall|i: int| 0 <= i < order@.len() ==> (#[trigger] order@[i]) < bound,
    ensures
        rank@.len() == bound,
        is_inverse(order@, rank@),
{
    let mut rank: Vec<Option<Index>> = Vec::new();
    while rank.len() < bound
        invariant
            rank@.len() <= bound,
            forall|id: int| 0 <= id < rank@.len() ==> (#[trigger] rank@[id]) is None,
        decreases bound - rank@.len(),
    {
        rank.push(None);
    }
    let mut i: usize = 0;
    while i < order.len()
        invariant
            i <= order@.len(),
            order@.no_duplicates(),
            rank@.len() == bound,
            forall|i: int| 0 <= i < order@.len() ==> (#[trigger] order@[i]) < bound,
            forall|j: int| 0 <= j < i ==> rank@[#[trigger] order@[j] as int] == Some(j as usize),
            forall|id: int|
                0 <= id < bound && (#[trigger] rank@[id]) is Some ==> rank@[id]->0 < i
                    && order@[rank@[id]->0 as int] == id,
        decreases order@.len() - i,
    {
        let id: usize = order[i];
        rank.set(id, Some(i));
        assert forall|j: int| 0 <= j < i + 1 implies rank@[#[trigger] order@[j] as int] == Some(
            j as usize,
        ) by {
            if j < i {
                assert(order@[j] != order@[i as int]);
            }
        }
        i = i + 1;
    }
    rank
}

/// As many empty lists as asked for.
fn empty_lists(num: usize) -> (lists: Vec<Vec<Index>>)
    ensures
        lists@.len() == num,
        forall|i: int| 0 <= i < num ==> (#[trigger] lists@[i])@.len() == 0,
{
    let mut lists: Vec<Vec<Index>> = Vec::new();
    while lists.len() < num
        invariant
            lists@.len() <= num,
            forall|i: int| 0 <= i < lists@.len() ==> (#[trigger] lists@[i])@.len() == 0,
        decreases num - lists@.len(),
    {
        lists.push(Vec::new());
    }
    lists
}

/// The successors and the predecessors of each node, all by their place in `order`.
fn neighbor_lists<N: Node>(
    adj: &AdjacencyMap<N>,
    order: &Vec<usize>,
    rank: &Vec<Option<Index>>,
) -> (lists: (Vec<Vec<Index>>, Vec<Vec<Index>>))
    requires
        adj.wf(),
        is_inverse(order@, rank@),
        rank@.len() == adj.shown_labels().len(),
    ensures
        lists.0@.len() == order@.len(),
        lists.1@.len() == order@.len(),
        forall|x: int, b: int|
            0 <= b < order@.len() ==> (#[trigger] immediate::is_listed(lists.1@, x, b) <==> 0 <= x
                < order@.len() && model::has_edge(
                adj@,
                adj.shown_labels()[order@[x] as int],
                adj.shown_labels()[order@[b] as int],
            )),
{
    let ghost labels = adj.shown_labels();
    let ghost graph = adj@;
    proof {
        adj.lemma_labels_distinct();
    }
    let mut succs: Vec<Vec<Index>> = empty_lists(order.len());
    let mut preds: Vec<Vec<Index>> = empty_lists(order.len());
    let mut a: usize = 0;
    while a < order.len()
        invariant
            adj.wf(),
            labels == adj.shown_labels(),
            labels.no_duplicates(),
            graph == adj@,
            is_inverse(order@, rank@),
            rank@.len() == labels.len(),
            a <= order@.len(),
            succs@.len() == order@.len(),
            preds@.len() == order@.len(),
            forall|x: int, b: int|
                0 <= b < order@.len() ==> (#[trigger] immediate::is_listed(preds@, x, b) <==> 0 <= x < a
                    && model::has_edge(
                    graph,
                    labels[order@[x] as int],
                    labels[order@[b] as int],
                )),
        decreases order@.len() - a,
    {
        let id: usize = order[a];
        let children = adj.child_ids(id);
        let ghost before = preds@;
        let mut j: usize = 0;
        while j < children.len()
            invariant
                a < order@.len() <= usize::MAX,
                j <= children@.len(),
                is_inverse(order@, rank@),
                rank@.len() == labels.len(),
                forall|i: int| 0 <= i < children@.len() ==> (#[trigger] children@[i]) < labels.len(),
                succs@.len() == order@.len(),
                preds@.len() == order@.len(),
                before.len() == order@.len(),
                forall|x: int, b: int|
                    0 <= b < order@.len() && x != a ==> (#[trigger] immediate::is_listed(preds@, x, b)
                        <==> immediate::is_listed(before, x, b)),
                forall|b: int|
                    0 <= b < order@.len() ==> (#[trigger] immediate::is_listed(preds@, a as int, b)
                        <==> immediate::is_listed(before, a as int, b) || children@.take(
                        j as int,
                    ).contains(order@[b])),
            decreases children@.len() - j,
        {
            let child: usize = children[j];
            let ghost seen = children@.take(j as int);
            let ghost now_seen = children@.take(j + 1);
            assert(now_seen =~= seen.push(child));
            let ghost lists = preds@;
            if let Some(b) = rank[child] {
                succs[a].push(b);
                preds[b].push(a);
                proof {
                    let list = lists[b as int]@;
                    let longer = preds@[b as int]@;
                    assert(longer == list.push(a));
                    assert forall|x: int, y: int|
                        0 <= y < order@.len() && x != a implies (#[trigger] immediate::is_listed(
                        preds@,
                        x,
                        y,
                    ) <==> immediate::is_listed(before, x, y)) by {
                        assert(immediate::is_listed(lists, x, y) <==> immediate::is_listed(before, x, y));
                        if y == b {
                            if immediate::is_listed(preds@, x, y) {
                                let k = choose|k: int|
                                    0 <= k < longer.len() && #[trigger] longer[k] == x;
                                assert(list[k] == x);
                            }
                            if immediate::is_listed(lists, x, y) {
                                let k = choose|k: int|
                                    0 <= k < list.len() && #[trigger] list[k] == x;
                                assert(longer[k] == x);
                            }
                        } else {
                            assert(preds@[y] == lists[y]);
                        }
                    }
                    assert forall|y: int| 0 <= y < order@.len() implies (#[trigger] immediate::is_listed(
                        preds@,
                        a as int,
                        y,
                    ) <==> immediate::is_listed(before, a as int, y) || now_seen.contains(order@[y])) by {
                        assert(immediate::is_listed(lists, a as int, y) <==> immediate::is_listed(before, a as int, y)
                            || seen.contains(order@[y]));
                        model::lemma_pushed(seen, child, order@[y]);
                        if y == b {
                            assert(order@[b as int] == child);
                            assert(longer[list.len() as int] == a);
                        } else {
                            assert(preds@[y] == lists[y]);
                            assert(rank@[order@[y] as int] == Some(y as usize));
                            assert(order@[y] != child);
                        }
                    }
                }
            } else {
                proof {
                    assert forall|y: int| 0 <= y < order@.len() implies (#[trigger] immediate::is_listed(
                        preds@,
                        a as int,
                        y,
                    ) <==> immediate::is_listed(before, a as int, y) || now_seen.contains(order@[y])) by {
                        model::lemma_pushed(seen, child, order@[y]);
                        assert(order@[y] != child);
                    }
                }
            }
            j = j + 1;
        }
        proof {
            assert(children@.take(j as int) =~= children@);
            assert forall|x: int, b: int| 0 <= b < order@.len() implies (#[trigger] immediate::is_listed(
                preds@,
                x,
                b,
            ) <==> 0 <= x < a + 1 && model::has_edge(
                graph,
                labels[order@[x] as int],
                labels[order@[b] as int],
            )) by {
                if x == a {
                    assert(!immediate::is_listed(before, a as int, b));
                    let items = model::children(graph, labels[id as int]);
                    assert(items == adjacency::relabel_items(children@, labels));
                    let target = order@[b];
                    if children@.contains(target) {
                        let k = choose|k: int| 0 <= k < children@.len() && children@[k] == target;
                        assert(items[k] == labels[target as int]);
                    }
                    if items.contains(labels[target as int]) {
                        let k = choose|k: int|
                            0 <= k < items.len() && items[k] == labels[target as int];
                        assert(children@[k] == target);
                    }
                }
            }
        }
        a = a + 1;
    }
    (succs, preds)
}

/// What a node of a canonical graph leads to are nodes.
pub proof fn lemma_reached_is_node<K>(graph: Seq<(K, Seq<K>)>, start: K, path: Seq<K>)
    requires
        model::is_canonical(graph),
        model::has_node(graph, start),
        paths::is_path(model::edge_set(graph), path),
        path[0] == start,
    ensures
        model::has_node(graph, path.last()),
{
    let i = path.len() - 2;
    if i >= 0 {
        assert(model::edge_set(graph).contains((path[i], path[i + 1])));
        model::lemma_edge_ends(graph, path[i], path[i + 1]);
    }
}

/// A traversal from a node meets as many nodes as there are just if the flow graph is valid.
proof fn lemma_all_met<K>(graph: Seq<(K, Seq<K>)>, start: K, order: Seq<K>)
    requires
        model::is_simple(graph),
        model::is_canonical(graph),
        model::has_node(graph, start),
        postorder::is_postorder_listing(graph, start, order),
    ensures
        order.len() == graph.len() <==> is_valid_flow_graph(graph, start),
{
    let edges = model::edge_set(graph);
    let nodes = model::nodes(graph);
    assert(nodes.no_duplicates()) by {
        assert forall|i: int, j: int|
            0 <= i < nodes.len() && 0 <= j < nodes.len() && i != j implies nodes[i] != nodes[j] by {
            assert(graph[i].0 != graph[j].0);
        }
    }
    order.unique_seq_to_set();
    nodes.unique_seq_to_set();
    assert forall|k: K| order.to_set().contains(k) implies nodes.to_set().contains(k) by {
        assert(order.contains(k));
        let path = choose|path: Seq<K>| paths::is_path_between(edges, start, k, path);
        lemma_reached_is_node(graph, start, path);
        assert(nodes[model::position(graph, k)] == k);
    }
    if order.len() == graph.len() {
        vstd::set_lib::lemma_subset_equality(order.to_set(), nodes.to_set());
        assert forall|k: K| #[trigger] model::has_node(graph, k) implies paths::reaches(
            edges,
            start,
            k,
        ) by {
            assert(nodes[model::position(graph, k)] == k);
            assert(nodes.to_set().contains(k));
            assert(order.contains(k));
        }
    }
    if is_valid_flow_graph(graph, start) {
        assert forall|k: K| nodes.to_set().contains(k) implies order.to_set().contains(k) by {
            let i = choose|i: int| 0 <= i < nodes.len() && nodes[i] == k;
            assert(graph[i].0 == k);
            assert(model::has_node(graph, k));
            assert(order.contains(k));
        }
        assert(order.to_set() =~= nodes.to_set());
    }
}

impl<'a, N: Node> DominatorFinder<'a, N> {
    /// The flow graph.
    pub closed spec fn flow(&self) -> FlowGraph<N> {
        *self.flow_graph
    }

    /// The nodes in postorder.
    closed spec fn order(&self) -> Seq<N::V> {
        node::shown(self.id_to_node@)
    }

    /// The finder belongs to its flow graph, which is valid.
    pub closed spec fn wf(&self) -> bool {
        let graph = self.flow().graph@;
        let start = self.flow().start_node@;
        let labels = self.flow().graph.labels();
        &&& is_valid_flow_graph(graph, start)
        &&& self.order() == postorder::postorder(graph, start)
        &&& postorder::is_postorder_listing(graph, start, self.order())
        &&& is_dominator_tree(graph, start, self.order(), self.immediate_dominators@)
        &&& self.node_to_id@.len() == labels.len()
        &&& forall|id: int|
            0 <= id < labels.len() ==> match #[trigger] self.node_to_id@[id] {
                Some(i) => i < self.order().len() && self.order()[i as int] == labels[id],
                None => !self.order().contains(labels[id]),
            }
    }

    /// A finder exists only for valid flow graphs.
    pub proof fn lemma_valid(&self)
        requires
            self.wf(),
        ensures
            is_valid_flow_graph(self.flow().graph@, self.flow().start_node@),
    {
    }

    /// Constructs a finder. Returns an error if the flow graph is invalid: if some node is
    /// unreachable from the start node, or the start node is not in the graph.
    pub fn calculate(flow_graph: &'a FlowGraph<N>) -> (finder: Result<Self, String>)
        ensures
            finder is Ok <==> is_valid_flow_graph(flow_graph.graph@, flow_graph.start_node@),
            match finder {
                Ok(finder) => finder.wf() && finder.flow() == *flow_graph,
                Err(message) => message@
                    == "Invalid flow graph: some nodes are unreachable from the start node"@,
            },
    {
        let ghost graph = flow_graph.graph@;
        let ghost start = flow_graph.start_node@;
        let ghost labels = flow_graph.graph.labels();
        let ghost edges = model::edge_set(graph);
        let adj = flow_graph.graph.adjacency();
        proof {
            adj.lemma_labels_distinct();
        }
        let start_id = if flow_graph.graph.contains_node(&flow_graph.start_node) {
            adj.find(&flow_graph.start_node)
        } else {
            None
        };
        let start_id: usize = match start_id {
            Some(id) => id,
            None => {
                return Err(
                    "Invalid flow graph: some nodes are unreachable from the start node".to_owned(),
                );
            },
        };

        // Get a postorder traversal of the graph starting from the start node.
        let ids = postorder::postorder_ids(adj, start_id);
        let ghost order = adjacency::relabel_items(ids@, labels);
        proof {
            lemma_all_met(graph, start, order);
        }
        if ids.len() != flow_graph.graph.num_nodes() {
            return Err(
                "Invalid flow graph: some nodes are unreachable from the start node".to_owned(),
            );
        }

        // Build the graph on places in postorder.
        let node_to_id = invert(&ids, adj.num_labels());
        let id_to_node = adj.show(&ids);
        let (successors, predecessors) = neighbor_lists(adj, &ids, &node_to_id);
        let ghost preds = predecessors@;
        let ghost indexed = immediate::pred_edges(preds);
        let ghost n = order.len() as int;
        proof {
            assert forall|a: int, b: int| #[trigger]
                indexed.contains((a, b)) <==> 0 <= a < n && 0 <= b < n && edges.contains(
                    (order[a], order[b]),
                ) by {
                if 0 <= b < n {
                    assert(indexed.contains((a, b)) <==> immediate::is_listed(preds, a, b));
                    assert(order[b] == labels[ids@[b] as int]);
                    if 0 <= a < n {
                        assert(order[a] == labels[ids@[a] as int]);
                    }
                }
            }
            assert forall|x: N::V, y: N::V| #[trigger]
                edges.contains((x, y)) && order.contains(x) implies order.contains(y) by {
                let path = choose|path: Seq<N::V>|
                    paths::is_path_between(edges, start, x, path);
                paths::lemma_extend_path(edges, start, x, y, path);
                assert(paths::reaches(edges, start, y));
            }
            assert(paths::is_numbering(edges, indexed, order));
            assert forall|u: int, k: int|
                0 <= u < preds.len() && 0 <= k < preds[u]@.len() implies (#[trigger] preds[u]@[k])
                < preds.len() by {
                assert(immediate::is_listed(preds, preds[u]@[k] as int, u));
            }
            assert forall|u: int|
                0 <= u < preds.len() - 1 implies #[trigger] immediate::has_higher_predecessor(
                preds,
                u,
            ) by {
                assert(order[u] == order[u]);
                let j = choose|j: int|
                    u < j < order.len() && model::has_edge(
                        graph,
                        #[trigger] order[j],
                        #[trigger] order[u],
                    );
                assert(order[j] == labels[ids@[j] as int] && order[u] == labels[ids@[u] as int]);
                assert(immediate::is_listed(preds, j, u));
                let k = choose|k: int| 0 <= k < preds[u]@.len() && #[trigger] preds[u]@[k] == j;
                assert(preds[u]@[k] > u);
            }
            assert(preds.len() > 0);
            assert(immediate::numbered_in_postorder(preds));
        }

        // Find the immediate dominators.
        let immediate_dominators = immediate::get_immediate_dominators_internal(
            &successors,
            &predecessors,
        );
        proof {
            let parents = immediate_dominators@;
            assert(order[n - 1] == start);
            assert forall|a: int, i: int|
                0 <= a < order.len() && 0 <= i < order.len() implies (
            #[trigger] immediate::is_ancestor(parents, a, i) <==> paths::dominates(
                edges,
                start,
                order[a],
                order[i],
            )) by {
                paths::lemma_numbering_dominates(edges, indexed, order, n - 1, a, i);
            }
            assert(is_dominator_tree(graph, start, order, parents));
            assert forall|id: int| 0 <= id < labels.len() implies match #[trigger] node_to_id@[id] {
                Some(i) => i < order.len() && order[i as int] == labels[id],
                None => !order.contains(labels[id]),
            } by {
                if node_to_id@[id] is None && order.contains(labels[id]) {
                    let i = choose|i: int| 0 <= i < order.len() && order[i] == labels[id];
                    assert(labels[ids@[i] as int] == labels[id]);
                    assert(ids@[i] == id);
                }
            }
        }
        Ok(DominatorFinder { flow_graph, node_to_id, id_to_node, immediate_dominators })
    }

    /// Returns each node with its immediate dominator, in postorder. The immediate dominator of
    /// the start node is itself.
    pub fn get_immediate_dominators(&self) -> (dominators: Vec<(N, N)>)
        requires
            self.wf(),
        ensures
            dominators@.len() == postorder::postorder(
                self.flow().graph@,
                self.flow().start_node@,
            ).len(),
            forall|i: int|
                0 <= i < dominators@.len() ==> (#[trigger] dominators@[i]).0@
                    == postorder::postorder(self.flow().graph@, self.flow().start_node@)[i],
            forall|i: int|
                0 <= i < dominators@.len() ==> if (#[trigger] dominators@[i]).0@
                    == self.flow().start_node@ {
                    dominators@[i].1@ == self.flow().start_node@
                } else {
                    paths::is_immediate_dominator(
                        model::edge_set(self.flow().graph@),
                        self.flow().start_node@,
                        dominators@[i].1@,
                        dominators@[i].0@,
                    )
                },
    {
        let ghost edges = model::edge_set(self.flow().graph@);
        let ghost start = self.flow().start_node@;
        let ghost order = self.order();
        let ghost parents = self.immediate_dominators@;
        let mut dominators: Vec<(N, N)> = Vec::new();
        let mut i: usize = 0;
        while i < self.id_to_node.len()
            invariant
                self.wf(),
                edges == model::edge_set(self.flow().graph@),
                start == self.flow().start_node@,
                order == self.order(),
                parents == self.immediate_dominators@,
                i <= order.len(),
                dominators@.len() == i,
                forall|j: int| 0 <= j < i ==> (#[trigger] dominators@[j]).0@ == order[j],
                forall|j: int|
                    0 <= j < i ==> if (#[trigger] dominators@[j]).0@ == start {
                        dominators@[j].1@ == start
                    } else {
                        paths::is_immediate_dominator(
                            edges,
                            start,
                            dominators@[j].1@,
                            dominators@[j].0@,
                        )
                    },
            decreases order.len() - i,
        {
            proof {
                assert(parents[i as int] is Some);
                lemma_parent_is_immediate_dominator(
                    self.flow().graph@,
                    start,
                    order,
                    parents,
                    i as int,
                );
            }
            let parent: Index = self.immediate_dominators[i].unwrap();
            dominators.push(
                (self.id_to_node[i].duplicate(), self.id_to_node[parent].duplicate()),
            );
            i = i + 1;
        }
        dominators
    }

    /// Finds the closest common dominator of the given set of nodes.
    pub fn find_closest_common_dominator(&self, target_set: Vec<N>) -> (dominator: Result<
        N,
        String,
    >)
        requires
            self.wf(),
        ensures
            dominator is Ok <==> target_set@.len() > 0 && forall|i: int|
                0 <= i < target_set@.len() ==> model::has_node(
                    self.flow().graph@,
                    #[trigger] target_set@[i]@,
                ),
            match dominator {
                Ok(dominator) => paths::is_closest_common_dominator(
                    model::edge_set(self.flow().graph@),
                    self.flow().start_node@,
                    dominator@,
                    node::shown(target_set@),
                ),
                Err(message) => message@
                    == "Target set is empty or has nodes not present in the flow graph"@,
            },
    {
        let ghost graph = self.flow().graph@;
        let ghost edges = model::edge_set(graph);
        let ghost start = self.flow().start_node@;
        let ghost order = self.order();
        let ghost parents = self.immediate_dominators@;
        let ghost targets = node::shown(target_set@);
        let adj = self.flow_graph.graph.adjacency();
        let ghost labels = adj.shown_labels();
        proof {
            adj.lemma_labels_distinct();
        }
        let mut target_ids: Vec<Index> = Vec::new();
        let mut i: usize = 0;
        while i < target_set.len()
            invariant
                self.wf(),
                graph == self.flow().graph@,
                start == self.flow().start_node@,
                edges == model::edge_set(graph),
                order == self.order(),
                labels == self.flow().graph.labels(),
                labels == adj.shown_labels(),
                model::is_canonical(graph),
                forall|k: N::V| #[trigger] model::has_node(graph, k) ==> labels.contains(k),
                i <= target_set@.len(),
                target_ids@.len() == i,
                forall|j: int|
                    0 <= j < i ==> (#[trigger] target_ids@[j]) < order.len()
                        && order[target_ids@[j] as int] == target_set@[j]@,
                forall|j: int|
                    0 <= j < i ==> model::has_node(graph, #[trigger] target_set@[j]@),
            decreases target_set@.len() - i,
        {
            let ghost target = target_set@[i as int]@;
            let label = adj.find(&target_set[i]);
            let id = match label {
                Some(label) => self.node_to_id[label],
                None => None,
            };
            proof {
                lemma_listed_are_nodes(graph, start, order, target);
                if let Some(label) = label {
                    assert(labels[label as int] == target);
                }
            }
            match id {
                Some(id) => {
                    assert(order.contains(order[id as int]));
                    target_ids.push(id);
                },
                None => {
                    assert(!model::has_node(graph, target_set@[i as int]@));
                    return Err(
                        "Target set is empty or has nodes not present in the flow graph".to_owned(),
                    );
                },
            }
            i = i + 1;
        }
        if target_ids.len() == 0 {
            return Err(
                "Target set is empty or has nodes not present in the flow graph".to_owned(),
            );
        }
        proof {
            assert forall|j: int|
                0 <= j < target_ids@.len() implies (#[trigger] target_ids@[j]) < parents.len()
                && parents[target_ids@[j] as int] is Some by {}
        }

        // The closest common dominator of a set of nodes is the lowest common ancestor of
        // those nodes in the dominator tree.
        let lca: Index = immediate::find_lowest_common_ancestor(
            &target_ids,
            &self.immediate_dominators,
        );
        proof {
            assert(nodes_at(order, target_ids@) =~= targets);
            lemma_lowest_common_ancestor(
                graph,
                start,
                order,
                parents,
                lca as int,
                target_ids@,
            );
        }
        Ok(self.id_to_node[lca].duplicate())
    }
}

/// In a valid flow graph the nodes listed from the start are the nodes.
proof fn lemma_listed_are_nodes<K>(graph: Seq<(K, Seq<K>)>, start: K, order: Seq<K>, node: K)
    requires
        model::is_canonical(graph),
        is_valid_flow_graph(graph, start),
        postorder::is_postorder_listing(graph, start, order),
    ensures
        order.contains(node) <==> model::has_node(graph, node),
{
    let edges = model::edge_set(graph);
    if order.contains(node) {
        let path = choose|path: Seq<K>| paths::is_path_between(edges, start, node, path);
        lemma_reached_is_node(graph, start, path);
    }
}

} // verus!
