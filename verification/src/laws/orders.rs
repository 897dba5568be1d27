//! In what order graphs list their nodes and edges.
use vstd::prelude::*;

use crate::model;
use crate::paths;
use crate::reach;

verus! {

/// The item stands somewhere before the place `end`.
pub open spec fn occurs_before<T>(items: Seq<T>, item: T, end: int) -> bool {
    exists|i: int| 0 <= i < end && #[trigger] items[i] == item
}

/// The one item stands somewhere before the other one.
pub open spec fn stand_in_order<T>(items: Seq<T>, first: T, second: T) -> bool {
    exists|i: int, j: int|
        0 <= i < j < items.len() && #[trigger] items[i] == first && #[trigger] items[j] == second
}

/// `listed` holds each of `items` once, in the order in which they first occur.
pub open spec fn lists_once<T>(items: Seq<T>, listed: Seq<T>) -> bool {
    &&& listed.no_duplicates()
    &&& forall|x: T| #[trigger] listed.contains(x) <==> items.contains(x)
    &&& forall|a: int, b: int, j: int|
        #![trigger occurs_before(items, listed[a], j), listed[b]]
        0 <= a < b < listed.len() && 0 <= j < items.len() && items[j] == listed[b]
            ==> occurs_before(items, listed[a], j)
}

/// There is only one such list.
pub proof fn lemma_lists_once_unique<T>(items: Seq<T>, a: Seq<T>, b: Seq<T>)
    requires
        lists_once(items, a),
        lists_once(items, b),
    ensures
        a == b,
{
    a.unique_seq_to_set();
    b.unique_seq_to_set();
    assert forall|x: T| a.to_set().contains(x) <==> b.to_set().contains(x) by {
        assert(a.contains(x) <==> items.contains(x));
        assert(b.contains(x) <==> items.contains(x));
    }
    assert(a.to_set() =~= b.to_set());
    assert forall|i: int| 0 <= i < a.len() implies a[i] == b[i] by {
        lemma_same_upto(items, a, b, i);
    }
    assert(a =~= b);
}

/// Two such lists agree up to any place.
proof fn lemma_same_upto<T>(items: Seq<T>, a: Seq<T>, b: Seq<T>, i: int)
    requires
        lists_once(items, a),
        lists_once(items, b),
        a.len() == b.len(),
        0 <= i < a.len(),
    ensures
        a[i] == b[i],
    decreases i,
{
    assert forall|k: int| 0 <= k < i implies a[k] == b[k] by {
        lemma_same_upto(items, a, b, k);
    }
    if a[i] != b[i] {
        assert(a.contains(a[i]) && b.contains(b[i]));
        assert(b.contains(a[i]) && a.contains(b[i]));
        let p = choose|p: int| 0 <= p < b.len() && b[p] == a[i];
        let q = choose|q: int| 0 <= q < a.len() && a[q] == b[i];
        if p < i {
            assert(a[p] == b[p]);
        }
        if q < i {
            assert(a[q] == b[q]);
        }
        assert(i < p && i < q);
        // Each of the two would first occur before the other one.
        assert(items.contains(a[i]));
        let j = choose|j: int| 0 <= j < items.len() && items[j] == a[i];
        lemma_no_descent(items, a, b, i, p, q, j);
    }
}

/// If two items each occur before every occurrence of the other one, they are the same.
proof fn lemma_no_descent<T>(items: Seq<T>, a: Seq<T>, b: Seq<T>, i: int, p: int, q: int, j: int)
    requires
        lists_once(items, a),
        lists_once(items, b),
        0 <= i < p < b.len(),
        i < q < a.len(),
        b[p] == a[i],
        a[q] == b[i],
        0 <= j < items.len(),
        items[j] == a[i],
    ensures
        a[i] == b[i],
    decreases j,
{
    // The item at `j` is the one at `p`, so the one at `i` of the other list occurs before.
    assert(items[j] == b[p]);
    assert(occurs_before(items, b[i], j));
    let k = choose|k: int| 0 <= k < j && #[trigger] items[k] == b[i];
    assert(items[k] == a[q]);
    assert(occurs_before(items, a[i], k));
    let m = choose|m: int| 0 <= m < k && #[trigger] items[m] == a[i];
    lemma_no_descent(items, a, b, i, p, q, m);
}

/// One more item is listed at the end, unless it is listed already.
proof fn lemma_one_more<T>(items: Seq<T>, listed: Seq<T>, item: T)
    requires
        lists_once(items, listed),
    ensures
        lists_once(items.push(item), model::with_item(listed, item)),
{
    let all = items.push(item);
    let grown = model::with_item(listed, item);
    assert forall|x: T| #[trigger] grown.contains(x) <==> all.contains(x) by {
        assert(listed.contains(x) <==> items.contains(x));
        model::lemma_pushed(items, item, x);
        model::lemma_pushed(listed, item, x);
    }
    assert forall|a: int, b: int, j: int|
        #![trigger occurs_before(all, grown[a], j), grown[b]]
        0 <= a < b < grown.len() && 0 <= j < all.len() && all[j] == grown[b] implies occurs_before(
        all,
        grown[a],
        j,
    ) by {
        assert(grown[a] == listed[a]);
        if j < items.len() {
            assert(items[j] == all[j]);
            assert(items.contains(items[j]));
            assert(listed.contains(all[j]));
            if b >= listed.len() {
                assert(grown[b] == item);
            }
            assert(grown[b] == listed[b]);
            assert(occurs_before(items, listed[a], j));
            let k = choose|k: int| 0 <= k < j && #[trigger] items[k] == listed[a];
            assert(all[k] == grown[a]);
        } else {
            assert(listed.contains(listed[a]));
            let k = choose|k: int| 0 <= k < items.len() && items[k] == listed[a];
            assert(all[k] == grown[a]);
        }
    }
}

/// Nothing is listed of nothing.
proof fn lemma_none<T>()
    ensures
        lists_once(Seq::<T>::empty(), Seq::<T>::empty()),
{
}

/// Items without repetitions list themselves.
pub proof fn lemma_lists_itself<T>(items: Seq<T>)
    requires
        items.no_duplicates(),
    ensures
        lists_once(items, items),
{
    assert forall|a: int, b: int, j: int|
        #![trigger occurs_before(items, items[a], j), items[b]]
        0 <= a < b < items.len() && 0 <= j < items.len() && items[j] == items[b] implies
        occurs_before(items, items[a], j) by {
        assert(j == b);
        assert(items[a] == items[a]);
    }
}

/// What is left without repetitions: each item where it stands first.
pub proof fn lemma_distinct<K>(items: Seq<K>)
    ensures
        lists_once(items, model::distinct(items)),
    decreases items.len(),
{
    if items.len() == 0 {
        assert(items =~= Seq::empty());
        lemma_none::<K>();
    } else {
        lemma_distinct(items.drop_last());
        lemma_one_more(items.drop_last(), model::distinct(items.drop_last()), items.last());
        assert(items.drop_last().push(items.last()) =~= items);
    }
}

/// The nodes are listed as they stand.
pub proof fn lemma_nodes<K>(graph: Seq<(K, Seq<K>)>)
    ensures
        model::nodes(graph).len() == graph.len(),
        forall|i: int| 0 <= i < graph.len() ==> (#[trigger] model::nodes(graph)[i]) == graph[i].0,
        forall|k: K| #[trigger] model::nodes(graph).contains(k) <==> model::has_node(graph, k),
        forall|k: K| #[trigger]
            model::has_node(graph, k) <==> exists|i: int|
                0 <= i < graph.len() && (#[trigger] graph[i]).0 == k,
{
    let nodes = model::nodes(graph);
    assert forall|k: K| #[trigger] nodes.contains(k) <==> model::has_node(graph, k) by {
        if nodes.contains(k) {
            let i = choose|i: int| 0 <= i < nodes.len() && nodes[i] == k;
            assert(graph[i].0 == k);
        }
        if model::has_node(graph, k) {
            let i = choose|i: int| 0 <= i < graph.len() && (#[trigger] graph[i]).0 == k;
            assert(nodes[i] == k);
        }
    }
}

/// There is an edge just if the entry of the parent lists the child.
pub proof fn lemma_edge<K>(graph: Seq<(K, Seq<K>)>, parent: K, child: K)
    requires
        model::is_simple(graph),
    ensures
        model::has_edge(graph, parent, child) <==> exists|i: int, j: int|
            0 <= i < graph.len() && 0 <= j < graph[i].1.len() && graph[i].0 == parent
                && #[trigger] graph[i].1[j] == child,
        model::edge_set(graph).contains((parent, child)) <==> model::has_edge(
            graph,
            parent,
            child,
        ),
{
    if model::has_edge(graph, parent, child) {
        let i = model::position(graph, parent);
        let items = model::children(graph, parent);
        let j = choose|j: int| 0 <= j < items.len() && items[j] == child;
        assert(graph[i].1[j] == child);
    }
    if exists|i: int, j: int|
        0 <= i < graph.len() && 0 <= j < graph[i].1.len() && graph[i].0 == parent
            && #[trigger] graph[i].1[j] == child {
        let (i, j) = choose|i: int, j: int|
            0 <= i < graph.len() && 0 <= j < graph[i].1.len() && graph[i].0 == parent
                && #[trigger] graph[i].1[j] == child;
        model::lemma_position(graph, i);
        assert(graph[i].1.contains(graph[i].1[j]));
    }
}

/// One more entry lists its edges after all others, in order.
pub proof fn lemma_edges_of_one_more<K>(graph: Seq<(K, Seq<K>)>, node: K, children: Seq<K>)
    ensures
        model::edges(Seq::<(K, Seq<K>)>::empty()).len() == 0,
        model::edges(graph.push((node, children))).len() == model::edges(graph).len()
            + children.len(),
        forall|i: int|
            0 <= i < model::edges(graph).len() ==> (#[trigger] model::edges(
                graph.push((node, children)),
            )[i]) == model::edges(graph)[i],
        forall|j: int|
            0 <= j < children.len() ==> model::edges(
                graph.push((node, children)),
            )[model::edges(graph).len() + j] == (node, #[trigger] children[j]),
{
    let grown = graph.push((node, children));
    assert(grown.drop_last() =~= graph);
    assert(grown.last() == (node, children));
    assert(model::edges(grown) == model::edges(graph) + model::entry_edges((node, children)));
}

/// A new node comes last.
pub proof fn lemma_with_node<K>(graph: Seq<(K, Seq<K>)>, node: K)
    requires
        model::is_simple(graph),
    ensures
        lists_once(
            model::nodes(graph).push(node),
            model::nodes(model::with_node(graph, node)),
        ),
{
    lemma_nodes_once(graph);
    lemma_nodes(graph);
    lemma_one_more(model::nodes(graph), model::nodes(graph), node);
    assert(model::nodes(model::with_node(graph, node)) =~= model::with_item(
        model::nodes(graph),
        node,
    ));
}

/// A new parent comes last among the nodes, and a new child last among the children of its
/// parent.
pub proof fn lemma_with_edge<K>(graph: Seq<(K, Seq<K>)>, parent: K, child: K)
    requires
        model::is_simple(graph),
    ensures
        lists_once(
            model::nodes(graph).push(parent),
            model::nodes(model::with_edge(graph, parent, child)),
        ),
        lists_once(
            model::children(graph, parent).push(child),
            model::children(model::with_edge(graph, parent, child), parent),
        ),
        forall|k: K|
            k != parent ==> #[trigger] model::children(model::with_edge(graph, parent, child), k)
                == model::children(graph, k),
{
    let grown = model::with_node(graph, parent);
    let result = model::with_edge(graph, parent, child);
    model::lemma_with_node(graph, parent);
    model::lemma_with_edge(graph, parent, child);
    assert(model::has_node(grown, parent));
    lemma_with_node(graph, parent);
    assert(model::nodes(result) =~= model::nodes(grown));
    let p = model::position(grown, parent);
    assert(model::children(grown, parent) == model::children(graph, parent));
    assert(result[p].0 == parent);
    model::lemma_position(result, p);
    let items = model::children(graph, parent);
    assert(items.no_duplicates());
    lemma_lists_itself(items);
    lemma_one_more(items, items, child);
    assert forall|k: K| k != parent implies #[trigger] model::children(result, k)
        == model::children(graph, k) by {
        assert(model::children(grown, k) == model::children(graph, k));
        assert(model::has_node(result, k) <==> model::has_node(graph, k));
        if model::has_node(grown, k) {
            let q = model::position(grown, k);
            assert(result[q] == grown[q]);
            model::lemma_position(result, q);
        } else {
            assert(!model::has_node(graph, k));
        }
    }
}

/// The nodes of a graph occur once.
proof fn lemma_nodes_once<K>(graph: Seq<(K, Seq<K>)>)
    requires
        model::is_simple(graph),
    ensures
        lists_once(model::nodes(graph), model::nodes(graph)),
{
    let nodes = model::nodes(graph);
    assert forall|i: int, j: int| 0 <= i < nodes.len() && 0 <= j < nodes.len() && i != j implies
        nodes[i] != nodes[j] by {
        assert(graph[i].0 != graph[j].0);
    }
    lemma_lists_itself(nodes);
}

/// Listing what is listed, and then more, lists all.
proof fn lemma_listed_further<T>(items: Seq<T>, listed: Seq<T>, item: T, result: Seq<T>)
    requires
        lists_once(items, listed),
        lists_once(listed.push(item), result),
    ensures
        lists_once(items.push(item), result),
{
    lemma_one_more(items, listed, item);
    lemma_lists_itself(listed);
    lemma_one_more(listed, listed, item);
    lemma_lists_once_unique(listed.push(item), result, model::with_item(listed, item));
}

/// Nodes are listed in the order in which they are entered.
pub proof fn lemma_with_nodes<K>(graph: Seq<(K, Seq<K>)>, added: Seq<K>)
    requires
        model::is_simple(graph),
    ensures
        lists_once(
            model::nodes(graph) + added,
            model::nodes(model::with_nodes(graph, added)),
        ),
    decreases added.len(),
{
    let nodes = model::nodes(graph);
    if added.len() == 0 {
        assert(nodes + added =~= nodes);
        lemma_nodes_once(graph);
    } else {
        let init = added.drop_last();
        lemma_with_nodes(graph, init);
        model::lemma_with_nodes(graph, init);
        lemma_with_node(model::with_nodes(graph, init), added.last());
        lemma_listed_further(
            nodes + init,
            model::nodes(model::with_nodes(graph, init)),
            added.last(),
            model::nodes(model::with_nodes(graph, added)),
        );
        assert((nodes + init).push(added.last()) =~= nodes + added);
    }
}

/// Parents are listed in the order in which their edges are added, and the children of each parent
/// in the order in which the edges to them are.
pub proof fn lemma_with_edges<K>(graph: Seq<(K, Seq<K>)>, added: Seq<(K, K)>, parent: K)
    requires
        model::is_simple(graph),
    ensures
        lists_once(
            model::nodes(graph) + added.map_values(|edge: (K, K)| edge.0),
            model::nodes(model::with_edges(graph, added)),
        ),
        lists_once(
            model::children(graph, parent) + added.filter(
                |edge: (K, K)| edge.0 == parent,
            ).map_values(|edge: (K, K)| edge.1),
            model::children(model::with_edges(graph, added), parent),
        ),
    decreases added.len(),
{
    let nodes = model::nodes(graph);
    let items = model::children(graph, parent);
    let own = |edge: (K, K)| edge.0 == parent;
    let start = |edge: (K, K)| edge.0;
    let end = |edge: (K, K)| edge.1;
    reveal(Seq::filter);
    if added.len() == 0 {
        assert(nodes + added.map_values(start) =~= nodes);
        assert(added.filter(own).map_values(end) =~= Seq::<K>::empty());
        assert(items + added.filter(own).map_values(end) =~= items);
        lemma_nodes_once(graph);
        if model::has_node(graph, parent) {
            assert(graph[model::position(graph, parent)].1 == items);
        }
        assert(items.no_duplicates());
        lemma_lists_itself(items);
    } else {
        let init = added.drop_last();
        let (u, v) = added.last();
        let inner = model::with_edges(graph, init);
        let result = model::with_edges(graph, added);
        lemma_with_edges(graph, init, parent);
        model::lemma_with_edges(graph, init);
        lemma_with_edge(inner, u, v);
        assert(result == model::with_edge(inner, u, v));
        lemma_listed_further(
            nodes + init.map_values(start),
            model::nodes(inner),
            u,
            model::nodes(result),
        );
        assert((nodes + init.map_values(start)).push(u) =~= nodes + added.map_values(start));
        let before = init.filter(own).map_values(end);
        if u == parent {
            lemma_listed_further(
                items + before,
                model::children(inner, parent),
                v,
                model::children(result, parent),
            );
            assert(own(added.last()));
            assert(added.filter(own) =~= init.filter(own).push((u, v)));
            assert((items + before).push(v) =~= items + added.filter(own).map_values(end));
        } else {
            assert(!own(added.last()));
            assert(added.filter(own) =~= init.filter(own));
        }
    }
}

/// Children without an entry are entered in the order of the edges to them.
pub proof fn lemma_completed<K>(graph: Seq<(K, Seq<K>)>)
    requires
        model::is_simple(graph),
    ensures
        lists_once(
            model::nodes(graph) + model::edges(graph).map_values(|edge: (K, K)| edge.1),
            model::nodes(model::completed(graph)),
        ),
{
    lemma_with_nodes(graph, model::edges(graph).map_values(|edge: (K, K)| edge.1));
}

/// Entering nodes adds no edges.
pub proof fn lemma_edges_with_nodes<K>(graph: Seq<(K, Seq<K>)>, added: Seq<K>)
    ensures
        model::edges(model::with_nodes(graph, added)) == model::edges(graph),
    decreases added.len(),
{
    if added.len() > 0 {
        let inner = model::with_nodes(graph, added.drop_last());
        lemma_edges_with_nodes(graph, added.drop_last());
        if !model::has_node(inner, added.last()) {
            lemma_edges_of_one_more(inner, added.last(), Seq::empty());
            assert(model::edges(inner.push((added.last(), Seq::empty()))) =~= model::edges(inner));
        }
    }
}

/// A graph made of edges lists first where the given edges start, in their order, then where its
/// own edges end.
pub proof fn lemma_edge_list<K>(added: Seq<(K, K)>)
    ensures
        ({
            let graph = model::completed(model::with_edges(Seq::<(K, Seq<K>)>::empty(), added));
            lists_once(
                added.map_values(|edge: (K, K)| edge.0) + model::edges(graph).map_values(
                    |edge: (K, K)| edge.1,
                ),
                model::nodes(graph),
            )
        }),
{
    let none = Seq::<(K, Seq<K>)>::empty();
    let given = model::with_edges(none, added);
    let starts = added.map_values(|edge: (K, K)| edge.0);
    let ends = model::edges(given).map_values(|edge: (K, K)| edge.1);
    model::lemma_with_edges(none, added);
    if added.len() > 0 {
        lemma_with_edges(none, added, added[0].0);
    } else {
        lemma_nodes_once(none);
        assert(starts =~= model::nodes(none));
    }
    assert(model::nodes(none) + starts =~= starts);
    lemma_completed(given);
    lemma_edges_with_nodes(given, ends);
    lemma_listed_further_by_all(
        starts,
        model::nodes(given),
        ends,
        model::nodes(model::completed(given)),
    );
}

/// Turning round one more entry lists its node and then its children after all others. The node
/// becomes the last child of each of its children.
pub proof fn lemma_reversed_with_one_more<K>(
    graph: Seq<(K, Seq<K>)>,
    node: K,
    children: Seq<K>,
    child: K,
)
    requires
        model::is_simple(graph.push((node, children))),
    ensures
        model::reversed(Seq::<(K, Seq<K>)>::empty()).len() == 0,
        lists_once(
            model::nodes(model::reversed(graph)).push(node) + children,
            model::nodes(model::reversed(graph.push((node, children)))),
        ),
        model::children(model::reversed(graph.push((node, children))), child)
            == if children.contains(child) {
            model::children(model::reversed(graph), child).push(node)
        } else {
            model::children(model::reversed(graph), child)
        },
{
    let grown = graph.push((node, children));
    assert(grown.drop_last() =~= graph);
    assert(grown.last() == (node, children));
    assert forall|i: int, j: int| 0 <= i < graph.len() && 0 <= j < graph.len() && i != j implies (
    #[trigger] graph[i]).0 != (#[trigger] graph[j]).0 by {
        assert(grown[i].0 != grown[j].0);
    }
    assert forall|i: int| 0 <= i < graph.len() implies (#[trigger] graph[i]).1.no_duplicates() by {
        assert(grown[i].1.no_duplicates());
    }
    assert(grown[graph.len() as int].1.no_duplicates());
    model::lemma_reversed_edges(graph);
    let before = model::reversed(graph);
    let entered = model::with_node(before, node);
    let turned = children.map_values(|child: K| (child, node));
    let result = model::reversed(grown);
    assert(result == model::with_edges(entered, turned));
    model::lemma_with_node(before, node);
    lemma_with_node(before, node);
    lemma_with_edges(entered, turned, child);
    assert(turned.map_values(|edge: (K, K)| edge.0) =~= children);
    let nodes = model::nodes(before).push(node);
    lemma_nodes_once(entered);
    lemma_listed_further_by_all(nodes, model::nodes(entered), children, model::nodes(result));
    // The children of `child`.
    let own = |edge: (K, K)| edge.0 == child;
    let items = model::children(before, child);
    assert(model::children(entered, child) == items);
    lemma_own_turned(children, node, child);
    let more = turned.filter(own).map_values(|edge: (K, K)| edge.1);
    assert(!items.contains(node)) by {
        if items.contains(node) {
            assert(model::has_edge(before, child, node));
            assert(model::has_edge(graph, node, child));
            let p = model::position(graph, node);
            assert(grown[p].0 == grown[graph.len() as int].0);
        }
    }
    assert(items.no_duplicates()) by {
        if model::has_node(before, child) {
            assert(before[model::position(before, child)].1 == items);
        }
    }
    let all = items + more;
    assert(all.no_duplicates());
    lemma_lists_itself(all);
    lemma_lists_once_unique(all, all, model::children(result, child));
    if children.contains(child) {
        assert(all =~= items.push(node));
    } else {
        assert(all =~= items);
    }
}

/// Listing what is listed, and then more, lists all.
proof fn lemma_listed_further_by_all<T>(
    items: Seq<T>,
    listed: Seq<T>,
    more: Seq<T>,
    result: Seq<T>,
)
    requires
        lists_once(items, listed),
        lists_once(listed + more, result),
    ensures
        lists_once(items + more, result),
    decreases more.len(),
{
    if more.len() == 0 {
        assert(items + more =~= items);
        assert(listed + more =~= listed);
        lemma_lists_itself(listed);
        lemma_lists_once_unique(listed, listed, result);
    } else {
        let init = more.drop_last();
        let last = more.last();
        let inner = model::distinct(listed + init);
        lemma_distinct(listed + init);
        lemma_listed_further_by_all(items, listed, init, inner);
        lemma_one_more(items + init, inner, last);
        lemma_one_more(listed + init, inner, last);
        assert((listed + init).push(last) =~= listed + more);
        assert((items + init).push(last) =~= items + more);
        lemma_lists_once_unique(listed + more, result, model::with_item(inner, last));
    }
}

/// Of the edges to one node, at most one starts at a given node.
proof fn lemma_own_turned<K>(children: Seq<K>, node: K, child: K)
    requires
        children.no_duplicates(),
    ensures
        children.map_values(|child: K| (child, node)).filter(
            |edge: (K, K)| edge.0 == child,
        ).map_values(|edge: (K, K)| edge.1) == if children.contains(child) {
            seq![node]
        } else {
            Seq::empty()
        },
    decreases children.len(),
{
    reveal(Seq::filter);
    let turned = children.map_values(|child: K| (child, node));
    let own = |edge: (K, K)| edge.0 == child;
    let end = |edge: (K, K)| edge.1;
    if children.len() == 0 {
        assert(turned.filter(own).map_values(end) =~= Seq::<K>::empty());
    } else {
        let init = children.drop_last();
        let last = children.last();
        lemma_own_turned(init, node, child);
        assert(turned.drop_last() =~= init.map_values(|child: K| (child, node)));
        assert(turned.last() == (last, node));
        let before = turned.drop_last().filter(own).map_values(end);
        assert(children[children.len() - 1] == last);
        if last == child {
            if init.contains(child) {
                let i = choose|i: int| 0 <= i < init.len() && init[i] == child;
                assert(children[i] == children[children.len() - 1]);
            }
            assert(own(turned.last()));
            assert(turned.filter(own).map_values(end) =~= seq![node]);
        } else {
            assert(!own(turned.last()));
            if children.contains(child) {
                let i = choose|i: int| 0 <= i < children.len() && children[i] == child;
                assert(init[i] == child);
            }
            if init.contains(child) {
                let i = choose|i: int| 0 <= i < init.len() && init[i] == child;
                assert(children[i] == child);
            }
        }
    }
}

/// The nodes as a graph names them: each node, followed by its children.
pub open spec fn named<K>(graph: Seq<(K, Seq<K>)>) -> Seq<K>
    decreases graph.len(),
{
    if graph.len() == 0 {
        Seq::empty()
    } else {
        named(graph.drop_last()).push(graph.last().0) + graph.last().1
    }
}

/// A graph that is turned round lists its nodes in the order in which they are named.
pub proof fn lemma_reversed<K>(graph: Seq<(K, Seq<K>)>)
    requires
        model::is_simple(graph),
    ensures
        lists_once(named(graph), model::nodes(model::reversed(graph))),
    decreases graph.len(),
{
    if graph.len() == 0 {
        assert(model::nodes(model::reversed(graph)) =~= Seq::<K>::empty());
        lemma_none::<K>();
    } else {
        let init = graph.drop_last();
        let (node, children) = graph.last();
        model::lemma_drop_last(graph);
        lemma_reversed(init);
        assert(init.push((node, children)) =~= graph);
        lemma_reversed_with_one_more(init, node, children, node);
        let before = model::nodes(model::reversed(init));
        let more = seq![node] + children;
        assert(before.push(node) + children =~= before + more);
        lemma_listed_further_by_all(
            named(init),
            before,
            more,
            model::nodes(model::reversed(graph)),
        );
        assert(named(init) + more =~= named(graph));
    }
}

/// Naming again what is named changes nothing.
pub proof fn lemma_named_again<T>(items: Seq<T>, more: Seq<T>, listed: Seq<T>)
    requires
        forall|i: int| 0 <= i < more.len() ==> items.contains(#[trigger] more[i]),
    ensures
        lists_once(items, listed) <==> lists_once(items + more, listed),
    decreases more.len(),
{
    if more.len() == 0 {
        assert(items + more =~= items);
    } else {
        let init = more.drop_last();
        let last = more.last();
        assert forall|i: int| 0 <= i < init.len() implies items.contains(#[trigger] init[i]) by {
            assert(more[i] == init[i]);
        }
        lemma_named_again(items, init, listed);
        let all = items + init;
        assert(all.push(last) =~= items + more);
        assert(items.contains(more[more.len() - 1]));
        let k = choose|k: int| 0 <= k < items.len() && items[k] == last;
        assert(all[k] == last);
        let plain = model::distinct(all);
        lemma_distinct(all);
        assert(plain.contains(last));
        lemma_one_more(all, plain, last);
        if lists_once(all, listed) {
            lemma_lists_once_unique(all, plain, listed);
        }
        if lists_once(all.push(last), listed) {
            lemma_lists_once_unique(all.push(last), plain, listed);
        }
    }
}

/// What a graph names.
proof fn lemma_named<K>(graph: Seq<(K, Seq<K>)>, i: int)
    requires
        0 <= i < graph.len(),
    ensures
        named(graph).contains(graph[i].0),
        forall|j: int| 0 <= j < graph[i].1.len() ==> named(graph).contains(#[trigger] graph[i].1[j]),
    decreases graph.len(),
{
    let init = graph.drop_last();
    let before = named(init).push(graph.last().0);
    let all = named(graph);
    if i < init.len() {
        lemma_named(init, i);
        assert forall|x: K| named(init).contains(x) implies all.contains(x) by {
            let k = choose|k: int| 0 <= k < named(init).len() && named(init)[k] == x;
            assert(all[k] == x);
        }
        assert(init[i] == graph[i]);
        assert forall|j: int| 0 <= j < graph[i].1.len() implies all.contains(
            #[trigger] graph[i].1[j],
        ) by {
            assert(named(init).contains(init[i].1[j]));
        }
    } else {
        assert(all[named(init).len() as int] == graph[i].0);
        assert forall|j: int| 0 <= j < graph[i].1.len() implies all.contains(
            #[trigger] graph[i].1[j],
        ) by {
            assert(all[before.len() + j] == graph[i].1[j]);
        }
    }
}

/// Entering nodes that are named names them once more.
proof fn lemma_named_with_nodes<K>(graph: Seq<(K, Seq<K>)>, added: Seq<K>, listed: Seq<K>)
    requires
        forall|i: int| 0 <= i < added.len() ==> named(graph).contains(#[trigger] added[i]),
        lists_once(named(graph), listed),
    ensures
        lists_once(named(model::with_nodes(graph, added)), listed),
    decreases added.len(),
{
    if added.len() > 0 {
        let init = added.drop_last();
        let last = added.last();
        assert forall|i: int| 0 <= i < init.len() implies named(graph).contains(
            #[trigger] init[i],
        ) by {
            assert(added[i] == init[i]);
        }
        lemma_named_with_nodes(graph, init, listed);
        let inner = model::with_nodes(graph, init);
        if !model::has_node(inner, last) {
            let grown = inner.push((last, Seq::<K>::empty()));
            assert(grown.drop_last() =~= inner);
            assert(grown.last() == (last, Seq::<K>::empty()));
            assert(named(grown) =~= named(inner) + seq![last]);
            assert(named(graph).contains(added[added.len() - 1]));
            assert(listed.contains(last));
            assert(named(inner).contains(last));
            lemma_named_again(named(inner), seq![last], listed);
        }
    }
}

/// A graph that is completed and then turned round lists its nodes in the order in which they are
/// named.
pub proof fn lemma_completed_and_reversed<K>(graph: Seq<(K, Seq<K>)>)
    requires
        model::is_simple(graph),
    ensures
        lists_once(named(graph), model::nodes(model::reversed(model::completed(graph)))),
{
    let whole = model::completed(graph);
    let ends = model::edges(graph).map_values(|edge: (K, K)| edge.1);
    let plain = model::distinct(named(graph));
    model::lemma_completed(graph);
    model::lemma_edges(graph);
    lemma_reversed(whole);
    lemma_distinct(named(graph));
    assert forall|i: int| 0 <= i < ends.len() implies named(graph).contains(#[trigger] ends[i]) by {
        let edge = model::edges(graph)[i];
        assert(model::edges(graph).contains((edge.0, edge.1)));
        assert(model::has_edge(graph, edge.0, edge.1));
        let p = model::position(graph, edge.0);
        lemma_named(graph, p);
        let items = model::children(graph, edge.0);
        let j = choose|j: int| 0 <= j < items.len() && items[j] == edge.1;
        assert(graph[p].1[j] == edge.1);
    }
    lemma_named_with_nodes(graph, ends, plain);
    lemma_lists_once_unique(named(whole), plain, model::nodes(model::reversed(whole)));
}

/// The part that a node leads to lists its entries as they are, in the same order.
pub proof fn lemma_part_from<K>(graph: Seq<(K, Seq<K>)>, start: K)
    ensures
        forall|i: int|
            0 <= i < graph.len() ==> (reach::part_from(graph, start).contains(#[trigger] graph[i])
                <==> paths::reaches(model::edge_set(graph), start, graph[i].0)),
        forall|a: int, b: int|
            0 <= a < b < reach::part_from(graph, start).len() ==> #[trigger] stand_in_order(
                graph,
                reach::part_from(graph, start)[a],
                reach::part_from(graph, start)[b],
            ),
        forall|a: int|
            0 <= a < reach::part_from(graph, start).len() ==> graph.contains(
                #[trigger] reach::part_from(graph, start)[a],
            ),
{
    let keep = |entry: (K, Seq<K>)| paths::reaches(model::edge_set(graph), start, entry.0);
    lemma_filter(graph, keep);
}

/// Leaving out items keeps the others in order.
proof fn lemma_filter<T>(items: Seq<T>, keep: spec_fn(T) -> bool)
    ensures
        forall|i: int|
            0 <= i < items.len() ==> (items.filter(keep).contains(#[trigger] items[i]) <==> keep(
                items[i],
            )),
        forall|a: int, b: int|
            0 <= a < b < items.filter(keep).len() ==> #[trigger] stand_in_order(
                items,
                items.filter(keep)[a],
                items.filter(keep)[b],
            ),
        forall|a: int|
            0 <= a < items.filter(keep).len() ==> items.contains(#[trigger] items.filter(keep)[a])
                && keep(items.filter(keep)[a]),
    decreases items.len(),
{
    reveal(Seq::filter);
    if items.len() > 0 {
        let init = items.drop_last();
        let last = items.last();
        let inner = init.filter(keep);
        let result = items.filter(keep);
        lemma_filter(init, keep);
        assert(items[items.len() - 1] == last);
        assert forall|a: int| 0 <= a < result.len() implies items.contains(#[trigger] result[a])
            && keep(result[a]) by {
            if a < inner.len() {
                assert(result[a] == inner[a]);
                let i = choose|i: int| 0 <= i < init.len() && init[i] == inner[a];
                assert(items[i] == result[a]);
            }
        }
        assert forall|i: int| 0 <= i < items.len() implies (result.contains(#[trigger] items[i])
            <==> keep(items[i])) by {
            if keep(items[i]) {
                if i < init.len() {
                    assert(init[i] == items[i]);
                    let a = choose|a: int| 0 <= a < inner.len() && inner[a] == items[i];
                    assert(result[a] == items[i]);
                } else {
                    assert(result[inner.len() as int] == items[i]);
                }
            }
        }
        assert forall|a: int, b: int| 0 <= a < b < result.len() implies #[trigger] stand_in_order(
            items,
            result[a],
            result[b],
        ) by {
            assert(result[a] == inner[a]);
            if b < inner.len() {
                assert(result[b] == inner[b]);
                assert(stand_in_order(init, inner[a], inner[b]));
                let (i, j) = choose|i: int, j: int|
                    0 <= i < j < init.len() && #[trigger] init[i] == inner[a]
                        && #[trigger] init[j] == inner[b];
                assert(items[i] == init[i] && items[j] == init[j]);
            } else {
                let i = choose|i: int| 0 <= i < init.len() && init[i] == inner[a];
                assert(items[i] == init[i]);
                assert(items[items.len() - 1] == result[b]);
            }
        }
    }
}

} // verus!
