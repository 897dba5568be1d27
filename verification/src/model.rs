//! The mathematical model of a graph: its nodes in order, each with its children in order.
use vstd::prelude::*;

verus! {

/// Nodes in order, each with its children in order.
pub type Adjacency<K> = Seq<(K, Seq<K>)>;

/// `node` has an entry.
pub open spec fn has_node<K>(graph: Adjacency<K>, node: K) -> bool {
    exists|i: int| 0 <= i < graph.len() && (#[trigger] graph[i]).0 == node
}

/// Where the entry of `node` stands.
pub open spec fn position<K>(graph: Adjacency<K>, node: K) -> int
    recommends
        has_node(graph, node),
{
    choose|i: int| 0 <= i < graph.len() && (#[trigger] graph[i]).0 == node
}

/// The children of `node`, none if it has no entry.
pub open spec fn children<K>(graph: Adjacency<K>, node: K) -> Seq<K> {
    if has_node(graph, node) {
        graph[position(graph, node)].1
    } else {
        Seq::empty()
    }
}

/// `child` is a child of `parent`.
pub open spec fn has_edge<K>(graph: Adjacency<K>, parent: K, child: K) -> bool {
    children(graph, parent).contains(child)
}

/// The edges as a set of pairs.
pub open spec fn edge_set<K>(graph: Adjacency<K>) -> Set<(K, K)> {
    Set::new(|e: (K, K)| has_edge(graph, e.0, e.1))
}

/// The nodes in order.
pub open spec fn nodes<K>(graph: Adjacency<K>) -> Seq<K> {
    graph.map_values(|entry: (K, Seq<K>)| entry.0)
}

/// No node has two entries, and no entry lists a child twice.
pub open spec fn is_simple<K>(graph: Adjacency<K>) -> bool {
    &&& forall|i: int, j: int|
        0 <= i < graph.len() && 0 <= j < graph.len() && i != j ==> (#[trigger] graph[i]).0 != (
        #[trigger] graph[j]).0
    &&& forall|i: int| 0 <= i < graph.len() ==> (#[trigger] graph[i]).1.no_duplicates()
}

/// Every child has an entry of its own.
pub open spec fn is_canonical<K>(graph: Adjacency<K>) -> bool {
    forall|i: int, j: int|
        0 <= i < graph.len() && 0 <= j < graph[i].1.len() ==> has_node(
            graph,
            #[trigger] graph[i].1[j],
        )
}

/// `items` with `item` at the end, unless it is there already.
pub open spec fn with_item<K>(items: Seq<K>, item: K) -> Seq<K> {
    if items.contains(item) {
        items
    } else {
        items.push(item)
    }
}

/// The items without repetitions, each where it stands first.
pub open spec fn distinct<K>(items: Seq<K>) -> Seq<K>
    decreases items.len(),
{
    if items.len() == 0 {
        Seq::empty()
    } else {
        with_item(distinct(items.drop_last()), items.last())
    }
}

/// `graph` with an entry for `node`: the one that it has, or one without children at the end.
pub open spec fn with_node<K>(graph: Adjacency<K>, node: K) -> Adjacency<K> {
    if has_node(graph, node) {
        graph
    } else {
        graph.push((node, Seq::empty()))
    }
}

/// `graph` with an entry for `parent` that lists `child`.
pub open spec fn with_edge<K>(graph: Adjacency<K>, parent: K, child: K) -> Adjacency<K> {
    let grown = with_node(graph, parent);
    let i = position(grown, parent);
    grown.update(i, (parent, with_item(grown[i].1, child)))
}

/// `graph` with an entry for each of `added`, in order.
pub open spec fn with_nodes<K>(graph: Adjacency<K>, added: Seq<K>) -> Adjacency<K>
    decreases added.len(),
{
    if added.len() == 0 {
        graph
    } else {
        with_node(with_nodes(graph, added.drop_last()), added.last())
    }
}

/// `graph` with each of the edges `added`, in order.
pub open spec fn with_edges<K>(graph: Adjacency<K>, added: Seq<(K, K)>) -> Adjacency<K>
    decreases added.len(),
{
    if added.len() == 0 {
        graph
    } else {
        with_edge(with_edges(graph, added.drop_last()), added.last().0, added.last().1)
    }
}

/// The edges of one entry, in order.
pub open spec fn entry_edges<K>(entry: (K, Seq<K>)) -> Seq<(K, K)> {
    entry.1.map_values(|child: K| (entry.0, child))
}

/// The edges in order: by parent, then by child.
pub open spec fn edges<K>(graph: Adjacency<K>) -> Seq<(K, K)>
    decreases graph.len(),
{
    if graph.len() == 0 {
        Seq::empty()
    } else {
        edges(graph.drop_last()) + entry_edges(graph.last())
    }
}

/// `graph` with an entry for every child that lacks one, in the order of the edges.
pub open spec fn completed<K>(graph: Adjacency<K>) -> Adjacency<K> {
    with_nodes(graph, edges(graph).map_values(|e: (K, K)| e.1))
}

/// The same nodes with all edges turned round: each node in order is entered, then becomes a
/// child of each of its children.
pub open spec fn reversed<K>(graph: Adjacency<K>) -> Adjacency<K>
    decreases graph.len(),
{
    if graph.len() == 0 {
        Seq::empty()
    } else {
        let (node, children) = graph.last();
        with_edges(
            with_node(reversed(graph.drop_last()), node),
            children.map_values(|child: K| (child, node)),
        )
    }
}

/// Both graphs have the same nodes and the same edges, in whatever order.
pub open spec fn same_graph<K>(a: Adjacency<K>, b: Adjacency<K>) -> bool {
    &&& forall|k: K| #[trigger] has_node(a, k) <==> has_node(b, k)
    &&& forall|u: K, v: K| #[trigger] has_edge(a, u, v) <==> has_edge(b, u, v)
}

/// In a simple graph the entry of a node stands in one place only.
pub proof fn lemma_position<K>(graph: Adjacency<K>, i: int)
    requires
        is_simple(graph),
        0 <= i < graph.len(),
    ensures
        has_node(graph, graph[i].0),
        position(graph, graph[i].0) == i,
        children(graph, graph[i].0) == graph[i].1,
{
    assert(graph[i].0 == graph[i].0);
    let p = position(graph, graph[i].0);
    assert(graph[p].0 == graph[i].0);
}

/// A new entry at the end adds a node with its children and changes nothing else.
pub proof fn lemma_push_entry<K>(graph: Adjacency<K>, entry: (K, Seq<K>))
    requires
        is_simple(graph),
        !has_node(graph, entry.0),
        entry.1.no_duplicates(),
    ensures
        is_simple(graph.push(entry)),
        forall|k: K| #[trigger]
            has_node(graph.push(entry), k) <==> has_node(graph, k) || k == entry.0,
        children(graph.push(entry), entry.0) == entry.1,
        forall|k: K|
            k != entry.0 ==> #[trigger] children(graph.push(entry), k) == children(graph, k),
{
    let grown = graph.push(entry);
    assert forall|i: int, j: int|
        0 <= i < grown.len() && 0 <= j < grown.len() && i != j implies (#[trigger] grown[i]).0 != (
    #[trigger] grown[j]).0 by {
        if i < graph.len() {
            assert(graph[i].0 == grown[i].0);
        }
        if j < graph.len() {
            assert(graph[j].0 == grown[j].0);
        }
    }
    assert forall|i: int| 0 <= i < grown.len() implies (#[trigger] grown[i]).1.no_duplicates() by {
        if i < graph.len() {
            assert(graph[i].1 == grown[i].1);
        }
    }
    assert forall|k: K| #[trigger] has_node(grown, k) <==> has_node(graph, k) || k == entry.0 by {
        if has_node(graph, k) {
            assert(grown[position(graph, k)].0 == k);
        }
        if k == entry.0 {
            assert(grown[graph.len() as int].0 == k);
        }
        if has_node(grown, k) {
            let p = position(grown, k);
            if p < graph.len() {
                assert(graph[p].0 == k);
            }
        }
    }
    lemma_position(grown, graph.len() as int);
    assert forall|k: K| k != entry.0 implies #[trigger] children(grown, k) == children(
        graph,
        k,
    ) by {
        assert(has_node(grown, k) <==> has_node(graph, k));
        if has_node(graph, k) {
            let p = position(graph, k);
            assert(grown[p] == graph[p]);
            lemma_position(grown, p);
        }
    }
}

/// What a sequence holds with one more item.
pub proof fn lemma_pushed<T>(items: Seq<T>, item: T, x: T)
    ensures
        items.push(item).contains(x) <==> items.contains(x) || x == item,
{
    if items.contains(x) {
        let i = choose|i: int| 0 <= i < items.len() && items[i] == x;
        assert(items.push(item)[i] == x);
    }
    assert(items.push(item)[items.len() as int] == item);
    if items.push(item).contains(x) {
        let i = choose|i: int| 0 <= i < items.push(item).len() && items.push(item)[i] == x;
        if i < items.len() {
            assert(items[i] == x);
        }
    }
}

/// Items that occur once are the distinct ones.
pub proof fn lemma_distinct<K>(items: Seq<K>)
    ensures
        distinct(items).no_duplicates(),
        forall|k: K| #[trigger] distinct(items).contains(k) <==> items.contains(k),
        items.no_duplicates() ==> distinct(items) == items,
    decreases items.len(),
{
    if items.len() > 0 {
        let init = items.drop_last();
        let last = items.last();
        let inner = distinct(init);
        lemma_distinct(init);
        assert(items[items.len() - 1] == last);
        assert forall|k: K| #[trigger] distinct(items).contains(k) <==> items.contains(k) by {
            assert(inner.contains(k) <==> init.contains(k));
            if items.contains(k) {
                let i = choose|i: int| 0 <= i < items.len() && items[i] == k;
                if i < init.len() {
                    assert(init[i] == k);
                }
            }
            if init.contains(k) {
                let i = choose|i: int| 0 <= i < init.len() && init[i] == k;
                assert(items[i] == k);
            }
            if inner.contains(k) {
                let i = choose|i: int| 0 <= i < inner.len() && inner[i] == k;
                assert(inner.push(last)[i] == k);
            }
            assert(inner.push(last)[inner.len() as int] == last);
        }
        if items.no_duplicates() {
            if init.contains(last) {
                let i = choose|i: int| 0 <= i < init.len() && init[i] == last;
                assert(items[i] == items[items.len() - 1]);
            }
            assert(init.push(last) =~= items);
        }
    } else {
        assert(distinct(items) =~= items);
    }
}

/// Entering a node and then each of its children makes a new entry.
pub proof fn lemma_grow_entry<K>(graph: Adjacency<K>, node: K, items: Seq<K>)
    requires
        !has_node(graph, node),
    ensures
        with_edges(with_node(graph, node), entry_edges((node, items))) == graph.push(
            (node, distinct(items)),
        ),
    decreases items.len(),
{
    let grown = with_node(graph, node);
    let added = entry_edges((node, items));
    if items.len() > 0 {
        let init = items.drop_last();
        let last = items.last();
        lemma_grow_entry(graph, node, init);
        assert(added.drop_last() =~= entry_edges((node, init)));
        assert(added.last() == (node, last));
        let inner = graph.push((node, distinct(init)));
        assert(inner[graph.len() as int].0 == node);
        assert(has_node(inner, node));
        let p = position(inner, node);
        if p < graph.len() {
            assert(graph[p].0 == node);
        }
        assert(with_edges(grown, added) =~= graph.push((node, distinct(items))));
    }
}

/// Entering nodes that are there changes nothing.
pub proof fn lemma_with_known_nodes<K>(graph: Adjacency<K>, added: Seq<K>)
    requires
        forall|i: int| 0 <= i < added.len() ==> has_node(graph, #[trigger] added[i]),
    ensures
        with_nodes(graph, added) == graph,
    decreases added.len(),
{
    if added.len() > 0 {
        let init = added.drop_last();
        assert forall|i: int| 0 <= i < init.len() implies has_node(graph, #[trigger] init[i]) by {
            assert(init[i] == added[i]);
        }
        lemma_with_known_nodes(graph, init);
        assert(has_node(graph, added[added.len() - 1]));
    }
}

/// A canonical graph is complete.
pub proof fn lemma_canonical_is_complete<K>(graph: Adjacency<K>)
    requires
        is_simple(graph),
        is_canonical(graph),
    ensures
        completed(graph) == graph,
{
    lemma_edges(graph);
    let all = edges(graph);
    let targets = all.map_values(|e: (K, K)| e.1);
    assert forall|i: int| 0 <= i < targets.len() implies has_node(
        graph,
        #[trigger] targets[i],
    ) by {
        assert(all.contains((all[i].0, all[i].1)));
        lemma_edge_ends(graph, all[i].0, all[i].1);
    }
    lemma_with_known_nodes(graph, targets);
}

/// Entering a node changes no edge.
pub proof fn lemma_with_node<K>(graph: Adjacency<K>, node: K)
    requires
        is_simple(graph),
    ensures
        is_simple(with_node(graph, node)),
        forall|k: K| #[trigger]
            has_node(with_node(graph, node), k) <==> has_node(graph, k) || k == node,
        forall|k: K| #[trigger] children(with_node(graph, node), k) == children(graph, k),
{
    let grown = with_node(graph, node);
    if !has_node(graph, node) {
        assert forall|k: K| #[trigger] has_node(grown, k) <==> has_node(graph, k) || k == node by {
            if has_node(graph, k) {
                let p = position(graph, k);
                assert(grown[p].0 == k);
            }
            if k == node {
                assert(grown[graph.len() as int].0 == k);
            }
            if has_node(grown, k) {
                let p = position(grown, k);
                if p < graph.len() {
                    assert(graph[p].0 == k);
                }
            }
        }
        assert forall|i: int, j: int|
            0 <= i < grown.len() && 0 <= j < grown.len() && i != j implies (#[trigger] grown[i]).0
            != (#[trigger] grown[j]).0 by {
            if i < graph.len() {
                assert(graph[i].0 == grown[i].0);
            }
            if j < graph.len() {
                assert(graph[j].0 == grown[j].0);
            }
        }
        assert forall|i: int| 0 <= i < grown.len() implies (
        #[trigger] grown[i]).1.no_duplicates() by {
            if i < graph.len() {
                assert(graph[i].1 == grown[i].1);
            }
        }
        assert forall|k: K| #[trigger] children(grown, k) == children(graph, k) by {
            assert(has_node(grown, k) <==> has_node(graph, k) || k == node);
            if has_node(graph, k) {
                let p = position(graph, k);
                assert(grown[p] == graph[p]);
                lemma_position(grown, p);
            } else if k == node {
                lemma_position(grown, graph.len() as int);
            }
        }
    }
}

/// Adding an edge enters the parent and changes no other edge.
pub proof fn lemma_with_edge<K>(graph: Adjacency<K>, parent: K, child: K)
    requires
        is_simple(graph),
    ensures
        is_simple(with_edge(graph, parent, child)),
        forall|k: K| #[trigger]
            has_node(with_edge(graph, parent, child), k) <==> has_node(graph, k) || k == parent,
        forall|u: K, v: K| #[trigger]
            has_edge(with_edge(graph, parent, child), u, v) <==> has_edge(graph, u, v) || (u
                == parent && v == child),
{
    let grown = with_node(graph, parent);
    lemma_with_node(graph, parent);
    assert(has_node(grown, parent));
    let result = with_edge(graph, parent, child);
    assert forall|i: int| 0 <= i < result.len() implies (#[trigger] result[i]).0 == grown[i].0 by {}
    assert forall|i: int, j: int|
        0 <= i < result.len() && 0 <= j < result.len() && i != j implies (#[trigger] result[i]).0
        != (#[trigger] result[j]).0 by {
        assert(grown[i].0 != grown[j].0);
    }
    assert forall|i: int| 0 <= i < result.len() implies (#[trigger] result[i]).1.no_duplicates() by {
        assert(grown[i].1.no_duplicates());
    }
    assert forall|k: K| #[trigger] has_node(result, k) <==> has_node(graph, k) || k == parent by {
        if has_node(grown, k) {
            assert(result[position(grown, k)].0 == k);
        }
        if has_node(result, k) {
            assert(grown[position(result, k)].0 == k);
        }
        assert(has_node(grown, k) <==> has_node(graph, k) || k == parent);
    }
    assert forall|u: K, v: K| #[trigger]
        has_edge(result, u, v) <==> has_edge(graph, u, v) || (u == parent && v == child) by {
        assert(children(grown, u) == children(graph, u));
        if has_node(grown, u) {
            let q = position(grown, u);
            assert(result[q].0 == u);
            lemma_position(result, q);
            let items = grown[q].1;
            if u == parent && !items.contains(child) {
                assert(items.push(child)[items.len() as int] == child);
                if items.contains(v) {
                    let a = choose|a: int| 0 <= a < items.len() && items[a] == v;
                    assert(items.push(child)[a] == v);
                }
            }
        } else {
            assert(!has_node(result, u));
        }
    }
}

/// Entering nodes changes no edge.
pub proof fn lemma_with_nodes<K>(graph: Adjacency<K>, added: Seq<K>)
    requires
        is_simple(graph),
    ensures
        is_simple(with_nodes(graph, added)),
        forall|k: K| #[trigger]
            has_node(with_nodes(graph, added), k) <==> has_node(graph, k) || added.contains(k),
        forall|k: K| #[trigger] children(with_nodes(graph, added), k) == children(graph, k),
    decreases added.len(),
{
    if added.len() > 0 {
        let init = added.drop_last();
        let last = added.last();
        let inner = with_nodes(graph, init);
        lemma_with_nodes(graph, init);
        lemma_with_node(inner, last);
        assert forall|k: K| #[trigger]
            has_node(with_nodes(graph, added), k) <==> has_node(graph, k) || added.contains(k) by {
            assert(has_node(inner, k) <==> has_node(graph, k) || init.contains(k));
            if added.contains(k) {
                let i = choose|i: int| 0 <= i < added.len() && added[i] == k;
                if i < init.len() {
                    assert(init[i] == k);
                }
            }
            if init.contains(k) {
                let i = choose|i: int| 0 <= i < init.len() && init[i] == k;
                assert(added[i] == k);
            }
            assert(added[added.len() - 1] == last);
        }
        assert forall|k: K| #[trigger]
            children(with_nodes(graph, added), k) == children(graph, k) by {
            assert(children(inner, k) == children(graph, k));
        }
    }
}

/// Adding edges enters their parents and adds no other edge.
pub proof fn lemma_with_edges<K>(graph: Adjacency<K>, added: Seq<(K, K)>)
    requires
        is_simple(graph),
    ensures
        is_simple(with_edges(graph, added)),
        forall|k: K| #[trigger]
            has_node(with_edges(graph, added), k) <==> has_node(graph, k) || exists|i: int|
                0 <= i < added.len() && (#[trigger] added[i]).0 == k,
        forall|u: K, v: K| #[trigger]
            has_edge(with_edges(graph, added), u, v) <==> has_edge(graph, u, v)
                || added.contains((u, v)),
    decreases added.len(),
{
    if added.len() > 0 {
        let init = added.drop_last();
        let last = added.last();
        let inner = with_edges(graph, init);
        let result = with_edges(graph, added);
        lemma_with_edges(graph, init);
        lemma_with_edge(inner, last.0, last.1);
        assert(added[added.len() - 1] == last);
        assert forall|k: K| #[trigger]
            has_node(result, k) <==> has_node(graph, k) || exists|i: int|
                0 <= i < added.len() && (#[trigger] added[i]).0 == k by {
            assert(has_node(inner, k) <==> has_node(graph, k) || exists|i: int|
                0 <= i < init.len() && (#[trigger] init[i]).0 == k);
            if exists|i: int| 0 <= i < added.len() && (#[trigger] added[i]).0 == k {
                let i = choose|i: int| 0 <= i < added.len() && (#[trigger] added[i]).0 == k;
                if i < init.len() {
                    assert(init[i].0 == k);
                }
            }
            if exists|i: int| 0 <= i < init.len() && (#[trigger] init[i]).0 == k {
                let i = choose|i: int| 0 <= i < init.len() && (#[trigger] init[i]).0 == k;
                assert(added[i].0 == k);
            }
        }
        assert forall|u: K, v: K| #[trigger]
            has_edge(result, u, v) <==> has_edge(graph, u, v) || added.contains((u, v)) by {
            assert(has_edge(inner, u, v) <==> has_edge(graph, u, v) || init.contains((u, v)));
            if added.contains((u, v)) {
                let i = choose|i: int| 0 <= i < added.len() && added[i] == (u, v);
                if i < init.len() {
                    assert(init[i] == (u, v));
                }
            }
            if init.contains((u, v)) {
                let i = choose|i: int| 0 <= i < init.len() && init[i] == (u, v);
                assert(added[i] == (u, v));
            }
        }
    }
}

/// What leaving out the last entry takes away.
pub proof fn lemma_drop_last<K>(graph: Adjacency<K>)
    requires
        is_simple(graph),
        graph.len() > 0,
    ensures
        is_simple(graph.drop_last()),
        !has_node(graph.drop_last(), graph.last().0),
        forall|k: K| #[trigger]
            has_node(graph, k) <==> has_node(graph.drop_last(), k) || k == graph.last().0,
        forall|k: K|
            #![trigger children(graph, k)]
            #![trigger children(graph.drop_last(), k)]
            k != graph.last().0 ==> children(graph.drop_last(), k) == children(graph, k),
        children(graph, graph.last().0) == graph.last().1,
{
    let init = graph.drop_last();
    let last = graph.len() - 1;
    lemma_position(graph, last);
    assert forall|i: int, j: int|
        0 <= i < init.len() && 0 <= j < init.len() && i != j implies (#[trigger] init[i]).0 != (
    #[trigger] init[j]).0 by {
        assert(graph[i].0 != graph[j].0);
    }
    assert forall|i: int| 0 <= i < init.len() implies (#[trigger] init[i]).1.no_duplicates() by {
        assert(graph[i].1.no_duplicates());
    }
    if has_node(init, graph.last().0) {
        let p = position(init, graph.last().0);
        assert(graph[p].0 == graph[last].0);
    }
    assert forall|k: K| #[trigger]
        has_node(graph, k) <==> has_node(init, k) || k == graph.last().0 by {
        if has_node(graph, k) {
            let p = position(graph, k);
            if p < last {
                assert(init[p].0 == k);
            }
        }
        if has_node(init, k) {
            assert(graph[position(init, k)].0 == k);
        }
    }
    assert forall|k: K| k != graph.last().0 implies children(init, k) == #[trigger] children(
        graph,
        k,
    ) by {
        if has_node(init, k) {
            let p = position(init, k);
            assert(graph[p] == init[p]);
            lemma_position(graph, p);
        }
    }
}

/// The edges in order are the edges.
pub proof fn lemma_edges<K>(graph: Adjacency<K>)
    requires
        is_simple(graph),
    ensures
        forall|u: K, v: K| #[trigger] edges(graph).contains((u, v)) <==> has_edge(graph, u, v),
    decreases graph.len(),
{
    if graph.len() > 0 {
        let init = graph.drop_last();
        let last = graph.last();
        lemma_drop_last(graph);
        lemma_edges(init);
        let before = edges(init);
        let more = entry_edges(last);
        assert forall|u: K, v: K| #[trigger]
            edges(graph).contains((u, v)) <==> has_edge(graph, u, v) by {
            let all = edges(graph);
            assert(before.contains((u, v)) <==> has_edge(init, u, v));
            if all.contains((u, v)) {
                let i = choose|i: int| 0 <= i < all.len() && all[i] == (u, v);
                if i < before.len() {
                    assert(before[i] == (u, v));
                    assert(has_node(init, u));
                } else {
                    assert(more[i - before.len()] == (u, v));
                    assert(last.1[i - before.len()] == v);
                }
            }
            if has_edge(graph, u, v) {
                if u == last.0 {
                    let j = choose|j: int| 0 <= j < last.1.len() && last.1[j] == v;
                    assert(more[j] == (u, v));
                    assert(all[before.len() + j] == (u, v));
                } else {
                    let i = choose|i: int| 0 <= i < before.len() && before[i] == (u, v);
                    assert(all[i] == (u, v));
                }
            }
        }
    } else {
        assert forall|u: K, v: K| #[trigger]
            edges(graph).contains((u, v)) <==> has_edge(graph, u, v) by {}
    }
}

/// In a canonical graph both ends of an edge are nodes.
pub proof fn lemma_edge_ends<K>(graph: Adjacency<K>, parent: K, child: K)
    requires
        is_canonical(graph),
        has_edge(graph, parent, child),
    ensures
        has_node(graph, parent),
        has_node(graph, child),
{
    let items = children(graph, parent);
    let j = choose|j: int| 0 <= j < items.len() && items[j] == child;
    assert(graph[position(graph, parent)].1[j] == child);
}

/// Completing a graph enters every child and changes no edge.
pub proof fn lemma_completed<K>(graph: Adjacency<K>)
    requires
        is_simple(graph),
    ensures
        is_simple(completed(graph)),
        is_canonical(completed(graph)),
        forall|k: K| #[trigger]
            has_node(completed(graph), k) <==> has_node(graph, k) || exists|u: K| #[trigger]
                has_edge(graph, u, k),
        forall|k: K| #[trigger] children(completed(graph), k) == children(graph, k),
{
    let result = completed(graph);
    let all = edges(graph);
    let targets = all.map_values(|e: (K, K)| e.1);
    lemma_with_nodes(graph, targets);
    lemma_edges(graph);
    assert forall|k: K| #[trigger]
        has_node(result, k) <==> has_node(graph, k) || exists|u: K| #[trigger]
            has_edge(graph, u, k) by {
        if targets.contains(k) {
            let i = choose|i: int| 0 <= i < targets.len() && targets[i] == k;
            assert(all[i] == (all[i].0, k));
            assert(all.contains((all[i].0, k)));
            assert(has_edge(graph, all[i].0, k));
        }
        if exists|u: K| #[trigger] has_edge(graph, u, k) {
            let u = choose|u: K| #[trigger] has_edge(graph, u, k);
            assert(all.contains((u, k)));
            let i = choose|i: int| 0 <= i < all.len() && all[i] == (u, k);
            assert(targets[i] == k);
        }
    }
    assert forall|i: int, j: int| 0 <= i < result.len() && 0 <= j < result[i].1.len() implies has_node(
        result,
        #[trigger] result[i].1[j],
    ) by {
        lemma_position(result, i);
        assert(children(graph, result[i].0).contains(result[i].1[j]));
        assert(has_edge(graph, result[i].0, result[i].1[j]));
    }
}

/// Reversing turns every edge round and enters every end of an edge.
pub proof fn lemma_reversed_edges<K>(graph: Adjacency<K>)
    requires
        is_simple(graph),
    ensures
        is_simple(reversed(graph)),
        forall|k: K| #[trigger]
            has_node(reversed(graph), k) <==> has_node(graph, k) || exists|u: K| #[trigger]
                has_edge(graph, u, k),
        forall|u: K, v: K| #[trigger] has_edge(reversed(graph), u, v) <==> has_edge(graph, v, u),
    decreases graph.len(),
{
    if graph.len() > 0 {
        let init = graph.drop_last();
        let (node, items) = graph.last();
        lemma_drop_last(graph);
        lemma_reversed_edges(init);
        let inner = reversed(init);
        let grown = with_node(inner, node);
        let added = items.map_values(|child: K| (child, node));
        let result = reversed(graph);
        lemma_with_node(inner, node);
        lemma_with_edges(grown, added);
        assert forall|u: K, v: K| #[trigger] has_edge(result, u, v) <==> has_edge(
            graph,
            v,
            u,
        ) by {
            assert(children(grown, u) == children(inner, u));
            assert(has_edge(inner, u, v) <==> has_edge(init, v, u));
            assert(has_edge(result, u, v) <==> has_edge(grown, u, v) || added.contains((u, v)));
            if added.contains((u, v)) {
                let i = choose|i: int| 0 <= i < added.len() && added[i] == (u, v);
                assert(items[i] == u);
            }
            if v == node {
                assert(!has_node(init, v));
                if items.contains(u) {
                    let i = choose|i: int| 0 <= i < items.len() && items[i] == u;
                    assert(added[i] == (u, v));
                }
            } else {
                assert(children(init, v) == children(graph, v));
            }
        }
        assert forall|k: K| #[trigger]
            has_node(result, k) <==> has_node(graph, k) || exists|u: K| #[trigger]
                has_edge(graph, u, k) by {
            assert(has_node(inner, k) <==> has_node(init, k) || exists|u: K| #[trigger]
                has_edge(init, u, k));
            assert(has_node(grown, k) <==> has_node(inner, k) || k == node);
            if exists|i: int| 0 <= i < added.len() && (#[trigger] added[i]).0 == k {
                let i = choose|i: int| 0 <= i < added.len() && (#[trigger] added[i]).0 == k;
                assert(items[i] == k);
                assert(has_edge(graph, node, k));
            }
            if exists|u: K| #[trigger] has_edge(init, u, k) {
                let u = choose|u: K| #[trigger] has_edge(init, u, k);
                assert(has_node(init, u));
                assert(children(init, u) == children(graph, u));
                assert(has_edge(graph, u, k));
            }
            if exists|u: K| #[trigger] has_edge(graph, u, k) {
                let u = choose|u: K| #[trigger] has_edge(graph, u, k);
                if u == node {
                    let i = choose|i: int| 0 <= i < items.len() && items[i] == k;
                    assert(added[i].0 == k);
                } else {
                    assert(children(init, u) == children(graph, u));
                    assert(has_edge(init, u, k));
                }
            }
        }
    } else {
        assert forall|u: K, v: K| #[trigger] has_edge(reversed(graph), u, v) <==> has_edge(
            graph,
            v,
            u,
        ) by {}
    }
}

/// The reverse of a canonical graph has the same nodes and all edges reversed.
pub proof fn lemma_reversed<K>(graph: Adjacency<K>)
    requires
        is_simple(graph),
        is_canonical(graph),
    ensures
        is_simple(reversed(graph)),
        is_canonical(reversed(graph)),
        forall|k: K| #[trigger] has_node(reversed(graph), k) <==> has_node(graph, k),
        forall|u: K, v: K| #[trigger] has_edge(reversed(graph), u, v) <==> has_edge(graph, v, u),
{
    let result = reversed(graph);
    lemma_reversed_edges(graph);
    assert forall|k: K| #[trigger] has_node(result, k) <==> has_node(graph, k) by {
        if exists|u: K| #[trigger] has_edge(graph, u, k) {
            let u = choose|u: K| #[trigger] has_edge(graph, u, k);
            lemma_edge_ends(graph, u, k);
        }
    }
    assert forall|i: int, j: int| 0 <= i < result.len() && 0 <= j < result[i].1.len() implies has_node(
        result,
        #[trigger] result[i].1[j],
    ) by {
        lemma_position(result, i);
        let v = result[i].1[j];
        assert(children(result, result[i].0).contains(v));
        assert(has_edge(result, result[i].0, v));
        lemma_edge_ends(graph, v, result[i].0);
    }
}

/// Reversing twice gives back the graph.
pub proof fn lemma_reversed_twice<K>(graph: Adjacency<K>)
    requires
        is_simple(graph),
        is_canonical(graph),
    ensures
        same_graph(reversed(reversed(graph)), graph),
{
    lemma_reversed(graph);
    lemma_reversed(reversed(graph));
    assert forall|u: K, v: K| #[trigger] has_edge(reversed(reversed(graph)), u, v) <==> has_edge(
        graph,
        u,
        v,
    ) by {
        assert(has_edge(reversed(graph), v, u) <==> has_edge(graph, u, v));
    }
    assert forall|k: K| #[trigger] has_node(reversed(reversed(graph)), k) <==> has_node(
        graph,
        k,
    ) by {
        assert(has_node(reversed(graph), k) <==> has_node(graph, k));
    }
}

} // verus!
