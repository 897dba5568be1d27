//! In what order a depth-first traversal leaves the nodes.
use vstd::prelude::*;

use crate::model;
use crate::postorder;

verus! {

/// The graph without the edges to some nodes.
pub open spec fn without<K>(graph: Seq<(K, Seq<K>)>, gone: Set<K>) -> Seq<(K, Seq<K>)> {
    graph.map_values(
        |entry: (K, Seq<K>)| (entry.0, entry.1.filter(|child: K| !gone.contains(child))),
    )
}

/// What the first `count` children of `start` add to the postorder from it, one after the other:
/// each child that is not listed yet adds the postorder from it, without what is listed.
pub open spec fn listed_upto<K>(graph: Seq<(K, Seq<K>)>, start: K, count: nat) -> Seq<K>
    decreases count,
{
    if count == 0 {
        Seq::empty()
    } else {
        let before = listed_upto(graph, start, (count - 1) as nat);
        let child = model::children(graph, start)[count - 1];
        if child == start || before.contains(child) {
            before
        } else {
            before + postorder::postorder(without(graph, before.push(start).to_set()), child)
        }
    }
}

/// Leaving out edges leaves the nodes as they are.
proof fn lemma_without<K>(graph: Seq<(K, Seq<K>)>, gone: Set<K>, node: K)
    requires
        model::is_simple(graph),
    ensures
        without(graph, gone).len() == graph.len(),
        model::children(without(graph, gone), node) == model::children(graph, node).filter(
            |child: K| !gone.contains(child),
        ),
{
    let rest = without(graph, gone);
    let keep = |child: K| !gone.contains(child);
    reveal(Seq::filter);
    if model::has_node(graph, node) {
        let p = model::position(graph, node);
        assert(rest[p].0 == node);
        assert(model::has_node(rest, node));
        let q = model::position(rest, node);
        assert(graph[q].0 == node);
        assert(p == q);
    } else {
        if model::has_node(rest, node) {
            assert(graph[model::position(rest, node)].0 == node);
        }
        assert(Seq::<K>::empty().filter(keep) =~= Seq::<K>::empty());
    }
}

/// What a filter makes of the first item.
proof fn lemma_filter_first<K>(items: Seq<K>, keep: spec_fn(K) -> bool)
    requires
        items.len() > 0,
    ensures
        items.filter(keep) == if keep(items[0]) {
            seq![items[0]] + items.skip(1).filter(keep)
        } else {
            items.skip(1).filter(keep)
        },
{
    let first = seq![items[0]];
    assert(items =~= first + items.skip(1));
    Seq::filter_distributes_over_add(first, items.skip(1), keep);
    reveal(Seq::filter);
    assert(first.drop_last() =~= Seq::<K>::empty());
    assert(first.last() == items[0]);
    assert(Seq::<K>::empty().filter(keep) =~= Seq::<K>::empty());
    if keep(items[0]) {
        assert(first.filter(keep) =~= first);
    } else {
        assert(first.filter(keep) =~= Seq::<K>::empty());
        assert(Seq::<K>::empty() + items.skip(1).filter(keep) =~= items.skip(1).filter(keep));
    }
}

/// A traversal that has met and left some nodes goes on as if it began in the graph without them.
proof fn lemma_visit_apart<K>(
    graph: Seq<(K, Seq<K>)>,
    depth: nat,
    gone: Set<K>,
    left: Seq<K>,
    state: (Set<K>, Seq<K>),
    node: K,
)
    requires
        model::is_simple(graph),
        !gone.contains(node),
    ensures
        ({
            let after = postorder::visit(without(graph, gone), depth, state, node);
            postorder::visit(graph, depth, (gone.union(state.0), left + state.1), node) == (
                gone.union(after.0),
                left + after.1,
            )
        }),
    decreases depth, 0nat,
{
    let rest = without(graph, gone);
    if depth != 0 && !state.0.contains(node) {
        let inner = (state.0.insert(node), state.1);
        lemma_without(graph, gone, node);
        lemma_visit_all_apart(
            graph,
            (depth - 1) as nat,
            gone,
            left,
            inner,
            model::children(graph, node),
        );
        assert(gone.union(state.0).insert(node) =~= gone.union(inner.0));
        let below = postorder::visit_all(
            rest,
            (depth - 1) as nat,
            inner,
            model::children(rest, node),
        );
        assert((left + below.1).push(node) =~= left + below.1.push(node));
    }
}

/// The same for one node after the other.
proof fn lemma_visit_all_apart<K>(
    graph: Seq<(K, Seq<K>)>,
    depth: nat,
    gone: Set<K>,
    left: Seq<K>,
    state: (Set<K>, Seq<K>),
    nodes: Seq<K>,
)
    requires
        model::is_simple(graph),
    ensures
        ({
            let after = postorder::visit_all(
                without(graph, gone),
                depth,
                state,
                nodes.filter(|child: K| !gone.contains(child)),
            );
            postorder::visit_all(graph, depth, (gone.union(state.0), left + state.1), nodes) == (
                gone.union(after.0),
                left + after.1,
            )
        }),
    decreases depth, nodes.len() + 1,
{
    let keep = |child: K| !gone.contains(child);
    let rest = without(graph, gone);
    let whole = (gone.union(state.0), left + state.1);
    reveal(Seq::filter);
    if nodes.len() > 0 {
        let node = nodes[0];
        lemma_filter_first(nodes, keep);
        let kept = nodes.filter(keep);
        if gone.contains(node) {
            assert(postorder::visit(graph, depth, whole, node) == whole);
            lemma_visit_all_apart(graph, depth, gone, left, state, nodes.skip(1));
        } else {
            assert(kept[0] == node);
            assert(kept.skip(1) =~= nodes.skip(1).filter(keep));
            lemma_visit_apart(graph, depth, gone, left, state, node);
            lemma_visit_all_apart(
                graph,
                depth,
                gone,
                left,
                postorder::visit(rest, depth, state, node),
                nodes.skip(1),
            );
        }
    }
}

/// Visiting a node leaves what it meets.
proof fn lemma_visit_leaves<K>(
    graph: Seq<(K, Seq<K>)>,
    depth: nat,
    state: (Set<K>, Seq<K>),
    node: K,
) -> (more: Seq<K>)
    ensures
        postorder::visit(graph, depth, state, node) == (
            state.0.union(more.to_set()),
            state.1 + more,
        ),
    decreases depth, 0nat,
{
    if depth == 0 || state.0.contains(node) {
        let more = Seq::<K>::empty();
        assert(state.0.union(more.to_set()) =~= state.0);
        assert(state.1 + more =~= state.1);
        more
    } else {
        let inner = (state.0.insert(node), state.1);
        let below = lemma_visit_all_leaves(
            graph,
            (depth - 1) as nat,
            inner,
            model::children(graph, node),
        );
        let more = below.push(node);
        assert forall|k: K| inner.0.union(below.to_set()).contains(k) <==> state.0.union(
            more.to_set(),
        ).contains(k) by {
            model::lemma_pushed(below, node, k);
        }
        assert(inner.0.union(below.to_set()) =~= state.0.union(more.to_set()));
        assert((state.1 + below).push(node) =~= state.1 + more);
        more
    }
}

/// The same for one node after the other.
proof fn lemma_visit_all_leaves<K>(
    graph: Seq<(K, Seq<K>)>,
    depth: nat,
    state: (Set<K>, Seq<K>),
    nodes: Seq<K>,
) -> (more: Seq<K>)
    ensures
        postorder::visit_all(graph, depth, state, nodes) == (
            state.0.union(more.to_set()),
            state.1 + more,
        ),
    decreases depth, nodes.len() + 1,
{
    if nodes.len() == 0 {
        let more = Seq::<K>::empty();
        assert(state.0.union(more.to_set()) =~= state.0);
        assert(state.1 + more =~= state.1);
        more
    } else {
        let first = lemma_visit_leaves(graph, depth, state, nodes[0]);
        let next = postorder::visit(graph, depth, state, nodes[0]);
        let then = lemma_visit_all_leaves(graph, depth, next, nodes.skip(1));
        let more = first + then;
        assert forall|k: K| more.contains(k) <==> first.contains(k) || then.contains(k) by {
            if first.contains(k) {
                let i = choose|i: int| 0 <= i < first.len() && first[i] == k;
                assert(more[i] == k);
            }
            if then.contains(k) {
                let i = choose|i: int| 0 <= i < then.len() && then[i] == k;
                assert(more[first.len() + i] == k);
            }
        }
        assert(state.0.union(first.to_set()).union(then.to_set()) =~= state.0.union(
            more.to_set(),
        ));
        assert(state.1 + first + then =~= state.1 + more);
        more
    }
}

/// How many nodes were not met yet.
spec fn unmet<K>(graph: Seq<(K, Seq<K>)>, met: Set<K>) -> nat {
    model::nodes(graph).to_set().difference(met).len()
}

/// Meeting more nodes leaves no more of them.
proof fn lemma_unmet<K>(graph: Seq<(K, Seq<K>)>, met: Set<K>, more: Set<K>)
    requires
        met.subset_of(more),
    ensures
        unmet(graph, more) <= unmet(graph, met),
        forall|k: K|
            model::has_node(graph, k) && more.contains(k) && !met.contains(k) ==> unmet(graph, more)
                < unmet(graph, met),
        unmet(graph, met) <= graph.len(),
{
    let nodes = model::nodes(graph);
    let before = nodes.to_set().difference(met);
    let after = nodes.to_set().difference(more);
    nodes.lemma_cardinality_of_set();
    vstd::set_lib::lemma_len_subset(before, nodes.to_set());
    vstd::set_lib::lemma_len_subset(after, before);
    assert forall|k: K|
        model::has_node(graph, k) && more.contains(k) && !met.contains(k) implies unmet(graph, more)
        < unmet(graph, met) by {
        let p = model::position(graph, k);
        assert(nodes[p] == k);
        assert(nodes.contains(k));
        assert(before.contains(k));
        vstd::set_lib::lemma_len_subset(after, before.remove(k));
    }
}

/// Where it suffices for all nodes that are left, the bound on the depth does not matter.
proof fn lemma_visit_deeper<K>(
    graph: Seq<(K, Seq<K>)>,
    depth: nat,
    state: (Set<K>, Seq<K>),
    node: K,
)
    requires
        depth > unmet(graph, state.0),
    ensures
        postorder::visit(graph, depth, state, node) == postorder::visit(
            graph,
            depth + 1,
            state,
            node,
        ),
    decreases depth, 0nat,
{
    if !state.0.contains(node) {
        let inner = (state.0.insert(node), state.1);
        let children = model::children(graph, node);
        if model::has_node(graph, node) {
            lemma_unmet(graph, state.0, inner.0);
            lemma_visit_all_deeper(graph, (depth - 1) as nat, inner, children);
        } else {
            assert(children.len() == 0);
            assert(postorder::visit_all(graph, (depth - 1) as nat, inner, children) == inner);
            assert(postorder::visit_all(graph, depth, inner, children) == inner);
        }
    }
}

/// The same for one node after the other.
proof fn lemma_visit_all_deeper<K>(
    graph: Seq<(K, Seq<K>)>,
    depth: nat,
    state: (Set<K>, Seq<K>),
    nodes: Seq<K>,
)
    requires
        depth > unmet(graph, state.0),
    ensures
        postorder::visit_all(graph, depth, state, nodes) == postorder::visit_all(
            graph,
            depth + 1,
            state,
            nodes,
        ),
    decreases depth, nodes.len() + 1,
{
    if nodes.len() > 0 {
        let next = postorder::visit(graph, depth, state, nodes[0]);
        let more = lemma_visit_leaves(graph, depth, state, nodes[0]);
        lemma_visit_deeper(graph, depth, state, nodes[0]);
        lemma_unmet(graph, state.0, next.0);
        lemma_visit_all_deeper(graph, depth, next, nodes.skip(1));
    }
}

/// One more node is visited after the others.
proof fn lemma_visit_one_more<K>(
    graph: Seq<(K, Seq<K>)>,
    depth: nat,
    state: (Set<K>, Seq<K>),
    nodes: Seq<K>,
    node: K,
)
    ensures
        postorder::visit_all(graph, depth, state, nodes.push(node)) == postorder::visit(
            graph,
            depth,
            postorder::visit_all(graph, depth, state, nodes),
            node,
        ),
    decreases nodes.len(),
{
    let all = nodes.push(node);
    if nodes.len() == 0 {
        assert(all[0] == node);
        let next = postorder::visit(graph, depth, state, node);
        assert(all.skip(1).len() == 0);
        assert(postorder::visit_all(graph, depth, next, all.skip(1)) == next);
    } else {
        assert(all[0] == nodes[0]);
        assert(all.skip(1) =~= nodes.skip(1).push(node));
        let next = postorder::visit(graph, depth, state, nodes[0]);
        lemma_visit_one_more(graph, depth, next, nodes.skip(1), node);
    }
}

/// What was met and left after some of the children.
proof fn lemma_after_children<K>(graph: Seq<(K, Seq<K>)>, start: K, count: nat)
    requires
        model::is_simple(graph),
        model::has_node(graph, start),
        count <= model::children(graph, start).len(),
    ensures
        postorder::visit_all(
            graph,
            graph.len(),
            (Set::empty().insert(start), Seq::empty()),
            model::children(graph, start).take(count as int),
        ) == (
            listed_upto(graph, start, count).push(start).to_set(),
            listed_upto(graph, start, count),
        ),
    decreases count,
{
    let children = model::children(graph, start);
    let begin = (Set::<K>::empty().insert(start), Seq::<K>::empty());
    let listed = listed_upto(graph, start, count);
    if count == 0 {
        assert(children.take(0) =~= Seq::<K>::empty());
        assert(listed.push(start).to_set() =~= begin.0) by {
            assert(listed.push(start)[0] == start);
        }
    } else {
        let before = listed_upto(graph, start, (count - 1) as nat);
        let gone = before.push(start).to_set();
        let child = children[count - 1];
        let state = (gone, before);
        lemma_after_children(graph, start, (count - 1) as nat);
        assert(children.take(count as int) =~= children.take(count - 1).push(child));
        lemma_visit_one_more(graph, graph.len(), begin, children.take(count - 1), child);
        model::lemma_pushed(before, start, child);
        if !gone.contains(child) {
            let rest = without(graph, gone);
            let none = (Set::<K>::empty(), Seq::<K>::empty());
            assert(gone.contains(start)) by {
                assert(before.push(start)[before.len() as int] == start);
            }
            lemma_unmet(graph, Set::empty(), gone);
            lemma_visit_deeper(graph, graph.len(), state, child);
            lemma_visit_apart(graph, graph.len() + 1, gone, before, none, child);
            assert(gone.union(none.0) =~= gone);
            assert(before + none.1 =~= before);
            lemma_without(graph, gone, child);
            let more = lemma_visit_leaves(rest, graph.len() + 1, none, child);
            assert(none.1 + more =~= more);
            assert(listed == before + more);
            assert forall|k: K| gone.union(none.0.union(more.to_set())).contains(k)
                <==> listed.push(start).to_set().contains(k) by {
                model::lemma_pushed(before, start, k);
                model::lemma_pushed(listed, start, k);
                if before.contains(k) {
                    let i = choose|i: int| 0 <= i < before.len() && before[i] == k;
                    assert(listed[i] == k);
                }
                if more.contains(k) {
                    let i = choose|i: int| 0 <= i < more.len() && more[i] == k;
                    assert(listed[before.len() + i] == k);
                }
            }
            assert(gone.union(none.0.union(more.to_set())) =~= listed.push(start).to_set());
        }
    }
}

/// The postorder from a node: for each of its children in order, unless it is listed already, the
/// postorder from the child without what is listed; and at the end the node.
pub proof fn lemma_postorder<K>(graph: Seq<(K, Seq<K>)>, start: K)
    requires
        model::is_simple(graph),
    ensures
        postorder::postorder(graph, start) == listed_upto(
            graph,
            start,
            model::children(graph, start).len(),
        ).push(start),
{
    let children = model::children(graph, start);
    if model::has_node(graph, start) {
        lemma_after_children(graph, start, children.len());
        assert(children.take(children.len() as int) =~= children);
    } else {
        postorder::lemma_postorder_of_leaf(graph, start);
        assert(Seq::<K>::empty().push(start) =~= seq![start]);
    }
}

} // verus!
