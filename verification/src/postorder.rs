//! Depth-first traversal in postorder.
use vstd::prelude::*;

use crate::adjacency;
use crate::adjacency::AdjacencyMap;
use crate::model;
use crate::node::Node;
use crate::paths;

verus! {

/// What visiting `node` makes of a traversal `state`, which holds the nodes met and the nodes
/// left, the latter in order. A node that was met before is passed over. Another one is left
/// after its children were visited in order. `depth` bounds how far the traversal goes down.
pub open spec fn visit<K>(
    graph: Seq<(K, Seq<K>)>,
    depth: nat,
    state: (Set<K>, Seq<K>),
    node: K,
) -> (Set<K>, Seq<K>)
    decreases depth, 0nat,
{
    if depth == 0 || state.0.contains(node) {
        state
    } else {
        let (met, left) = visit_all(
            graph,
            (depth - 1) as nat,
            (state.0.insert(node), state.1),
            model::children(graph, node),
        );
        (met, left.push(node))
    }
}

/// What visiting `nodes` one after the other makes of a traversal `state`.
pub open spec fn visit_all<K>(
    graph: Seq<(K, Seq<K>)>,
    depth: nat,
    state: (Set<K>, Seq<K>),
    nodes: Seq<K>,
) -> (Set<K>, Seq<K>)
    decreases depth, nodes.len(),
{
    if nodes.len() == 0 {
        state
    } else {
        visit_all(graph, depth, visit(graph, depth, state, nodes[0]), nodes.skip(1))
    }
}

/// The nodes in the order in which a depth-first traversal from `start` leaves them. No path
/// without repetitions is longer than the bound on the depth.
pub open spec fn postorder<K>(graph: Seq<(K, Seq<K>)>, start: K) -> Seq<K> {
    visit(graph, graph.len() + 1, (Set::empty(), Seq::empty()), start).1
}

/// What is left to do when the traversal has gone down along `frames`, each with the children
/// that it still has to visit.
spec fn finish<K>(
    graph: Seq<(K, Seq<K>)>,
    frames: Seq<(K, Seq<K>)>,
    state: (Set<K>, Seq<K>),
) -> (Set<K>, Seq<K>)
    decreases frames.len(),
{
    if frames.len() == 0 {
        state
    } else {
        let (node, rest) = frames.last();
        let (met, left) = visit_all(
            graph,
            (graph.len() + 1 - frames.len()) as nat,
            state,
            rest,
        );
        finish(graph, frames.drop_last(), (met, left.push(node)))
    }
}

/// A node that the traversal has gone down to, with its children and how many of them it has
/// visited.
struct Frame {
    id: usize,
    children: Vec<usize>,
    next: usize,
}

/// The frames as nodes with the children that are left to visit.
spec fn shown_frames<K>(stack: Seq<Frame>, labels: Seq<K>) -> Seq<(K, Seq<K>)> {
    stack.map_values(
        |frame: Frame|
            (
                labels[frame.id as int],
                adjacency::relabel_items(frame.children@, labels).skip(frame.next as int),
            ),
    )
}

spec fn frame_ids(stack: Seq<Frame>) -> Seq<usize> {
    stack.map_values(|frame: Frame| frame.id)
}

/// The nodes met, given by flags.
spec fn met_nodes<K>(seen: Seq<bool>, labels: Seq<K>) -> Set<K> {
    Set::new(|k: K| exists|id: int| 0 <= id < labels.len() && #[trigger] labels[id] == k && seen[id])
}

spec fn frame_ok<K>(
    graph: Seq<(K, Seq<K>)>,
    labels: Seq<K>,
    seen: Seq<bool>,
    frame: Frame,
) -> bool {
    &&& frame.id < labels.len()
    &&& adjacency::relabel_items(frame.children@, labels) == model::children(
        graph,
        labels[frame.id as int],
    )
    &&& forall|j: int|
        0 <= j < frame.children@.len() ==> (#[trigger] frame.children@[j]) < labels.len()
    &&& frame.next <= frame.children@.len()
    &&& forall|j: int| 0 <= j < frame.next ==> seen[#[trigger] frame.children@[j] as int]
}

/// The node left at place `i` has a predecessor that is left later.
spec fn has_later_predecessor<K>(
    graph: Seq<(K, Seq<K>)>,
    labels: Seq<K>,
    stack: Seq<Frame>,
    out: Seq<usize>,
    i: int,
) -> bool {
    ||| exists|j: int|
        i < j < out.len() && #[trigger] model::has_edge(
            graph,
            labels[out[j] as int],
            labels[out[i] as int],
        )
    ||| exists|d: int|
        0 <= d < stack.len() && #[trigger] model::has_edge(
            graph,
            labels[stack[d].id as int],
            labels[out[i] as int],
        )
    ||| stack.len() == 0 && i == out.len() - 1
}

/// All children of the node left at place `i` were met.
spec fn children_met<K>(
    graph: Seq<(K, Seq<K>)>,
    labels: Seq<K>,
    seen: Seq<bool>,
    id: int,
) -> bool {
    forall|v: K| #[trigger]
        model::has_edge(graph, labels[id], v) ==> met_nodes(seen, labels).contains(v)
}

/// Each child of the node left at place `i` was left before, or leads back to the node.
spec fn children_before<K>(
    graph: Seq<(K, Seq<K>)>,
    labels: Seq<K>,
    out: Seq<usize>,
    i: int,
) -> bool {
    forall|v: K| #[trigger]
        model::has_edge(graph, labels[out[i] as int], v) ==> {
            ||| exists|j: int| 0 <= j < i && labels[#[trigger] out[j] as int] == v
            ||| paths::reaches(model::edge_set(graph), v, labels[out[i] as int])
        }
}

/// What holds at every step of the traversal.
spec fn traversal_ok<K>(
    graph: Seq<(K, Seq<K>)>,
    labels: Seq<K>,
    start: usize,
    stack: Seq<Frame>,
    seen: Seq<bool>,
    out: Seq<usize>,
) -> bool {
    &&& start < labels.len() <= usize::MAX
    &&& labels.no_duplicates()
    &&& seen.len() == labels.len()
    &&& (frame_ids(stack) + out).no_duplicates()
    &&& forall|i: int| 0 <= i < stack.len() ==> frame_ok(graph, labels, seen, #[trigger] stack[i])
    &&& forall|i: int| 0 <= i < out.len() ==> (#[trigger] out[i]) < labels.len()
    &&& forall|id: usize|
        id < labels.len() ==> (#[trigger] seen[id as int] <==> (frame_ids(stack)
            + out).contains(id))
    &&& stack.len() > 0 ==> stack[0].id == start
    &&& stack.len() == 0 ==> out.len() > 0 && out.last() == start
    &&& forall|d: int, e: int|
        #![trigger stack[d], stack[e]]
        0 <= d && e == d + 1 && e < stack.len() ==> model::has_edge(
            graph,
            labels[stack[d].id as int],
            labels[stack[e].id as int],
        )
    &&& forall|i: int|
        0 <= i < out.len() ==> children_met(graph, labels, seen, #[trigger] out[i] as int)
    &&& forall|i: int|
        0 <= i < out.len() ==> #[trigger] has_later_predecessor(graph, labels, stack, out, i)
    &&& forall|i: int| 0 <= i < out.len() ==> #[trigger] children_before(graph, labels, out, i)
    &&& forall|id: int|
        0 <= id < labels.len() && #[trigger] seen[id] ==> paths::reaches(
            model::edge_set(graph),
            labels[start as int],
            labels[id],
        )
    &&& finish(
        graph,
        shown_frames(stack, labels),
        (met_nodes(seen, labels), adjacency::relabel_items(out, labels)),
    ).1 == postorder(graph, labels[start as int])
}

/// A child that was met before is passed over.
proof fn lemma_pass_over<K>(
    graph: Seq<(K, Seq<K>)>,
    labels: Seq<K>,
    start: usize,
    stack: Seq<Frame>,
    seen: Seq<bool>,
    out: Seq<usize>,
    top: Frame,
)
    requires
        stack.len() > 0,
        traversal_ok(graph, labels, start, stack, seen, out),
        stack.last().next < stack.last().children@.len(),
        seen[stack.last().children@[stack.last().next as int] as int],
        top.id == stack.last().id,
        top.children@ == stack.last().children@,
        top.next == stack.last().next + 1,
    ensures
        traversal_ok(graph, labels, start, stack.drop_last().push(top), seen, out),
{
    let after = stack.drop_last().push(top);
    let old_top = stack.last();
    let last = stack.len() - 1;
    assert(frame_ok(graph, labels, seen, stack[last]));
    assert(frame_ids(after) =~= frame_ids(stack));
    assert forall|i: int| 0 <= i < after.len() implies frame_ok(
        graph,
        labels,
        seen,
        #[trigger] after[i],
    ) by {
        if i < last {
            assert(after[i] == stack[i]);
        } else {
            assert(after[i] == top);
            assert forall|j: int| 0 <= j < top.children@.len() implies (
            #[trigger] top.children@[j]) < labels.len() by {
                assert(old_top.children@[j] < labels.len());
            }
            assert forall|j: int| 0 <= j < top.next implies seen[#[trigger] top.children@[j] as int] by {
                assert(top.children@[j] == old_top.children@[j]);
            }
        }
    }
    assert forall|d: int, e: int|
        #![trigger after[d], after[e]]
        0 <= d && e == d + 1 && e < after.len() implies model::has_edge(
        graph,
        labels[after[d].id as int],
        labels[after[e].id as int],
    ) by {
        assert(after[d].id == stack[d].id && after[e].id == stack[e].id);
    }
    assert forall|i: int| 0 <= i < out.len() implies #[trigger] has_later_predecessor(
        graph,
        labels,
        after,
        out,
        i,
    ) by {
        assert(has_later_predecessor(graph, labels, stack, out, i));
        if exists|d: int|
            0 <= d < stack.len() && #[trigger] model::has_edge(
                graph,
                labels[stack[d].id as int],
                labels[out[i] as int],
            ) {
            let d = choose|d: int|
                0 <= d < stack.len() && #[trigger] model::has_edge(
                    graph,
                    labels[stack[d].id as int],
                    labels[out[i] as int],
                );
            assert(after[d].id == stack[d].id);
        }
    }
    let met = met_nodes(seen, labels);
    let left = adjacency::relabel_items(out, labels);
    let shown = shown_frames(stack, labels);
    let shown_after = shown_frames(after, labels);
    let rest = shown.last().1;
    let child = old_top.children@[old_top.next as int];
    assert(rest[0] == labels[child as int]);
    assert(met.contains(labels[child as int]));
    assert(rest.skip(1) =~= shown_after.last().1);
    assert(shown_after.drop_last() =~= shown.drop_last());
    let depth = (graph.len() + 1 - shown.len()) as nat;
    assert(rest.len() > 0);
    assert(visit(graph, depth, (met, left), rest[0]) == (met, left));
    assert(visit_all(graph, depth, (met, left), rest) == visit_all(
        graph,
        depth,
        (met, left),
        rest.skip(1),
    ));
    assert(shown_after.len() == shown.len());
    assert(shown_after.last().0 == shown.last().0);
    assert(finish(graph, shown_after, (met, left)) == finish(graph, shown, (met, left)));
}

/// A child that was not met before is gone down to.
proof fn lemma_go_down<K>(
    graph: Seq<(K, Seq<K>)>,
    labels: Seq<K>,
    start: usize,
    stack: Seq<Frame>,
    seen: Seq<bool>,
    out: Seq<usize>,
    top: Frame,
    below: Frame,
)
    requires
        model::is_simple(graph),
        model::is_canonical(graph),
        stack.len() > 0,
        traversal_ok(graph, labels, start, stack, seen, out),
        stack.last().next < stack.last().children@.len(),
        !seen[stack.last().children@[stack.last().next as int] as int],
        top.id == stack.last().id,
        top.children@ == stack.last().children@,
        top.next == stack.last().next + 1,
        below.id == stack.last().children@[stack.last().next as int],
        below.next == 0,
        adjacency::relabel_items(below.children@, labels) == model::children(
            graph,
            labels[below.id as int],
        ),
        forall|j: int|
            0 <= j < below.children@.len() ==> (#[trigger] below.children@[j]) < labels.len(),
    ensures
        traversal_ok(
            graph,
            labels,
            start,
            stack.drop_last().push(top).push(below),
            seen.update(below.id as int, true),
            out,
        ),
        out.len() + stack.len() < labels.len(),
{
    let edges = model::edge_set(graph);
    let after = stack.drop_last().push(top).push(below);
    let seen_after = seen.update(below.id as int, true);
    let old_top = stack.last();
    let last = stack.len() - 1;
    let id = below.id;
    let child = labels[id as int];
    let parent = labels[old_top.id as int];
    let ids = frame_ids(stack);
    assert(frame_ok(graph, labels, seen, stack[last]));
    // The edge that is followed.
    let items = model::children(graph, parent);
    assert(items[old_top.next as int] == child);
    assert(model::has_edge(graph, parent, child));
    // Numbers.
    assert(frame_ids(after) =~= ids.push(id));
    assert(!(ids + out).contains(id));
    assert((frame_ids(after) + out).no_duplicates()) by {
        let all = ids + out;
        let more = frame_ids(after) + out;
        assert forall|a: int, b: int|
            0 <= a < more.len() && 0 <= b < more.len() && a != b implies more[a] != more[b] by {
            let n = ids.len() as int;
            let a1 = if a < n { a } else { a - 1 };
            let b1 = if b < n { b } else { b - 1 };
            if a != n && b != n {
                assert(more[a] == all[a1] && more[b] == all[b1]);
                assert(all[a1] != all[b1]);
            } else if a == n {
                assert(more[b] == all[b1]);
                assert(all.contains(all[b1]));
            } else {
                assert(more[a] == all[a1]);
                assert(all.contains(all[a1]));
            }
        }
    }
    assert forall|x: usize| x < labels.len() implies (#[trigger] seen_after[x as int] <==> (
    frame_ids(after) + out).contains(x)) by {
        let all = ids + out;
        let more = frame_ids(after) + out;
        if x == id {
            assert(more[ids.len() as int] == id);
        } else {
            assert(seen[x as int] <==> all.contains(x));
            if all.contains(x) {
                let a = choose|a: int| 0 <= a < all.len() && all[a] == x;
                let b = if a < ids.len() { a } else { a + 1 };
                assert(more[b] == x);
            }
            if more.contains(x) {
                let b = choose|b: int| 0 <= b < more.len() && more[b] == x;
                let a = if b < ids.len() { b } else { b - 1 };
                assert(all[a] == x);
            }
        }
    }
    // Frames.
    assert forall|i: int| 0 <= i < after.len() implies frame_ok(
        graph,
        labels,
        seen_after,
        #[trigger] after[i],
    ) by {
        if i < last {
            assert(after[i] == stack[i]);
            assert(frame_ok(graph, labels, seen, stack[i]));
        } else if i == last {
            assert(after[i] == top);
            assert forall|j: int| 0 <= j < top.children@.len() implies (
            #[trigger] top.children@[j]) < labels.len() by {
                assert(old_top.children@[j] < labels.len());
            }
            assert forall|j: int|
                0 <= j < top.next implies seen_after[#[trigger] top.children@[j] as int] by {
                assert(top.children@[j] == old_top.children@[j]);
            }
        }
    }
    assert forall|d: int, e: int|
        #![trigger after[d], after[e]]
        0 <= d && e == d + 1 && e < after.len() implies model::has_edge(
        graph,
        labels[after[d].id as int],
        labels[after[e].id as int],
    ) by {
        if e <= last {
            assert(after[d].id == stack[d].id && after[e].id == stack[e].id);
        }
    }
    // Nodes met.
    let met = met_nodes(seen, labels);
    assert(met_nodes(seen_after, labels) =~= met.insert(child)) by {
        assert forall|k: K| met_nodes(seen_after, labels).contains(k) <==> met.insert(
            child,
        ).contains(k) by {
            if met.contains(k) {
                let x = choose|x: int|
                    0 <= x < labels.len() && #[trigger] labels[x] == k && seen[x];
                assert(labels[x] == k && seen_after[x]);
            }
            if k == child {
                assert(labels[id as int] == k && seen_after[id as int]);
            }
            if met_nodes(seen_after, labels).contains(k) {
                let x = choose|x: int|
                    0 <= x < labels.len() && #[trigger] labels[x] == k && seen_after[x];
                if x != id {
                    assert(labels[x] == k && seen[x]);
                }
            }
        }
    }
    assert(!met.contains(child)) by {
        if met.contains(child) {
            let x = choose|x: int|
                0 <= x < labels.len() && #[trigger] labels[x] == child && seen[x];
            assert(x == id);
        }
    }
    assert forall|i: int| 0 <= i < out.len() implies children_met(
        graph,
        labels,
        seen_after,
        #[trigger] out[i] as int,
    ) by {
        assert(children_met(graph, labels, seen, out[i] as int));
    }
    assert forall|i: int| 0 <= i < out.len() implies #[trigger] has_later_predecessor(
        graph,
        labels,
        after,
        out,
        i,
    ) by {
        assert(has_later_predecessor(graph, labels, stack, out, i));
        if exists|d: int|
            0 <= d < stack.len() && #[trigger] model::has_edge(
                graph,
                labels[stack[d].id as int],
                labels[out[i] as int],
            ) {
            let d = choose|d: int|
                0 <= d < stack.len() && #[trigger] model::has_edge(
                    graph,
                    labels[stack[d].id as int],
                    labels[out[i] as int],
                );
            assert(after[d].id == stack[d].id);
        }
    }
    // Reachability.
    assert forall|x: int| 0 <= x < labels.len() && #[trigger] seen_after[x] implies paths::reaches(
        edges,
        labels[start as int],
        labels[x],
    ) by {
        if x == id {
            assert(ids[last] == old_top.id);
            assert((ids + out)[last] == old_top.id);
            assert(seen[old_top.id as int]);
            let path = choose|path: Seq<K>|
                paths::is_path_between(edges, labels[start as int], parent, path);
            paths::lemma_extend_path(edges, labels[start as int], parent, child, path);
        } else {
            assert(seen[x]);
        }
    }
    // The depth.
    assert(stack.len() <= graph.len()) by {
        let shown = Seq::new(stack.len(), |i: int| labels[stack[i].id as int]);
        assert forall|i: int| 0 <= i < shown.len() implies model::nodes(graph).contains(
            #[trigger] shown[i],
        ) by {
            assert(frame_ok(graph, labels, seen, stack[i]));
            if i < last {
                model::lemma_edge_ends(
                    graph,
                    labels[stack[i].id as int],
                    labels[stack[i + 1].id as int],
                );
            } else {
                model::lemma_edge_ends(graph, parent, child);
            }
            let p = model::position(graph, shown[i]);
            assert(model::nodes(graph)[p] == shown[i]);
        }
        assert(shown.no_duplicates()) by {
            assert forall|a: int, b: int|
                0 <= a < shown.len() && 0 <= b < shown.len() && a != b implies shown[a]
                != shown[b] by {
                assert((ids + out)[a] == stack[a].id && (ids + out)[b] == stack[b].id);
                assert(frame_ok(graph, labels, seen, stack[a]));
                assert(frame_ok(graph, labels, seen, stack[b]));
            }
        }
        lemma_distinct_among(shown, model::nodes(graph));
    }
    assert(out.len() + stack.len() < labels.len()) by {
        let more = frame_ids(after) + out;
        let all_ids = Seq::new(labels.len(), |i: int| i as usize);
        assert forall|i: int| 0 <= i < more.len() implies all_ids.contains(
            #[trigger] more[i],
        ) by {
            if i < after.len() {
                assert(frame_ok(graph, labels, seen_after, after[i]));
            }
            assert(all_ids[more[i] as int] == more[i]);
        }
        lemma_distinct_among(more, all_ids);
    }
    // What is left to do.
    let left = adjacency::relabel_items(out, labels);
    let shown = shown_frames(stack, labels);
    let shown_mid = shown_frames(stack.drop_last().push(top), labels);
    let shown_after = shown_frames(after, labels);
    let rest = shown.last().1;
    let depth = (graph.len() + 1 - shown.len()) as nat;
    assert(rest[0] == child);
    assert(rest.skip(1) =~= shown_mid.last().1);
    assert(shown_mid.drop_last() =~= shown.drop_last());
    assert(shown_after.drop_last() =~= shown_mid);
    assert(shown_after.last().1 =~= model::children(graph, child));
    assert(visit(graph, depth, (met, left), child) == {
        let (m, l) = visit_all(
            graph,
            (depth - 1) as nat,
            (met.insert(child), left),
            model::children(graph, child),
        );
        (m, l.push(child))
    });
    reveal_with_fuel(finish, 3);
    assert(finish(graph, shown_after, (met.insert(child), left)) == finish(
        graph,
        shown,
        (met, left),
    ));
}

/// The traversal holds no more nodes than there are.
proof fn lemma_room<K>(
    graph: Seq<(K, Seq<K>)>,
    labels: Seq<K>,
    start: usize,
    stack: Seq<Frame>,
    seen: Seq<bool>,
    out: Seq<usize>,
)
    requires
        traversal_ok(graph, labels, start, stack, seen, out),
    ensures
        out.len() + stack.len() <= labels.len(),
{
    let all = frame_ids(stack) + out;
    let all_ids = Seq::new(labels.len(), |i: int| i as usize);
    assert forall|i: int| 0 <= i < all.len() implies all_ids.contains(#[trigger] all[i]) by {
        if i < stack.len() {
            assert(frame_ok(graph, labels, seen, stack[i]));
        }
        assert(all_ids[all[i] as int] == all[i]);
    }
    lemma_distinct_among(all, all_ids);
}

/// The traversal begins at the start.
proof fn lemma_begin<K>(
    graph: Seq<(K, Seq<K>)>,
    labels: Seq<K>,
    start: usize,
    stack: Seq<Frame>,
    seen: Seq<bool>,
)
    requires
        start < labels.len(),
        labels.no_duplicates(),
        labels.len() <= usize::MAX,
        seen.len() == labels.len(),
        forall|id: int| 0 <= id < seen.len() ==> (#[trigger] seen[id] <==> id == start),
        stack.len() == 1,
        stack[0].id == start,
        stack[0].next == 0,
        frame_ok(graph, labels, seen, stack[0]),
    ensures
        traversal_ok(graph, labels, start, stack, seen, Seq::empty()),
{
    let edges = model::edge_set(graph);
    let first = labels[start as int];
    let out = Seq::<usize>::empty();
    let all = frame_ids(stack) + out;
    assert(all =~= seq![start]);
    assert forall|id: usize| id < labels.len() implies (#[trigger] seen[id as int] <==> all.contains(
        id,
    )) by {
        assert(all[0] == start);
    }
    paths::lemma_trivial_path(edges, first);
    let met = met_nodes(seen, labels);
    assert(met =~= Set::<K>::empty().insert(first)) by {
        assert forall|k: K| met.contains(k) <==> k == first by {
            if k == first {
                assert(labels[start as int] == k && seen[start as int]);
            }
        }
    }
    let shown = shown_frames(stack, labels);
    assert(shown =~= seq![(first, model::children(graph, first))]) by {
        assert(shown[0].1 =~= model::children(graph, first));
    }
    assert(adjacency::relabel_items(out, labels) =~= Seq::<K>::empty());
    let state = (met, Seq::<K>::empty());
    let (m, l) = visit_all(graph, graph.len(), state, model::children(graph, first));
    assert(finish(graph, shown, state) == finish(graph, shown.drop_last(), (m, l.push(first))));
    assert(finish(graph, shown.drop_last(), (m, l.push(first))) == (m, l.push(first)));
}

/// A sequence without repetitions is no longer than one that holds all its items.
proof fn lemma_distinct_among<K>(items: Seq<K>, among: Seq<K>)
    requires
        items.no_duplicates(),
        forall|i: int| 0 <= i < items.len() ==> among.contains(#[trigger] items[i]),
    ensures
        items.len() <= among.len(),
{
    items.unique_seq_to_set();
    among.lemma_cardinality_of_set();
    assert(items.to_set().subset_of(among.to_set()));
    vstd::set_lib::lemma_len_subset(items.to_set(), among.to_set());
}

/// A node that the traversal has gone down through leads to the one that it has reached.
proof fn lemma_frames_lead_down<K>(
    graph: Seq<(K, Seq<K>)>,
    labels: Seq<K>,
    stack: Seq<Frame>,
    d: int,
    e: int,
)
    requires
        0 <= d <= e < stack.len(),
        forall|d: int, e: int|
            #![trigger stack[d], stack[e]]
            0 <= d && e == d + 1 && e < stack.len() ==> model::has_edge(
                graph,
                labels[stack[d].id as int],
                labels[stack[e].id as int],
            ),
    ensures
        paths::reaches(
            model::edge_set(graph),
            labels[stack[d].id as int],
            labels[stack[e].id as int],
        ),
    decreases e - d,
{
    let edges = model::edge_set(graph);
    let from = labels[stack[d].id as int];
    if d == e {
        paths::lemma_trivial_path(edges, from);
    } else {
        let mid = labels[stack[e - 1].id as int];
        let to = labels[stack[e].id as int];
        lemma_frames_lead_down(graph, labels, stack, d, e - 1);
        let path = choose|path: Seq<K>| paths::is_path_between(edges, from, mid, path);
        paths::lemma_extend_path(edges, from, mid, to, path);
    }
}

/// A node all of whose children were visited is left.
proof fn lemma_leave<K>(
    graph: Seq<(K, Seq<K>)>,
    labels: Seq<K>,
    start: usize,
    stack: Seq<Frame>,
    seen: Seq<bool>,
    out: Seq<usize>,
)
    requires
        stack.len() > 0,
        traversal_ok(graph, labels, start, stack, seen, out),
        stack.last().next == stack.last().children@.len(),
    ensures
        traversal_ok(
            graph,
            labels,
            start,
            stack.drop_last(),
            seen,
            out.push(stack.last().id),
        ),
{
    let after = stack.drop_last();
    let top = stack.last();
    let last = stack.len() - 1;
    let out_after = out.push(top.id);
    let ids = frame_ids(stack);
    let ids_after = frame_ids(after);
    let all = ids + out;
    let all_after = ids_after + out_after;
    assert(frame_ok(graph, labels, seen, stack[last]));
    assert(ids =~= ids_after.push(top.id));
    // The item at each place before and after.
    assert forall|a: int| 0 <= a < all_after.len() implies #[trigger] all_after[a] == all[if a
        < last {
        a
    } else if a < all_after.len() - 1 {
        a + 1
    } else {
        last
    }] by {}
    assert(all_after.no_duplicates());
    assert forall|x: usize| x < labels.len() implies (#[trigger] seen[x as int]
        <==> all_after.contains(x)) by {
        assert(seen[x as int] <==> all.contains(x));
        if all.contains(x) {
            let a = choose|a: int| 0 <= a < all.len() && all[a] == x;
            let b = if a < last {
                a
            } else if a == last {
                all_after.len() - 1
            } else {
                a - 1
            };
            assert(all_after[b] == x);
        }
        if all_after.contains(x) {
            let b = choose|b: int| 0 <= b < all_after.len() && all_after[b] == x;
            assert(all.contains(all_after[b]));
        }
    }
    assert forall|i: int| 0 <= i < after.len() implies frame_ok(
        graph,
        labels,
        seen,
        #[trigger] after[i],
    ) by {
        assert(after[i] == stack[i]);
    }
    assert forall|d: int, e: int|
        #![trigger after[d], after[e]]
        0 <= d && e == d + 1 && e < after.len() implies model::has_edge(
        graph,
        labels[after[d].id as int],
        labels[after[e].id as int],
    ) by {
        assert(after[d] == stack[d] && after[e] == stack[e]);
    }
    assert forall|i: int| 0 <= i < out_after.len() implies children_met(
        graph,
        labels,
        seen,
        #[trigger] out_after[i] as int,
    ) by {
        if i < out.len() {
            assert(children_met(graph, labels, seen, out[i] as int));
        } else {
            let parent = labels[top.id as int];
            let items = model::children(graph, parent);
            assert forall|v: K| #[trigger] model::has_edge(graph, parent, v) implies met_nodes(
                seen,
                labels,
            ).contains(v) by {
                let j = choose|j: int| 0 <= j < items.len() && items[j] == v;
                assert(adjacency::relabel_items(top.children@, labels)[j] == v);
                assert(seen[top.children@[j] as int]);
                assert(labels[top.children@[j] as int] == v);
            }
        }
    }
    assert forall|i: int| 0 <= i < out_after.len() implies #[trigger] has_later_predecessor(
        graph,
        labels,
        after,
        out_after,
        i,
    ) by {
        if i < out.len() {
            assert(has_later_predecessor(graph, labels, stack, out, i));
            if exists|j: int|
                i < j < out.len() && #[trigger] model::has_edge(
                    graph,
                    labels[out[j] as int],
                    labels[out[i] as int],
                ) {
                let j = choose|j: int|
                    i < j < out.len() && #[trigger] model::has_edge(
                        graph,
                        labels[out[j] as int],
                        labels[out[i] as int],
                    );
                assert(model::has_edge(
                    graph,
                    labels[out_after[j] as int],
                    labels[out_after[i] as int],
                ));
            } else {
                let d = choose|d: int|
                    0 <= d < stack.len() && #[trigger] model::has_edge(
                        graph,
                        labels[stack[d].id as int],
                        labels[out[i] as int],
                    );
                if d == last {
                    assert(model::has_edge(
                        graph,
                        labels[out_after[out.len() as int] as int],
                        labels[out_after[i] as int],
                    ));
                } else {
                    assert(model::has_edge(
                        graph,
                        labels[after[d].id as int],
                        labels[out_after[i] as int],
                    ));
                }
            }
        } else if last > 0 {
            assert(model::has_edge(
                graph,
                labels[stack[last - 1].id as int],
                labels[stack[last].id as int],
            ));
            assert(model::has_edge(
                graph,
                labels[after[last - 1].id as int],
                labels[out_after[i] as int],
            ));
        }
    }
    assert forall|i: int| 0 <= i < out_after.len() implies #[trigger] children_before(
        graph,
        labels,
        out_after,
        i,
    ) by {
        if i < out.len() {
            assert(children_before(graph, labels, out, i));
            assert forall|v: K| #[trigger]
                model::has_edge(graph, labels[out_after[i] as int], v) && !paths::reaches(
                    model::edge_set(graph),
                    v,
                    labels[out_after[i] as int],
                ) implies exists|j: int|
                0 <= j < i && labels[#[trigger] out_after[j] as int] == v by {
                assert(model::has_edge(graph, labels[out[i] as int], v));
                let j = choose|j: int| 0 <= j < i && labels[#[trigger] out[j] as int] == v;
                assert(out_after[j] == out[j]);
            }
        } else {
            let parent = labels[top.id as int];
            let items = model::children(graph, parent);
            assert forall|v: K| #[trigger]
                model::has_edge(graph, labels[out_after[i] as int], v) && !paths::reaches(
                    model::edge_set(graph),
                    v,
                    labels[out_after[i] as int],
                ) implies exists|j: int|
                0 <= j < i && labels[#[trigger] out_after[j] as int] == v by {
                let c = choose|c: int| 0 <= c < items.len() && items[c] == v;
                assert(adjacency::relabel_items(top.children@, labels)[c] == v);
                let id = top.children@[c];
                assert(seen[id as int]);
                let a = choose|a: int| 0 <= a < all.len() && all[a] == id;
                if a <= last {
                    assert(stack[a].id == id);
                    lemma_frames_lead_down(graph, labels, stack, a, last);
                } else {
                    assert(out_after[a - ids.len()] == id);
                }
            }
        }
    }
    let left = adjacency::relabel_items(out, labels);
    let shown = shown_frames(stack, labels);
    assert(shown_frames(after, labels) =~= shown.drop_last());
    assert(shown.last().1 =~= Seq::<K>::empty());
    assert(adjacency::relabel_items(out_after, labels) =~= left.push(labels[top.id as int]));
}

/// `order` lists in postorder what `start` leads to: each node that it reaches once and nothing
/// else, `start` last; each other node before some predecessor of it; and each child before its
/// parent, unless the child leads back to the parent.
pub open spec fn is_postorder_listing<K>(
    graph: Seq<(K, Seq<K>)>,
    start: K,
    order: Seq<K>,
) -> bool {
    &&& order.no_duplicates()
    &&& forall|k: K| #[trigger]
        order.contains(k) <==> paths::reaches(model::edge_set(graph), start, k)
    &&& order.len() > 0 && order.last() == start
    &&& forall|i: int|
        0 <= i < order.len() - 1 ==> exists|j: int|
            i < j < order.len() && model::has_edge(graph, #[trigger] order[j], #[trigger] order[i])
    &&& forall|i: int, v: K|
        0 <= i < order.len() && #[trigger] model::has_edge(graph, order[i], v) ==> {
            ||| exists|j: int| 0 <= j < i && #[trigger] order[j] == v
            ||| paths::reaches(model::edge_set(graph), v, order[i])
        }
}

/// At the end of the traversal everything that was left is in postorder.
proof fn lemma_done<K>(
    graph: Seq<(K, Seq<K>)>,
    labels: Seq<K>,
    start: usize,
    seen: Seq<bool>,
    out: Seq<usize>,
)
    requires
        traversal_ok(graph, labels, start, Seq::empty(), seen, out),
    ensures
        adjacency::relabel_items(out, labels) == postorder(graph, labels[start as int]),
        is_postorder_listing(
            graph,
            labels[start as int],
            adjacency::relabel_items(out, labels),
        ),
        out.no_duplicates(),
{
    let edges = model::edge_set(graph);
    let stack = Seq::<Frame>::empty();
    let first = labels[start as int];
    let order = adjacency::relabel_items(out, labels);
    assert(frame_ids(stack) + out =~= out);
    assert(shown_frames(stack, labels) =~= Seq::<(K, Seq<K>)>::empty());
    assert forall|k: K| #[trigger] order.contains(k) <==> paths::reaches(edges, first, k) by {
        if order.contains(k) {
            let i = choose|i: int| 0 <= i < order.len() && order[i] == k;
            assert(out.contains(out[i]));
            assert(seen[out[i] as int]);
        }
        if paths::reaches(edges, first, k) {
            let path = choose|path: Seq<K>| paths::is_path_between(edges, first, k, path);
            lemma_listed_along(graph, labels, start, seen, out, path, path.len() - 1);
        }
    }
    assert forall|i: int| 0 <= i < order.len() - 1 implies exists|j: int|
        i < j < order.len() && model::has_edge(
            graph,
            #[trigger] order[j],
            #[trigger] order[i],
        ) by {
        assert(has_later_predecessor(graph, labels, stack, out, i));
        let j = choose|j: int|
            i < j < out.len() && #[trigger] model::has_edge(
                graph,
                labels[out[j] as int],
                labels[out[i] as int],
            );
        assert(model::has_edge(graph, order[j], order[i]));
    }
    assert forall|i: int, v: K|
        0 <= i < order.len() && #[trigger] model::has_edge(graph, order[i], v) && !paths::reaches(
            edges,
            v,
            order[i],
        ) implies exists|j: int| 0 <= j < i && #[trigger] order[j] == v by {
        assert(children_before(graph, labels, out, i));
        assert(model::has_edge(graph, labels[out[i] as int], v));
        let j = choose|j: int| 0 <= j < i && labels[#[trigger] out[j] as int] == v;
        assert(order[j] == v);
    }
}

/// Every node on a path from the start was left.
proof fn lemma_listed_along<K>(
    graph: Seq<(K, Seq<K>)>,
    labels: Seq<K>,
    start: usize,
    seen: Seq<bool>,
    out: Seq<usize>,
    path: Seq<K>,
    i: int,
)
    requires
        traversal_ok(graph, labels, start, Seq::empty(), seen, out),
        paths::is_path(model::edge_set(graph), path),
        path[0] == labels[start as int],
        0 <= i < path.len(),
    ensures
        adjacency::relabel_items(out, labels).contains(path[i]),
    decreases i,
{
    let stack = Seq::<Frame>::empty();
    let order = adjacency::relabel_items(out, labels);
    assert(frame_ids(stack) + out =~= out);
    if i == 0 {
        assert(order[out.len() - 1] == path[0]);
    } else {
        lemma_listed_along(graph, labels, start, seen, out, path, i - 1);
        let a = choose|a: int| 0 <= a < order.len() && order[a] == path[i - 1];
        assert(children_met(graph, labels, seen, out[a] as int));
        assert(model::edge_set(graph).contains((path[i - 1], path[i])));
        assert(model::has_edge(graph, labels[out[a] as int], path[i]));
        let id = choose|id: int|
            0 <= id < labels.len() && #[trigger] labels[id] == path[i] && seen[id];
        assert(out.contains(id as usize)) by {
            assert(seen[(id as usize) as int]);
        }
        let b = choose|b: int| 0 <= b < out.len() && out[b] == id as usize;
        assert(order[b] == path[i]);
    }
}

/// Lists in postorder the numbers of the nodes that a node leads to.
pub(crate) fn postorder_ids<N: Node>(adj: &AdjacencyMap<N>, start: usize) -> (out: Vec<usize>)
    requires
        adj.wf(),
        model::is_canonical(adj@),
        start < adj.shown_labels().len(),
    ensures
        forall|i: int| 0 <= i < out@.len() ==> (#[trigger] out@[i]) < adj.shown_labels().len(),
        out@.no_duplicates(),
        adjacency::relabel_items(out@, adj.shown_labels()) == postorder(
            adj@,
            adj.shown_labels()[start as int],
        ),
        is_postorder_listing(
            adj@,
            adj.shown_labels()[start as int],
            adjacency::relabel_items(out@, adj.shown_labels()),
        ),
{
    let ghost graph = adj@;
    let ghost labels = adj.shown_labels();
    proof {
        adj.lemma_simple();
        adj.lemma_labels_distinct();
    }
    let num_labels: usize = adj.num_labels();
    let mut seen: Vec<bool> = Vec::new();
    while seen.len() < num_labels
        invariant
            seen@.len() <= num_labels,
            forall|i: int| 0 <= i < seen@.len() ==> !(#[trigger] seen@[i]),
        decreases num_labels - seen@.len(),
    {
        seen.push(false);
    }
    seen.set(start, true);
    let mut out: Vec<usize> = Vec::new();
    let mut stack: Vec<Frame> = Vec::new();
    stack.push(Frame { id: start, children: adj.child_ids(start), next: 0 });
    proof {
        lemma_begin(graph, labels, start, stack@, seen@);
        assert(out@ =~= Seq::<usize>::empty());
    }
    loop
        invariant_except_break
            traversal_ok(graph, labels, start, stack@, seen@, out@),
        invariant
            adj.wf(),
            model::is_simple(graph),
            model::is_canonical(graph),
            graph == adj@,
            labels == adj.shown_labels(),
        ensures
            traversal_ok(graph, labels, start, Seq::empty(), seen@, out@),
        decreases labels.len() - out@.len() - stack@.len(), stack@.len(), (if stack@.len() > 0 {
            stack@.last().children@.len() - stack@.last().next
        } else {
            0
        }),
    {
        let ghost before = stack@;
        match stack.pop() {
            None => {
                assert(stack@ =~= Seq::<Frame>::empty());
                break;
            },
            Some(frame) => {
                assert(frame_ok(graph, labels, seen@, before[before.len() - 1]));
                if frame.next < frame.children.len() {
                    let child: usize = frame.children[frame.next];
                    let top = Frame {
                        id: frame.id,
                        children: frame.children,
                        next: frame.next + 1,
                    };
                    if seen[child] {
                        proof {
                            lemma_pass_over(graph, labels, start, before, seen@, out@, top);
                        }
                        stack.push(top);
                    } else {
                        let below = Frame { id: child, children: adj.child_ids(child), next: 0 };
                        proof {
                            lemma_go_down(
                                graph,
                                labels,
                                start,
                                before,
                                seen@,
                                out@,
                                top,
                                below,
                            );
                        }
                        seen.set(child, true);
                        stack.push(top);
                        stack.push(below);
                    }
                } else {
                    proof {
                        lemma_leave(graph, labels, start, before, seen@, out@);
                        lemma_room(graph, labels, start, before, seen@, out@);
                    }
                    out.push(frame.id);
                }
            },
        }
    }
    proof {
        lemma_done(graph, labels, start, seen@, out@);
    }
    out
}

/// From a node without children a traversal leads nowhere.
pub proof fn lemma_postorder_of_leaf<K>(graph: Seq<(K, Seq<K>)>, start: K)
    requires
        model::children(graph, start).len() == 0,
    ensures
        postorder(graph, start) == seq![start],
        is_postorder_listing(graph, start, seq![start]),
{
    let edges = model::edge_set(graph);
    let order = seq![start];
    assert(postorder(graph, start) =~= order);
    assert forall|k: K| #[trigger] order.contains(k) <==> paths::reaches(edges, start, k) by {
        if order.contains(k) {
            paths::lemma_trivial_path(edges, start);
        }
        if paths::reaches(edges, start, k) {
            let path = choose|path: Seq<K>| paths::is_path_between(edges, start, k, path);
            if path.len() > 1 {
                assert(edges.contains((path[0], path[1])));
                assert(model::has_edge(graph, start, path[1]));
            }
            assert(order[0] == k);
        }
    }
}

} // verus!
