//! Paths, reachability and dominance in a directed graph, given by its set of edges.
use vstd::prelude::*;

verus! {

/// `path` is a non-empty walk along `edges`.
pub open spec fn is_path<A>(edges: Set<(A, A)>, path: Seq<A>) -> bool {
    &&& path.len() > 0
    &&& forall|i: int, j: int|
        #![trigger path[i], path[j]]
        0 <= i && j == i + 1 && j < path.len() ==> edges.contains((path[i], path[j]))
}

/// `path` leads from `from` to `to` along `edges`.
pub open spec fn is_path_between<A>(edges: Set<(A, A)>, from: A, to: A, path: Seq<A>) -> bool {
    &&& is_path(edges, path)
    &&& path[0] == from
    &&& path.last() == to
}

/// Some path leads from `from` to `to`.
pub open spec fn reaches<A>(edges: Set<(A, A)>, from: A, to: A) -> bool {
    exists|path: Seq<A>| is_path_between(edges, from, to, path)
}

/// Every path from `entry` to `node` goes through `dom`.
pub open spec fn dominates<A>(edges: Set<(A, A)>, entry: A, dom: A, node: A) -> bool {
    forall|path: Seq<A>| #[trigger]
        is_path_between(edges, entry, node, path) ==> path.contains(dom)
}

/// `dom` dominates `node` and is another node.
pub open spec fn strictly_dominates<A>(edges: Set<(A, A)>, entry: A, dom: A, node: A) -> bool {
    dominates(edges, entry, dom, node) && dom != node
}

/// A path of one node.
pub proof fn lemma_trivial_path<A>(edges: Set<(A, A)>, node: A)
    ensures
        is_path_between(edges, node, node, seq![node]),
{
}

/// Following one more edge extends a path.
pub proof fn lemma_extend_path<A>(edges: Set<(A, A)>, from: A, mid: A, to: A, path: Seq<A>)
    requires
        is_path_between(edges, from, mid, path),
        edges.contains((mid, to)),
    ensures
        is_path_between(edges, from, to, path.push(to)),
{
}

/// The beginning of a path is a path.
pub proof fn lemma_path_prefix<A>(edges: Set<(A, A)>, from: A, to: A, path: Seq<A>, i: int)
    requires
        is_path_between(edges, from, to, path),
        0 <= i < path.len(),
    ensures
        is_path_between(edges, from, path[i], path.take(i + 1)),
{
    let prefix = path.take(i + 1);
    assert forall|a: int, b: int|
        #![trigger prefix[a], prefix[b]]
        0 <= a && b == a + 1 && b < prefix.len() implies edges.contains(
        (prefix[a], prefix[b]),
    ) by {
        assert(prefix[a] == path[a] && prefix[b] == path[b]);
    }
}

/// The end of a path is a path.
pub proof fn lemma_path_suffix<A>(edges: Set<(A, A)>, from: A, to: A, path: Seq<A>, i: int)
    requires
        is_path_between(edges, from, to, path),
        0 <= i < path.len(),
    ensures
        is_path_between(edges, path[i], to, path.skip(i)),
{
    let rest = path.skip(i);
    assert forall|a: int, b: int|
        #![trigger rest[a], rest[b]]
        0 <= a && b == a + 1 && b < rest.len() implies edges.contains((rest[a], rest[b])) by {
        assert(rest[a] == path[a + i] && rest[b] == path[b + i]);
    }
}

/// Two paths that meet can be joined.
pub proof fn lemma_join_paths<A>(
    edges: Set<(A, A)>,
    from: A,
    mid: A,
    to: A,
    first: Seq<A>,
    second: Seq<A>,
)
    requires
        is_path_between(edges, from, mid, first),
        is_path_between(edges, mid, to, second),
    ensures
        is_path_between(edges, from, to, first + second.skip(1)),
{
    let joined = first + second.skip(1);
    assert forall|a: int, b: int|
        #![trigger joined[a], joined[b]]
        0 <= a && b == a + 1 && b < joined.len() implies edges.contains(
        (joined[a], joined[b]),
    ) by {
        if b < first.len() {
            assert(joined[a] == first[a] && joined[b] == first[b]);
        } else {
            let k = a - first.len() + 1;
            assert(joined[b] == second[k + 1]);
            assert(joined[a] == second[k]);
        }
    }
    if second.len() > 1 {
        assert(joined.last() == second.last());
    } else {
        assert(joined =~= first);
    }
}

/// A strict dominator of a node dominates each predecessor of the node.
pub proof fn lemma_strict_dominator_of_successor<A>(
    edges: Set<(A, A)>,
    entry: A,
    dom: A,
    pred: A,
    node: A,
)
    requires
        strictly_dominates(edges, entry, dom, node),
        edges.contains((pred, node)),
    ensures
        dominates(edges, entry, dom, pred),
{
    assert forall|path: Seq<A>| #[trigger]
        is_path_between(edges, entry, pred, path) implies path.contains(dom) by {
        lemma_extend_path(edges, entry, pred, node, path);
        let longer = path.push(node);
        let i = choose|i: int| 0 <= i < longer.len() && longer[i] == dom;
        assert(path[i] == dom);
    }
}

/// What dominates every predecessor of a node other than the entry dominates the node.
pub proof fn lemma_dominates_by_predecessors<A>(edges: Set<(A, A)>, entry: A, dom: A, node: A)
    requires
        node != entry,
        forall|pred: A| #[trigger]
            edges.contains((pred, node)) ==> dominates(edges, entry, dom, pred),
    ensures
        dominates(edges, entry, dom, node),
{
    assert forall|path: Seq<A>| #[trigger]
        is_path_between(edges, entry, node, path) implies path.contains(dom) by {
        let i = path.len() - 2;
        assert(edges.contains((path[i], path[i + 1])));
        lemma_path_prefix(edges, entry, node, path, i);
        let prefix = path.take(i + 1);
        let k = choose|k: int| 0 <= k < prefix.len() && prefix[k] == dom;
        assert(path[k] == dom);
    }
}

/// Dominance is transitive.
pub proof fn lemma_dominates_transitive<A>(edges: Set<(A, A)>, entry: A, a: A, b: A, c: A)
    requires
        dominates(edges, entry, a, b),
        dominates(edges, entry, b, c),
    ensures
        dominates(edges, entry, a, c),
{
    assert forall|path: Seq<A>| #[trigger]
        is_path_between(edges, entry, c, path) implies path.contains(a) by {
        let i = choose|i: int| 0 <= i < path.len() && path[i] == b;
        lemma_path_prefix(edges, entry, c, path, i);
        let prefix = path.take(i + 1);
        let k = choose|k: int| 0 <= k < prefix.len() && prefix[k] == a;
        assert(path[k] == a);
    }
}

/// `dom` strictly dominates `node`, and no other strict dominator of `node`.
pub open spec fn is_immediate_dominator<A>(edges: Set<(A, A)>, entry: A, dom: A, node: A) -> bool {
    &&& strictly_dominates(edges, entry, dom, node)
    &&& forall|z: A| #[trigger]
        strictly_dominates(edges, entry, z, node) ==> !strictly_dominates(edges, entry, dom, z)
}

/// `dom` dominates each of `nodes`.
pub open spec fn is_common_dominator<A>(
    edges: Set<(A, A)>,
    entry: A,
    dom: A,
    nodes: Seq<A>,
) -> bool {
    forall|i: int| 0 <= i < nodes.len() ==> dominates(edges, entry, dom, #[trigger] nodes[i])
}

/// `dom` is a common dominator of `nodes` that strictly dominates no other one.
pub open spec fn is_closest_common_dominator<A>(
    edges: Set<(A, A)>,
    entry: A,
    dom: A,
    nodes: Seq<A>,
) -> bool {
    &&& is_common_dominator(edges, entry, dom, nodes)
    &&& forall|z: A| #[trigger]
        is_common_dominator(edges, entry, z, nodes) ==> !strictly_dominates(edges, entry, dom, z)
}

/// Every node dominates itself.
pub proof fn lemma_dominates_itself<A>(edges: Set<(A, A)>, entry: A, node: A)
    ensures
        dominates(edges, entry, node, node),
{
    assert forall|path: Seq<A>| #[trigger]
        is_path_between(edges, entry, node, path) implies path.contains(node) by {
        assert(path[path.len() - 1] == node);
    }
}

/// The entry dominates all nodes.
pub proof fn lemma_entry_dominates<A>(edges: Set<(A, A)>, entry: A, node: A)
    ensures
        dominates(edges, entry, entry, node),
{
    assert forall|path: Seq<A>| #[trigger]
        is_path_between(edges, entry, node, path) implies path.contains(entry) by {
        assert(path[0] == entry);
    }
}

/// The dominators of a node that can be reached can be reached.
pub proof fn lemma_dominator_reached<A>(edges: Set<(A, A)>, entry: A, dom: A, node: A)
    requires
        reaches(edges, entry, node),
        dominates(edges, entry, dom, node),
    ensures
        reaches(edges, entry, dom),
{
    let path = choose|path: Seq<A>| is_path_between(edges, entry, node, path);
    let i = choose|i: int| 0 <= i < path.len() && path[i] == dom;
    lemma_path_prefix(edges, entry, node, path, i);
}

proof fn lemma_antisymmetric_on_path<A>(edges: Set<(A, A)>, entry: A, a: A, b: A, path: Seq<A>)
    requires
        dominates(edges, entry, a, b),
        dominates(edges, entry, b, a),
        is_path_between(edges, entry, a, path),
    ensures
        a == b,
    decreases path.len(),
{
    if a != b {
        let i = choose|i: int| 0 <= i < path.len() && path[i] == b;
        lemma_path_prefix(edges, entry, a, path, i);
        let to_b = path.take(i + 1);
        let j = choose|j: int| 0 <= j < to_b.len() && to_b[j] == a;
        lemma_path_prefix(edges, entry, b, to_b, j);
        lemma_antisymmetric_on_path(edges, entry, a, b, to_b.take(j + 1));
    }
}

/// Two nodes that can be reached and dominate each other are one.
pub proof fn lemma_dominates_antisymmetric<A>(edges: Set<(A, A)>, entry: A, a: A, b: A)
    requires
        reaches(edges, entry, a),
        dominates(edges, entry, a, b),
        dominates(edges, entry, b, a),
    ensures
        a == b,
{
    let path = choose|path: Seq<A>| is_path_between(edges, entry, a, path);
    lemma_antisymmetric_on_path(edges, entry, a, b, path);
}

/// The last place in `path`, up to `end`, where `a` or `b` stands.
proof fn lemma_last_of_two<A>(path: Seq<A>, a: A, b: A, end: int) -> (i: int)
    requires
        0 <= end <= path.len(),
        exists|k: int| 0 <= k < end && path[k] == a,
    ensures
        0 <= i < end,
        path[i] == a || path[i] == b,
        forall|k: int| i < k < end ==> (#[trigger] path[k]) != a && path[k] != b,
    decreases end,
{
    if path[end - 1] == a || path[end - 1] == b {
        end - 1
    } else {
        let k = choose|k: int| 0 <= k < end && path[k] == a;
        assert(k < end - 1);
        lemma_last_of_two(path, a, b, end - 1)
    }
}

/// A detour: where some path to `mid` avoids `dom`, and a path to `node` goes through `mid`
/// and avoids `dom` from there on, `dom` does not dominate `node`.
proof fn lemma_detour<A>(
    edges: Set<(A, A)>,
    entry: A,
    dom: A,
    node: A,
    path: Seq<A>,
    i: int,
    detour: Seq<A>,
)
    requires
        is_path_between(edges, entry, node, path),
        0 <= i < path.len(),
        is_path_between(edges, entry, path[i], detour),
        !detour.contains(dom),
        forall|k: int| i < k < path.len() ==> (#[trigger] path[k]) != dom,
    ensures
        !dominates(edges, entry, dom, node),
{
    let rest = path.skip(i);
    lemma_path_suffix(edges, entry, node, path, i);
    lemma_join_paths(edges, entry, path[i], node, detour, rest);
    let joined = detour + rest.skip(1);
    if joined.contains(dom) {
        let k = choose|k: int| 0 <= k < joined.len() && joined[k] == dom;
        if k < detour.len() {
            assert(detour[k] == dom);
        } else {
            assert(joined[k] == path[k - detour.len() + 1 + i]);
        }
    }
}

/// Of two dominators of a node that can be reached, one dominates the other.
pub proof fn lemma_dominators_are_ordered<A>(edges: Set<(A, A)>, entry: A, a: A, b: A, node: A)
    requires
        reaches(edges, entry, node),
        dominates(edges, entry, a, node),
        dominates(edges, entry, b, node),
    ensures
        dominates(edges, entry, a, b) || dominates(edges, entry, b, a),
{
    if !dominates(edges, entry, a, b) && !dominates(edges, entry, b, a) {
        let path = choose|path: Seq<A>| is_path_between(edges, entry, node, path);
        let i = lemma_last_of_two(path, a, b, path.len() as int);
        if path[i] == b {
            let detour = choose|p: Seq<A>|
                #![trigger is_path_between(edges, entry, b, p)]
                is_path_between(edges, entry, b, p) && !p.contains(a);
            lemma_detour(edges, entry, a, node, path, i, detour);
        } else {
            let detour = choose|p: Seq<A>|
                #![trigger is_path_between(edges, entry, a, p)]
                is_path_between(edges, entry, a, p) && !p.contains(b);
            lemma_detour(edges, entry, b, node, path, i, detour);
        }
    }
}

/// A common dominator is the closest one just if every common dominator dominates it.
pub proof fn lemma_closest_is_lowest<A>(edges: Set<(A, A)>, entry: A, dom: A, nodes: Seq<A>)
    requires
        nodes.len() > 0,
        reaches(edges, entry, nodes[0]),
    ensures
        is_closest_common_dominator(edges, entry, dom, nodes) <==> {
            &&& is_common_dominator(edges, entry, dom, nodes)
            &&& forall|z: A| #[trigger]
                is_common_dominator(edges, entry, z, nodes) ==> dominates(edges, entry, z, dom)
        },
{
    if is_common_dominator(edges, entry, dom, nodes) {
        assert(dominates(edges, entry, dom, nodes[0]));
        lemma_dominator_reached(edges, entry, dom, nodes[0]);
        assert forall|z: A| #[trigger] is_common_dominator(edges, entry, z, nodes) implies (
        dominates(edges, entry, z, dom) <==> !strictly_dominates(edges, entry, dom, z)) by {
            assert(dominates(edges, entry, z, nodes[0]));
            lemma_dominators_are_ordered(edges, entry, z, dom, nodes[0]);
            if dominates(edges, entry, z, dom) && dominates(edges, entry, dom, z) {
                lemma_dominates_antisymmetric(edges, entry, dom, z);
            }
            if z == dom {
                lemma_dominates_itself(edges, entry, z);
            }
        }
    }
}

/// There is at most one closest common dominator.
pub proof fn lemma_closest_common_dominator_unique<A>(
    edges: Set<(A, A)>,
    entry: A,
    a: A,
    b: A,
    nodes: Seq<A>,
)
    requires
        nodes.len() > 0,
        reaches(edges, entry, nodes[0]),
        is_closest_common_dominator(edges, entry, a, nodes),
        is_closest_common_dominator(edges, entry, b, nodes),
    ensures
        a == b,
{
    lemma_closest_is_lowest(edges, entry, a, nodes);
    lemma_closest_is_lowest(edges, entry, b, nodes);
    assert(dominates(edges, entry, a, nodes[0]));
    lemma_dominator_reached(edges, entry, a, nodes[0]);
    lemma_dominates_antisymmetric(edges, entry, a, b);
}

/// A node that can be reached is its own closest dominator.
pub proof fn lemma_closest_of_one<A>(edges: Set<(A, A)>, entry: A, node: A)
    requires
        reaches(edges, entry, node),
    ensures
        is_closest_common_dominator(edges, entry, node, seq![node]),
{
    let nodes = seq![node];
    lemma_dominates_itself(edges, entry, node);
    lemma_closest_is_lowest(edges, entry, node, nodes);
    assert forall|z: A| #[trigger] is_common_dominator(edges, entry, z, nodes) implies dominates(
        edges,
        entry,
        z,
        node,
    ) by {
        assert(dominates(edges, entry, z, nodes[0]));
    }
}

/// What nodes occur decides over their closest common dominator, not in what order or how often.
pub proof fn lemma_closest_of_same_set<A>(
    edges: Set<(A, A)>,
    entry: A,
    dom: A,
    nodes: Seq<A>,
    others: Seq<A>,
)
    requires
        nodes.to_set() == others.to_set(),
        is_closest_common_dominator(edges, entry, dom, nodes),
    ensures
        is_closest_common_dominator(edges, entry, dom, others),
{
    assert forall|z: A| #[trigger] is_common_dominator(edges, entry, z, nodes)
        <==> is_common_dominator(edges, entry, z, others) by {
        if is_common_dominator(edges, entry, z, nodes) {
            assert forall|i: int| 0 <= i < others.len() implies dominates(
                edges,
                entry,
                z,
                #[trigger] others[i],
            ) by {
                assert(others.to_set().contains(others[i]));
                assert(nodes.contains(others[i]));
            }
        }
        if is_common_dominator(edges, entry, z, others) {
            assert forall|i: int| 0 <= i < nodes.len() implies dominates(
                edges,
                entry,
                z,
                #[trigger] nodes[i],
            ) by {
                assert(nodes.to_set().contains(nodes[i]));
                assert(others.contains(nodes[i]));
            }
        }
    }
    assert(is_common_dominator(edges, entry, dom, nodes));
    assert forall|z: A| #[trigger]
        is_common_dominator(edges, entry, z, others) implies !strictly_dominates(
        edges,
        entry,
        dom,
        z,
    ) by {
        assert(is_common_dominator(edges, entry, z, nodes));
    }
}

/// The closest common dominator of nodes among which is the entry is the entry.
pub proof fn lemma_closest_with_entry<A>(edges: Set<(A, A)>, entry: A, nodes: Seq<A>)
    requires
        nodes.contains(entry),
    ensures
        is_closest_common_dominator(edges, entry, entry, nodes),
{
    assert forall|i: int| 0 <= i < nodes.len() implies dominates(
        edges,
        entry,
        entry,
        #[trigger] nodes[i],
    ) by {
        lemma_entry_dominates(edges, entry, nodes[i]);
    }
    assert forall|z: A| #[trigger] is_common_dominator(edges, entry, z, nodes) implies z
        == entry by {
        let i = choose|i: int| 0 <= i < nodes.len() && nodes[i] == entry;
        assert(dominates(edges, entry, z, nodes[i]));
        lemma_trivial_path(edges, entry);
        lemma_entry_dominates(edges, entry, z);
        lemma_dominates_antisymmetric(edges, entry, entry, z);
    }
}

/// With more nodes the closest common dominator stays or moves towards the entry.
pub proof fn lemma_closest_of_more<A>(
    edges: Set<(A, A)>,
    entry: A,
    dom: A,
    nodes: Seq<A>,
    more_dom: A,
    more: Seq<A>,
)
    requires
        nodes.len() > 0,
        reaches(edges, entry, nodes[0]),
        is_closest_common_dominator(edges, entry, dom, nodes),
        is_closest_common_dominator(edges, entry, more_dom, more),
        forall|i: int| 0 <= i < nodes.len() ==> more.contains(#[trigger] nodes[i]),
    ensures
        dominates(edges, entry, more_dom, dom),
{
    assert forall|i: int| 0 <= i < nodes.len() implies dominates(
        edges,
        entry,
        more_dom,
        #[trigger] nodes[i],
    ) by {
        let j = choose|j: int| 0 <= j < more.len() && more[j] == nodes[i];
        assert(dominates(edges, entry, more_dom, more[j]));
    }
    assert(is_common_dominator(edges, entry, more_dom, nodes));
    lemma_closest_is_lowest(edges, entry, dom, nodes);
}

/// The first place in `path` where `a` stands.
proof fn lemma_first<A>(path: Seq<A>, a: A) -> (i: int)
    requires
        path.contains(a),
    ensures
        0 <= i < path.len(),
        path[i] == a,
        forall|k: int| 0 <= k < i ==> (#[trigger] path[k]) != a,
    decreases path.len(),
{
    let k = choose|k: int| 0 <= k < path.len() && path[k] == a;
    let before = path.take(k);
    if before.contains(a) {
        let i = lemma_first(before, a);
        assert(path[i] == before[i]);
        assert forall|j: int| 0 <= j < i implies (#[trigger] path[j]) != a by {
            assert(before[j] == path[j]);
        }
        i
    } else {
        assert forall|j: int| 0 <= j < k implies (#[trigger] path[j]) != a by {
            assert(before[j] == path[j]);
        }
        k
    }
}

/// `part` holds the edges from those nodes that `from` leads to.
pub open spec fn is_part_from<A>(edges: Set<(A, A)>, from: A, part: Set<(A, A)>) -> bool {
    forall|u: A, v: A| #[trigger]
        part.contains((u, v)) <==> edges.contains((u, v)) && reaches(edges, from, u)
}

/// A path from the node that a part is made from stays in the part.
pub proof fn lemma_path_in_part<A>(
    edges: Set<(A, A)>,
    from: A,
    part: Set<(A, A)>,
    to: A,
    path: Seq<A>,
)
    requires
        is_part_from(edges, from, part),
    ensures
        is_path_between(edges, from, to, path) <==> is_path_between(part, from, to, path),
{
    if is_path_between(edges, from, to, path) {
        assert forall|a: int, b: int|
            #![trigger path[a], path[b]]
            0 <= a && b == a + 1 && b < path.len() implies part.contains((path[a], path[b])) by {
            lemma_path_prefix(edges, from, to, path, a);
        }
    }
    if is_path_between(part, from, to, path) {
        assert forall|a: int, b: int|
            #![trigger path[a], path[b]]
            0 <= a && b == a + 1 && b < path.len() implies edges.contains((path[a], path[b])) by {
            assert(part.contains((path[a], path[b])));
        }
    }
}

/// What the entry does not lead to has no part in dominance.
proof fn lemma_dominates_in_part<A>(
    edges: Set<(A, A)>,
    entry: A,
    part: Set<(A, A)>,
    dom: A,
    node: A,
)
    requires
        is_part_from(edges, entry, part),
    ensures
        dominates(edges, entry, dom, node) <==> dominates(part, entry, dom, node),
{
    if dominates(edges, entry, dom, node) {
        assert forall|path: Seq<A>| #[trigger]
            is_path_between(part, entry, node, path) implies path.contains(dom) by {
            lemma_path_in_part(edges, entry, part, node, path);
        }
    }
    if dominates(part, entry, dom, node) {
        assert forall|path: Seq<A>| #[trigger]
            is_path_between(edges, entry, node, path) implies path.contains(dom) by {
            lemma_path_in_part(edges, entry, part, node, path);
        }
    }
}

/// What the entry does not lead to has no part in what the closest common dominator is.
pub proof fn lemma_closest_in_entry_part<A>(
    edges: Set<(A, A)>,
    entry: A,
    part: Set<(A, A)>,
    dom: A,
    nodes: Seq<A>,
)
    requires
        is_part_from(edges, entry, part),
    ensures
        is_closest_common_dominator(edges, entry, dom, nodes) <==> is_closest_common_dominator(
            part,
            entry,
            dom,
            nodes,
        ),
{
    assert forall|z: A| #[trigger] is_common_dominator(edges, entry, z, nodes)
        <==> is_common_dominator(part, entry, z, nodes) by {
        if is_common_dominator(edges, entry, z, nodes) {
            assert forall|i: int| 0 <= i < nodes.len() implies dominates(
                part,
                entry,
                z,
                #[trigger] nodes[i],
            ) by {
                lemma_dominates_in_part(edges, entry, part, z, nodes[i]);
            }
        }
        if is_common_dominator(part, entry, z, nodes) {
            assert forall|i: int| 0 <= i < nodes.len() implies dominates(
                edges,
                entry,
                z,
                #[trigger] nodes[i],
            ) by {
                lemma_dominates_in_part(edges, entry, part, z, nodes[i]);
            }
        }
    }
    assert forall|z: A| #[trigger] strictly_dominates(edges, entry, dom, z)
        <==> strictly_dominates(part, entry, dom, z) by {
        lemma_dominates_in_part(edges, entry, part, dom, z);
    }
    if is_closest_common_dominator(edges, entry, dom, nodes) {
        assert(is_common_dominator(edges, entry, dom, nodes));
        assert forall|z: A| #[trigger]
            is_common_dominator(part, entry, z, nodes) implies !strictly_dominates(
            part,
            entry,
            dom,
            z,
        ) by {
            assert(is_common_dominator(edges, entry, z, nodes));
            assert(!strictly_dominates(edges, entry, dom, z));
        }
    }
    if is_closest_common_dominator(part, entry, dom, nodes) {
        assert(is_common_dominator(edges, entry, dom, nodes));
    }
}

/// What dominates a node from `dom` on, dominates it from `entry` on if `dom` does.
proof fn lemma_dominates_from_earlier<A>(
    edges: Set<(A, A)>,
    part: Set<(A, A)>,
    entry: A,
    dom: A,
    z: A,
    node: A,
)
    requires
        is_part_from(edges, dom, part),
        dominates(edges, entry, dom, node),
        dominates(part, dom, z, node),
    ensures
        dominates(edges, entry, z, node),
{
    assert forall|path: Seq<A>| #[trigger]
        is_path_between(edges, entry, node, path) implies path.contains(z) by {
        let k = choose|k: int| 0 <= k < path.len() && path[k] == dom;
        let rest = path.skip(k);
        lemma_path_suffix(edges, entry, node, path, k);
        lemma_path_in_part(edges, dom, part, node, rest);
        let j = choose|j: int| 0 <= j < rest.len() && rest[j] == z;
        assert(path[k + j] == z);
    }
}

/// The closest common dominator of some nodes is still that in the part that it leads to, with
/// it as the entry. All the nodes are in that part.
pub proof fn lemma_closest_in_its_part<A>(
    edges: Set<(A, A)>,
    part: Set<(A, A)>,
    entry: A,
    dom: A,
    nodes: Seq<A>,
)
    requires
        nodes.len() > 0,
        forall|i: int| 0 <= i < nodes.len() ==> reaches(edges, entry, #[trigger] nodes[i]),
        is_closest_common_dominator(edges, entry, dom, nodes),
        is_part_from(edges, dom, part),
    ensures
        is_closest_common_dominator(part, dom, dom, nodes),
        forall|i: int| 0 <= i < nodes.len() ==> reaches(part, dom, #[trigger] nodes[i]),
{
    assert forall|i: int| 0 <= i < nodes.len() implies reaches(part, dom, #[trigger] nodes[i]) by {
        let path = choose|path: Seq<A>| is_path_between(edges, entry, nodes[i], path);
        assert(dominates(edges, entry, dom, nodes[i]));
        let k = choose|k: int| 0 <= k < path.len() && path[k] == dom;
        lemma_path_suffix(edges, entry, nodes[i], path, k);
        lemma_path_in_part(edges, dom, part, nodes[i], path.skip(k));
    }
    assert forall|i: int| 0 <= i < nodes.len() implies dominates(
        part,
        dom,
        dom,
        #[trigger] nodes[i],
    ) by {
        lemma_entry_dominates(part, dom, nodes[i]);
    }
    assert forall|z: A| #[trigger] is_common_dominator(part, dom, z, nodes) implies z == dom by {
        if z != dom {
            assert forall|i: int| 0 <= i < nodes.len() implies dominates(
                edges,
                entry,
                z,
                #[trigger] nodes[i],
            ) by {
                assert(dominates(edges, entry, dom, nodes[i]));
                assert(dominates(part, dom, z, nodes[i]));
                lemma_dominates_from_earlier(edges, part, entry, dom, z, nodes[i]);
            }
            assert(is_common_dominator(edges, entry, z, nodes));
            assert(reaches(edges, entry, nodes[0]));
            lemma_closest_is_lowest(edges, entry, dom, nodes);
            assert(dominates(edges, entry, dom, nodes[0]));
            lemma_dominator_reached(edges, entry, dom, nodes[0]);
            // Some path leads to `z` and avoids `dom`.
            let to_dom = choose|path: Seq<A>| is_path_between(edges, entry, dom, path);
            assert(to_dom[to_dom.len() - 1] == dom);
            let f = lemma_first(to_dom, dom);
            lemma_path_prefix(edges, entry, dom, to_dom, f);
            let short = to_dom.take(f + 1);
            assert(dominates(edges, entry, z, dom));
            assert(short.contains(z));
            let a = choose|a: int| 0 <= a < short.len() && short[a] == z;
            lemma_path_prefix(edges, entry, dom, short, a);
            let detour = short.take(a + 1);
            assert(!detour.contains(dom)) by {
                if detour.contains(dom) {
                    let k = choose|k: int| 0 <= k < detour.len() && detour[k] == dom;
                    assert(to_dom[k] == dom);
                    assert(k <= a < f);
                }
            }
            // From there some path avoids `dom` too.
            let path = choose|path: Seq<A>| is_path_between(edges, entry, nodes[0], path);
            assert(path.contains(dom));
            let i = lemma_last_of_two(path, dom, dom, path.len() as int);
            lemma_path_suffix(edges, entry, nodes[0], path, i);
            let rest = path.skip(i);
            lemma_path_in_part(edges, dom, part, nodes[0], rest);
            assert(dominates(part, dom, z, nodes[0]));
            let b = choose|b: int| 0 <= b < rest.len() && rest[b] == z;
            assert(path[i + b] == z);
            lemma_detour(edges, entry, dom, nodes[0], path, i + b, detour);
        }
    }
}

/// A strict dominator is the immediate one just if every strict dominator dominates it.
pub proof fn lemma_immediate_is_lowest<A>(edges: Set<(A, A)>, entry: A, dom: A, node: A)
    requires
        reaches(edges, entry, node),
    ensures
        is_immediate_dominator(edges, entry, dom, node) <==> {
            &&& strictly_dominates(edges, entry, dom, node)
            &&& forall|z: A| #[trigger]
                strictly_dominates(edges, entry, z, node) ==> dominates(edges, entry, z, dom)
        },
{
    if strictly_dominates(edges, entry, dom, node) {
        lemma_dominator_reached(edges, entry, dom, node);
        assert forall|z: A| #[trigger] strictly_dominates(edges, entry, z, node) implies (dominates(
            edges,
            entry,
            z,
            dom,
        ) <==> !strictly_dominates(edges, entry, dom, z)) by {
            lemma_dominators_are_ordered(edges, entry, z, dom, node);
            if dominates(edges, entry, z, dom) && dominates(edges, entry, dom, z) {
                lemma_dominates_antisymmetric(edges, entry, dom, z);
            }
            if z == dom {
                lemma_dominates_itself(edges, entry, z);
            }
        }
    }
}

/// A node has at most one immediate dominator.
pub proof fn lemma_immediate_dominator_unique<A>(
    edges: Set<(A, A)>,
    entry: A,
    a: A,
    b: A,
    node: A,
)
    requires
        reaches(edges, entry, node),
        is_immediate_dominator(edges, entry, a, node),
        is_immediate_dominator(edges, entry, b, node),
    ensures
        a == b,
{
    lemma_immediate_is_lowest(edges, entry, a, node);
    lemma_immediate_is_lowest(edges, entry, b, node);
    lemma_dominator_reached(edges, entry, a, node);
    lemma_dominates_antisymmetric(edges, entry, a, b);
}

/// `order` numbers the nodes of `edges` that `order[entry]` leads to, and `indexed` holds the
/// same edges between numbers.
pub open spec fn is_numbering<A>(
    edges: Set<(A, A)>,
    indexed: Set<(int, int)>,
    order: Seq<A>,
) -> bool {
    &&& order.no_duplicates()
    &&& forall|a: int, b: int| #[trigger]
        indexed.contains((a, b)) <==> 0 <= a < order.len() && 0 <= b < order.len()
            && edges.contains((order[a], order[b]))
    &&& forall|x: A, y: A| #[trigger]
        edges.contains((x, y)) && order.contains(x) ==> order.contains(y)
}

proof fn lemma_path_of_numbers<A>(
    edges: Set<(A, A)>,
    indexed: Set<(int, int)>,
    order: Seq<A>,
    path: Seq<A>,
    i: int,
)
    requires
        is_numbering(edges, indexed, order),
        is_path(edges, path),
        order.contains(path[0]),
        0 <= i < path.len(),
    ensures
        order.contains(path[i]),
    decreases i,
{
    if i > 0 {
        lemma_path_of_numbers(edges, indexed, order, path, i - 1);
        assert(edges.contains((path[i - 1], path[i])));
    }
}

/// Dominance between numbers is dominance between the nodes that they stand for.
pub proof fn lemma_numbering_dominates<A>(
    edges: Set<(A, A)>,
    indexed: Set<(int, int)>,
    order: Seq<A>,
    entry: int,
    dom: int,
    node: int,
)
    requires
        is_numbering(edges, indexed, order),
        0 <= entry < order.len(),
        0 <= dom < order.len(),
        0 <= node < order.len(),
    ensures
        dominates(indexed, entry, dom, node) <==> dominates(
            edges,
            order[entry],
            order[dom],
            order[node],
        ),
{
    if dominates(indexed, entry, dom, node) {
        assert forall|path: Seq<A>| #[trigger]
            is_path_between(edges, order[entry], order[node], path) implies path.contains(
            order[dom],
        ) by {
            let numbers = path.map_values(|x: A| order.index_of(x));
            assert forall|i: int| 0 <= i < path.len() implies {
                &&& 0 <= #[trigger] numbers[i] < order.len()
                &&& order[numbers[i]] == path[i]
            } by {
                lemma_path_of_numbers(edges, indexed, order, path, i);
            }
            assert forall|a: int, b: int|
                #![trigger numbers[a], numbers[b]]
                0 <= a && b == a + 1 && b < numbers.len() implies indexed.contains(
                (numbers[a], numbers[b]),
            ) by {
                assert(edges.contains((path[a], path[b])));
            }
            assert(is_path_between(indexed, entry, node, numbers));
            let k = choose|k: int| 0 <= k < numbers.len() && numbers[k] == dom;
            assert(path[k] == order[dom]);
        }
    }
    if dominates(edges, order[entry], order[dom], order[node]) {
        assert forall|numbers: Seq<int>| #[trigger]
            is_path_between(indexed, entry, node, numbers) implies numbers.contains(dom) by {
            let path = numbers.map_values(|i: int| order[i]);
            assert forall|i: int| 0 <= i < numbers.len() implies 0 <= #[trigger] numbers[i]
                < order.len() by {
                if i > 0 {
                    assert(indexed.contains((numbers[i - 1], numbers[i])));
                }
            }
            assert forall|a: int, b: int|
                #![trigger path[a], path[b]]
                0 <= a && b == a + 1 && b < path.len() implies edges.contains(
                (path[a], path[b]),
            ) by {
                assert(indexed.contains((numbers[a], numbers[b])));
            }
            assert(is_path_between(edges, order[entry], order[node], path));
            let k = choose|k: int| 0 <= k < path.len() && path[k] == order[dom];
            assert(numbers[k] == dom);
        }
    }
}

} // verus!
