//! Immediate dominators of a flow graph whose nodes are numbered in postorder, by the
//! Cooper-Harvey-Kennedy iterative algorithm.
use vstd::prelude::*;

use crate::paths;

verus! {

/// A node by its number.
pub type Index = usize;

/// `p` is listed as a predecessor of `u`.
pub open spec fn is_listed(preds: Seq<Vec<Index>>, p: int, u: int) -> bool {
    exists|k: int| 0 <= k < preds[u]@.len() && #[trigger] preds[u]@[k] == p
}

/// The edges of the graph in which `preds[u]` lists the predecessors of `u`.
pub open spec fn pred_edges(preds: Seq<Vec<Index>>) -> Set<(int, int)> {
    Set::new(|e: (int, int)| 0 <= e.1 < preds.len() && is_listed(preds, e.0, e.1))
}

/// Some predecessor of `u` has a higher number.
pub open spec fn has_higher_predecessor(preds: Seq<Vec<Index>>, u: int) -> bool {
    exists|k: int| 0 <= k < preds[u]@.len() && #[trigger] preds[u]@[k] > u
}

/// Predecessors are nodes, and every node but the last one has a predecessor with a higher
/// number. A numbering in postorder from an entry that reaches every node has this property.
pub open spec fn numbered_in_postorder(preds: Seq<Vec<Index>>) -> bool {
    &&& preds.len() > 0
    &&& forall|u: int, k: int|
        0 <= u < preds.len() && 0 <= k < preds[u]@.len() ==> (#[trigger] preds[u]@[k]) < preds.len()
    &&& forall|u: int| 0 <= u < preds.len() - 1 ==> #[trigger] has_higher_predecessor(preds, u)
}

/// The parent link of `u`, if there is one, leads to a higher node that has a parent link.
pub open spec fn leads_up(parents: Seq<Option<Index>>, u: int) -> bool {
    parents[u] is Some ==> {
        &&& u < parents[u]->0 < parents.len()
        &&& parents[parents[u]->0 as int] is Some
    }
}

/// Parent links that lead from every node that has one to the last node, upwards.
pub open spec fn is_upward_tree(parents: Seq<Option<Index>>) -> bool {
    &&& parents.len() > 0
    &&& parents.last() is Some && parents.last()->0 == parents.len() - 1
    &&& forall|u: int| 0 <= u < parents.len() - 1 ==> #[trigger] leads_up(parents, u)
}

/// Following the parent links from `node` leads to `ancestor`, in zero or more steps.
pub open spec fn is_ancestor(parents: Seq<Option<Index>>, ancestor: int, node: int) -> bool
    decreases ancestor - node,
{
    if ancestor == node {
        true
    } else if 0 <= node < ancestor && node < parents.len() && parents[node] is Some && node
        < parents[node]->0 <= ancestor {
        is_ancestor(parents, ancestor, parents[node]->0 as int)
    } else {
        false
    }
}

/// `lca` is the lowest common ancestor of `a` and `b`: an ancestor of both, below every other
/// one.
pub open spec fn is_lowest_common_ancestor(
    parents: Seq<Option<Index>>,
    lca: int,
    a: int,
    b: int,
) -> bool {
    &&& is_ancestor(parents, lca, a)
    &&& is_ancestor(parents, lca, b)
    &&& forall|z: int| #[trigger]
        is_ancestor(parents, z, a) && is_ancestor(parents, z, b) ==> is_ancestor(parents, z, lca)
}

proof fn lemma_ancestor_is_higher(parents: Seq<Option<Index>>, ancestor: int, node: int)
    requires
        is_ancestor(parents, ancestor, node),
    ensures
        ancestor >= node,
{
}

proof fn lemma_ancestor_transitive(parents: Seq<Option<Index>>, a: int, b: int, c: int)
    requires
        is_ancestor(parents, a, b),
        is_ancestor(parents, b, c),
    ensures
        is_ancestor(parents, a, c),
    decreases b - c,
{
    lemma_ancestor_is_higher(parents, a, b);
    if b != c {
        lemma_ancestor_transitive(parents, a, b, parents[c]->0 as int);
    }
}

/// Replacing the lower of two different nodes by its parent keeps their common ancestors.
proof fn lemma_step_up(parents: Seq<Option<Index>>, a: int, b: int)
    requires
        is_upward_tree(parents),
        0 <= a < b < parents.len(),
        parents[a] is Some,
    ensures
        is_ancestor(parents, parents[a]->0 as int, a),
        forall|z: int| #[trigger]
            is_ancestor(parents, z, a) && is_ancestor(parents, z, b) ==> is_ancestor(
                parents,
                z,
                parents[a]->0 as int,
            ),
{
    let up = parents[a]->0 as int;
    assert(leads_up(parents, a));
    assert(is_ancestor(parents, up, up));
    assert forall|z: int| #[trigger]
        is_ancestor(parents, z, a) && is_ancestor(parents, z, b) implies is_ancestor(
        parents,
        z,
        up,
    ) by {
        lemma_ancestor_is_higher(parents, z, b);
    }
}

/// Finds the lowest common ancestor of `b1` and `b2`.
pub fn intersect(b1: Index, b2: Index, immediate_dominators: &Vec<Option<Index>>) -> (lca: Index)
    requires
        is_upward_tree(immediate_dominators@),
        b1 < immediate_dominators@.len(),
        b2 < immediate_dominators@.len(),
        immediate_dominators@[b1 as int] is Some,
        immediate_dominators@[b2 as int] is Some,
    ensures
        lca < immediate_dominators@.len(),
        immediate_dominators@[lca as int] is Some,
        is_lowest_common_ancestor(immediate_dominators@, lca as int, b1 as int, b2 as int),
{
    let ghost parents = immediate_dominators@;
    let ghost n = parents.len();
    let ghost start1 = b1 as int;
    let ghost start2 = b2 as int;
    let mut b1: Index = b1;
    let mut b2: Index = b2;
    while b1 != b2
        invariant
            parents == immediate_dominators@,
            n == parents.len(),
            is_upward_tree(parents),
            b1 < n,
            b2 < n,
            parents[b1 as int] is Some,
            parents[b2 as int] is Some,
            is_ancestor(parents, b1 as int, start1),
            is_ancestor(parents, b2 as int, start2),
            forall|z: int| #[trigger]
                is_ancestor(parents, z, start1) && is_ancestor(parents, z, start2)
                    ==> is_ancestor(parents, z, b1 as int) && is_ancestor(parents, z, b2 as int),
        decreases 2 * n - b1 - b2,
    {
        let ghost before = 2 * n - b1 - b2;
        let ghost low = b1 < b2;
        while b1 < b2
            invariant
                parents == immediate_dominators@,
                n == parents.len(),
                is_upward_tree(parents),
                b1 < n,
                b2 < n,
                parents[b1 as int] is Some,
                parents[b2 as int] is Some,
                is_ancestor(parents, b1 as int, start1),
                is_ancestor(parents, b2 as int, start2),
                forall|z: int| #[trigger]
                    is_ancestor(parents, z, start1) && is_ancestor(parents, z, start2)
                        ==> is_ancestor(parents, z, b1 as int) && is_ancestor(
                        parents,
                        z,
                        b2 as int,
                    ),
                2 * n - b1 - b2 <= before,
                2 * n - b1 - b2 == before ==> (low == (b1 < b2)),
            decreases n - b1,
        {
            proof {
                assert(leads_up(parents, b1 as int));
                lemma_step_up(parents, b1 as int, b2 as int);
                lemma_ancestor_transitive(
                    parents,
                    parents[b1 as int]->0 as int,
                    b1 as int,
                    start1,
                );
            }
            b1 = immediate_dominators[b1].unwrap();
        }
        while b2 < b1
            invariant
                parents == immediate_dominators@,
                n == parents.len(),
                is_upward_tree(parents),
                b1 < n,
                b2 < n,
                parents[b1 as int] is Some,
                parents[b2 as int] is Some,
                is_ancestor(parents, b1 as int, start1),
                is_ancestor(parents, b2 as int, start2),
                forall|z: int| #[trigger]
                    is_ancestor(parents, z, start1) && is_ancestor(parents, z, start2)
                        ==> is_ancestor(parents, z, b1 as int) && is_ancestor(
                        parents,
                        z,
                        b2 as int,
                    ),
                2 * n - b1 - b2 <= before,
                2 * n - b1 - b2 == before ==> b2 < b1,
            decreases n - b2,
        {
            proof {
                assert(leads_up(parents, b2 as int));
                lemma_step_up(parents, b2 as int, b1 as int);
                lemma_ancestor_transitive(
                    parents,
                    parents[b2 as int]->0 as int,
                    b2 as int,
                    start2,
                );
            }
            b2 = immediate_dominators[b2].unwrap();
        }
    }
    b1
}

/// `ancestor` is an ancestor of each of `nodes`.
pub open spec fn is_common_ancestor(
    parents: Seq<Option<Index>>,
    ancestor: int,
    nodes: Seq<Index>,
) -> bool {
    forall|i: int|
        0 <= i < nodes.len() ==> is_ancestor(parents, ancestor, #[trigger] nodes[i] as int)
}

/// `lca` is the lowest common ancestor of all `nodes`: a common ancestor of them, below every
/// other one.
pub open spec fn is_lowest_of_all(
    parents: Seq<Option<Index>>,
    lca: int,
    nodes: Seq<Index>,
) -> bool {
    &&& is_common_ancestor(parents, lca, nodes)
    &&& forall|z: int| #[trigger]
        is_common_ancestor(parents, z, nodes) ==> is_ancestor(parents, z, lca)
}

/// The ancestors of a node stand in the tree.
pub proof fn lemma_ancestor_in_tree(parents: Seq<Option<Index>>, ancestor: int, node: int)
    requires
        is_upward_tree(parents),
        0 <= node < parents.len(),
        is_ancestor(parents, ancestor, node),
    ensures
        node <= ancestor < parents.len(),
    decreases ancestor - node,
{
    if ancestor != node {
        if node < parents.len() - 1 {
            assert(leads_up(parents, node));
        }
        lemma_ancestor_in_tree(parents, ancestor, parents[node]->0 as int);
    }
}

/// Finds the lowest common ancestor of all `targets`.
pub fn find_lowest_common_ancestor(
    targets: &Vec<Index>,
    immediate_dominators: &Vec<Option<Index>>,
) -> (lca: Index)
    requires
        is_upward_tree(immediate_dominators@),
        targets@.len() > 0,
        forall|i: int|
            0 <= i < targets@.len() ==> (#[trigger] targets@[i]) < immediate_dominators@.len()
                && immediate_dominators@[targets@[i] as int] is Some,
    ensures
        lca < immediate_dominators@.len(),
        immediate_dominators@[lca as int] is Some,
        is_lowest_of_all(immediate_dominators@, lca as int, targets@),
{
    let ghost parents = immediate_dominators@;
    let mut lca: Index = targets[0];
    let mut i: usize = 1;
    assert(targets@.take(1)[0] == lca);
    while i < targets.len()
        invariant
            parents == immediate_dominators@,
            is_upward_tree(parents),
            1 <= i <= targets@.len(),
            forall|i: int|
                0 <= i < targets@.len() ==> (#[trigger] targets@[i]) < parents.len()
                    && parents[targets@[i] as int] is Some,
            lca < parents.len(),
            parents[lca as int] is Some,
            is_common_ancestor(parents, lca as int, targets@.take(i as int)),
            forall|z: int| #[trigger]
                is_common_ancestor(parents, z, targets@.take(i as int)) ==> is_ancestor(
                    parents,
                    z,
                    lca as int,
                ),
        decreases targets@.len() - i,
    {
        let ghost before = lca as int;
        let ghost seen = targets@.take(i as int);
        let ghost now_seen = targets@.take(i + 1);
        let node: Index = targets[i];
        lca = intersect(lca, node, immediate_dominators);
        proof {
            assert(now_seen =~= seen.push(node));
            assert forall|j: int| 0 <= j < now_seen.len() implies is_ancestor(
                parents,
                lca as int,
                #[trigger] now_seen[j] as int,
            ) by {
                if j < i {
                    assert(now_seen[j] == seen[j]);
                    lemma_ancestor_transitive(parents, lca as int, before, seen[j] as int);
                }
            }
            assert forall|z: int| #[trigger]
                is_common_ancestor(parents, z, now_seen) implies is_ancestor(
                parents,
                z,
                lca as int,
            ) by {
                assert(is_ancestor(parents, z, now_seen[i as int] as int));
                assert forall|j: int| 0 <= j < seen.len() implies is_ancestor(
                    parents,
                    z,
                    #[trigger] seen[j] as int,
                ) by {
                    assert(now_seen[j] == seen[j]);
                }
                assert(is_common_ancestor(parents, z, seen));
            }
        }
        i = i + 1;
    }
    assert(targets@.take(i as int) =~= targets@);
    lca
}

/// `dom` dominates `node` in the numbered graph, seen from its last node.
pub open spec fn dominates(preds: Seq<Vec<Index>>, dom: int, node: int) -> bool {
    paths::dominates(pred_edges(preds), preds.len() - 1, dom, node)
}

/// `dom` dominates `node` and is another node.
pub open spec fn strictly_dominates(preds: Seq<Vec<Index>>, dom: int, node: int) -> bool {
    dominates(preds, dom, node) && dom != node
}

/// `path` leads from the last node to `node`.
spec fn leads_to(preds: Seq<Vec<Index>>, node: int, path: Seq<int>) -> bool {
    paths::is_path_between(pred_edges(preds), preds.len() - 1, node, path)
}

/// Every strict dominator of a node dominates the parent of the node.
spec fn parents_are_dominated(preds: Seq<Vec<Index>>, parents: Seq<Option<Index>>) -> bool {
    forall|dom: int, u: int|
        0 <= u < preds.len() - 1 && parents[u] is Some && #[trigger] strictly_dominates(
            preds,
            dom,
            u,
        ) ==> dominates(preds, dom, parents[u]->0 as int)
}

/// Every path to `u` of at most `k` edges goes through the parent of `u`.
spec fn parent_on_paths_upto(
    preds: Seq<Vec<Index>>,
    parents: Seq<Option<Index>>,
    k: int,
    u: int,
) -> bool {
    parents[u] is Some ==> forall|path: Seq<int>| #[trigger]
        leads_to(preds, u, path) && path.len() <= k + 1 ==> path.contains(parents[u]->0 as int)
}

spec fn parents_on_paths_upto(
    preds: Seq<Vec<Index>>,
    parents: Seq<Option<Index>>,
    k: int,
) -> bool {
    forall|u: int| 0 <= u < preds.len() ==> #[trigger] parent_on_paths_upto(preds, parents, k, u)
}

/// The edge from a listed predecessor.
pub proof fn lemma_listed_edge(preds: Seq<Vec<Index>>, u: int, k: int)
    requires
        0 <= u < preds.len(),
        0 <= k < preds[u]@.len(),
    ensures
        pred_edges(preds).contains((preds[u]@[k] as int, u)),
{
    assert(is_listed(preds, preds[u]@[k] as int, u));
}

/// Some path to `b` never goes below `b`.
proof fn lemma_path_above(preds: Seq<Vec<Index>>, b: int) -> (path: Seq<int>)
    requires
        numbered_in_postorder(preds),
        0 <= b < preds.len(),
    ensures
        leads_to(preds, b, path),
        forall|i: int| 0 <= i < path.len() ==> #[trigger] path[i] >= b,
    decreases preds.len() - b,
{
    if b == preds.len() - 1 {
        seq![b]
    } else {
        assert(has_higher_predecessor(preds, b));
        let k = choose|k: int| 0 <= k < preds[b]@.len() && #[trigger] preds[b]@[k] > b;
        let q = preds[b]@[k] as int;
        let above = lemma_path_above(preds, q);
        lemma_listed_edge(preds, b, k);
        paths::lemma_extend_path(pred_edges(preds), preds.len() - 1, q, b, above);
        above.push(b)
    }
}

proof fn lemma_dominator_is_higher(preds: Seq<Vec<Index>>, dom: int, node: int)
    requires
        numbered_in_postorder(preds),
        0 <= node < preds.len(),
        dominates(preds, dom, node),
    ensures
        dom >= node,
{
    let path = lemma_path_above(preds, node);
    assert(path.contains(dom));
}

proof fn lemma_dominator_is_ancestor(
    preds: Seq<Vec<Index>>,
    parents: Seq<Option<Index>>,
    dom: int,
    node: int,
)
    requires
        numbered_in_postorder(preds),
        parents.len() == preds.len(),
        is_upward_tree(parents),
        parents_are_dominated(preds, parents),
        0 <= node < preds.len(),
        parents[node] is Some,
        dominates(preds, dom, node),
    ensures
        is_ancestor(parents, dom, node),
    decreases preds.len() - node,
{
    if dom != node {
        if node == preds.len() - 1 {
            let path = seq![node];
            assert(leads_to(preds, node, path));
            assert(path.contains(dom));
        } else {
            assert(strictly_dominates(preds, dom, node));
            assert(leads_up(parents, node));
            let up = parents[node]->0 as int;
            lemma_dominator_is_higher(preds, dom, up);
            lemma_dominator_is_ancestor(preds, parents, dom, up);
        }
    }
}

proof fn lemma_dominator_of_ancestor(
    preds: Seq<Vec<Index>>,
    parents: Seq<Option<Index>>,
    dom: int,
    ancestor: int,
    node: int,
)
    requires
        parents.len() == preds.len(),
        is_upward_tree(parents),
        parents_are_dominated(preds, parents),
        0 <= node <= ancestor < preds.len(),
        parents[node] is Some,
        is_ancestor(parents, ancestor, node),
        dominates(preds, dom, node),
        dom >= ancestor,
    ensures
        dominates(preds, dom, ancestor),
    decreases ancestor - node,
{
    if ancestor != node {
        assert(strictly_dominates(preds, dom, node));
        assert(leads_up(parents, node));
        lemma_dominator_of_ancestor(preds, parents, dom, ancestor, parents[node]->0 as int);
    }
}

proof fn lemma_ancestor_on_short_path(
    preds: Seq<Vec<Index>>,
    parents: Seq<Option<Index>>,
    k: int,
    ancestor: int,
    node: int,
    path: Seq<int>,
)
    requires
        parents.len() == preds.len(),
        is_upward_tree(parents),
        parents_on_paths_upto(preds, parents, k),
        0 <= node <= ancestor < preds.len(),
        parents[node] is Some,
        is_ancestor(parents, ancestor, node),
        leads_to(preds, node, path),
        path.len() <= k + 1,
    ensures
        path.contains(ancestor),
    decreases ancestor - node,
{
    if ancestor == node {
        assert(path[path.len() - 1] == ancestor);
    } else {
        let up = parents[node]->0 as int;
        assert(parent_on_paths_upto(preds, parents, k, node));
        assert(leads_up(parents, node));
        let i = choose|i: int| 0 <= i < path.len() && path[i] == up;
        let prefix = path.take(i + 1);
        paths::lemma_path_prefix(pred_edges(preds), preds.len() - 1, node, path, i);
        lemma_ancestor_on_short_path(preds, parents, k, ancestor, up, prefix);
        let j = choose|j: int| 0 <= j < prefix.len() && prefix[j] == ancestor;
        assert(path[j] == ancestor);
    }
}

/// A path that no node below `n` occurs on twice has at most `n` nodes.
proof fn lemma_distinct_below(path: Seq<int>, n: int)
    requires
        n >= 0,
        path.no_duplicates(),
        forall|i: int| 0 <= i < path.len() ==> 0 <= #[trigger] path[i] < n,
    ensures
        path.len() <= n,
    decreases n,
{
    if n == 0 {
        if path.len() > 0 {
            assert(0 <= path[0] < n);
        }
    } else if path.contains(n - 1) {
        let k = choose|k: int| 0 <= k < path.len() && path[k] == n - 1;
        let rest = path.remove(k);
        assert forall|i: int| 0 <= i < rest.len() implies 0 <= #[trigger] rest[i] < n - 1 by {
            let j = if i < k { i } else { i + 1 };
            assert(rest[i] == path[j]);
        }
        assert(rest.no_duplicates());
        lemma_distinct_below(rest, n - 1);
    } else {
        assert forall|i: int| 0 <= i < path.len() implies 0 <= #[trigger] path[i] < n - 1 by {
            if path[i] == n - 1 {
                assert(path.contains(n - 1));
            }
        }
        lemma_distinct_below(path, n - 1);
    }
}

/// A path that avoids a node can be cut short to one that still avoids it and has no more
/// nodes than the graph.
proof fn lemma_short_path_avoiding(
    preds: Seq<Vec<Index>>,
    node: int,
    path: Seq<int>,
    avoided: int,
) -> (short: Seq<int>)
    requires
        preds.len() > 0,
        numbered_in_postorder(preds),
        leads_to(preds, node, path),
        !path.contains(avoided),
    ensures
        leads_to(preds, node, short),
        !short.contains(avoided),
        short.len() <= preds.len(),
    decreases path.len(),
{
    let edges = pred_edges(preds);
    if path.len() <= preds.len() {
        path
    } else {
        assert forall|i: int| 0 <= i < path.len() implies 0 <= #[trigger] path[i]
            < preds.len() by {
            if i > 0 {
                assert(edges.contains((path[i - 1], path[i])));
            }
        }
        if path.no_duplicates() {
            lemma_distinct_below(path, preds.len() as int);
        }
        let (i, j) = choose|i: int, j: int|
            0 <= i < path.len() && 0 <= j < path.len() && i != j && path[i] == path[j];
        let (a, b) = if i < j {
            (i, j)
        } else {
            (j, i)
        };
        let cut = path.take(a + 1) + path.skip(b + 1);
        assert forall|x: int, y: int|
            #![trigger cut[x], cut[y]]
            0 <= x && y == x + 1 && y < cut.len() implies edges.contains((cut[x], cut[y])) by {
            if y <= a {
                assert(cut[x] == path[x] && cut[y] == path[y]);
            } else {
                assert(cut[y] == path[y + (b - a)]);
                assert(cut[x] == path[x + (b - a)]);
            }
        }
        if b + 1 < path.len() {
            assert(cut.last() == path.last());
        } else {
            assert(cut.last() == path[a]);
        }
        assert(cut[0] == path[0]);
        assert forall|x: int| 0 <= x < cut.len() implies #[trigger] cut[x] != avoided by {
            if x <= a {
                assert(cut[x] == path[x]);
            } else {
                assert(cut[x] == path[x + (b - a)]);
            }
        }
        lemma_short_path_avoiding(preds, node, cut, avoided)
    }
}

/// Parents that lie on all paths of fewer edges than the graph has nodes are dominators.
proof fn lemma_parent_dominates(
    preds: Seq<Vec<Index>>,
    parents: Seq<Option<Index>>,
    k: int,
    u: int,
)
    requires
        numbered_in_postorder(preds),
        parent_on_paths_upto(preds, parents, k, u),
        parents[u] is Some,
        k + 1 >= preds.len(),
    ensures
        dominates(preds, parents[u]->0 as int, u),
{
    let dom = parents[u]->0 as int;
    assert forall|path: Seq<int>| #[trigger]
        paths::is_path_between(
            pred_edges(preds),
            preds.len() - 1,
            u,
            path,
        ) implies path.contains(dom) by {
        assert(leads_to(preds, u, path));
        if !path.contains(dom) {
            let short = lemma_short_path_avoiding(preds, u, path, dom);
            assert(leads_to(preds, u, short));
        }
    }
}

/// `ancestor` is an ancestor of those of `nodes` that have a parent.
spec fn is_ancestor_of_processed(
    parents: Seq<Option<Index>>,
    ancestor: int,
    nodes: Seq<Index>,
) -> bool {
    forall|k: int|
        0 <= k < nodes.len() && parents[#[trigger] nodes[k] as int] is Some ==> is_ancestor(
            parents,
            ancestor,
            nodes[k] as int,
        )
}

/// The lowest common ancestor of those of `preds` that have a parent, if there is one.
fn merge_predecessors(
    preds: &Vec<Index>,
    immediate_dominators: &Vec<Option<Index>>,
) -> (merged: Option<Index>)
    requires
        is_upward_tree(immediate_dominators@),
        forall|k: int|
            0 <= k < preds@.len() ==> (#[trigger] preds@[k]) < immediate_dominators@.len(),
    ensures
        merged is Some <==> exists|k: int|
            0 <= k < preds@.len() && immediate_dominators@[#[trigger] preds@[k] as int] is Some,
        merged matches Some(lca) ==> {
            &&& lca < immediate_dominators@.len()
            &&& immediate_dominators@[lca as int] is Some
            &&& is_ancestor_of_processed(immediate_dominators@, lca as int, preds@)
            &&& forall|z: int| #[trigger]
                is_ancestor_of_processed(immediate_dominators@, z, preds@) ==> is_ancestor(
                    immediate_dominators@,
                    z,
                    lca as int,
                )
        },
{
    let ghost parents = immediate_dominators@;
    // Find the first processed predecessor.
    let mut first: usize = 0;
    while first < preds.len() && immediate_dominators[preds[first]].is_none()
        invariant
            parents == immediate_dominators@,
            forall|k: int| 0 <= k < preds@.len() ==> (#[trigger] preds@[k]) < parents.len(),
            first <= preds@.len(),
            forall|k: int| 0 <= k < first ==> parents[#[trigger] preds@[k] as int] is None,
        decreases preds@.len() - first,
    {
        first = first + 1;
    }
    if first == preds.len() {
        return None;
    }
    let mut candidate: Index = preds[first];
    let mut i: usize = 0;
    while i < preds.len()
        invariant
            parents == immediate_dominators@,
            is_upward_tree(parents),
            forall|k: int| 0 <= k < preds@.len() ==> (#[trigger] preds@[k]) < parents.len(),
            i <= preds@.len(),
            candidate < parents.len(),
            parents[candidate as int] is Some,
            is_ancestor_of_processed(parents, candidate as int, preds@.take(i as int)),
            forall|z: int| #[trigger]
                is_ancestor_of_processed(parents, z, preds@) ==> is_ancestor(
                    parents,
                    z,
                    candidate as int,
                ),
        decreases preds@.len() - i,
    {
        let p: Index = preds[i];
        let ghost before = candidate as int;
        if p != candidate && immediate_dominators[p].is_some() {
            candidate = intersect(candidate, p, immediate_dominators);
        }
        proof {
            let seen = preds@.take(i as int);
            let now_seen = preds@.take(i + 1);
            assert forall|k: int|
                0 <= k < now_seen.len() && parents[#[trigger] now_seen[k] as int] is Some implies is_ancestor(
                parents,
                candidate as int,
                now_seen[k] as int,
            ) by {
                if k < i {
                    assert(now_seen[k] == seen[k]);
                    lemma_ancestor_transitive(parents, candidate as int, before, seen[k] as int);
                }
            }
        }
        i = i + 1;
    }
    assert(preds@.take(i as int) =~= preds@);
    assert(parents[preds@[first as int] as int] is Some);
    Some(candidate)
}

/// The node before the last one of a path to `u` is listed among the predecessors of `u`.
proof fn lemma_last_edge(preds: Seq<Vec<Index>>, u: int, path: Seq<int>) -> (k: int)
    requires
        0 <= u < preds.len() - 1,
        leads_to(preds, u, path),
    ensures
        path.len() >= 2,
        0 <= k < preds[u]@.len(),
        preds[u]@[k] == path[path.len() - 2],
        leads_to(preds, preds[u]@[k] as int, path.drop_last()),
{
    let i = path.len() - 2;
    assert(path.len() >= 2);
    assert(pred_edges(preds).contains((path[i], path[i + 1])));
    paths::lemma_path_prefix(pred_edges(preds), preds.len() - 1, u, path, i);
    assert(path.take(i + 1) =~= path.drop_last());
    choose|k: int| 0 <= k < preds[u]@.len() && #[trigger] preds[u]@[k] == path[i]
}

/// `merged` is the lowest common ancestor of the processed predecessors of `u`, one of which
/// has a higher number than `u`.
spec fn merges_predecessors(
    preds: Seq<Vec<Index>>,
    parents: Seq<Option<Index>>,
    u: int,
    merged: Index,
) -> bool {
    &&& merged < preds.len()
    &&& parents[merged as int] is Some
    &&& is_ancestor_of_processed(parents, merged as int, preds[u]@)
    &&& forall|z: int| #[trigger]
        is_ancestor_of_processed(parents, z, preds[u]@) ==> is_ancestor(
            parents,
            z,
            merged as int,
        )
    &&& exists|k: int|
        0 <= k < preds[u]@.len() && (#[trigger] preds[u]@[k]) > u
            && parents[preds[u]@[k] as int] is Some
}

/// The strict dominators of `u` dominate the merged predecessor.
proof fn lemma_merged_is_dominated(
    preds: Seq<Vec<Index>>,
    parents: Seq<Option<Index>>,
    u: int,
    merged: Index,
    dom: int,
)
    requires
        numbered_in_postorder(preds),
        parents.len() == preds.len(),
        is_upward_tree(parents),
        parents_are_dominated(preds, parents),
        0 <= u < preds.len() - 1,
        merges_predecessors(preds, parents, u, merged),
        strictly_dominates(preds, dom, u),
    ensures
        dom >= merged,
        dominates(preds, dom, merged as int),
{
    let edges = pred_edges(preds);
    let entry = preds.len() - 1;
    let list = preds[u]@;
    assert forall|k: int|
        0 <= k < list.len() && parents[#[trigger] list[k] as int] is Some implies is_ancestor(
        parents,
        dom,
        list[k] as int,
    ) by {
        lemma_listed_edge(preds, u, k);
        paths::lemma_strict_dominator_of_successor(edges, entry, dom, list[k] as int, u);
        lemma_dominator_is_ancestor(preds, parents, dom, list[k] as int);
    }
    assert(is_ancestor_of_processed(parents, dom, list));
    lemma_ancestor_is_higher(parents, dom, merged as int);
    let k = choose|k: int|
        0 <= k < list.len() && (#[trigger] list[k]) > u && parents[list[k] as int] is Some;
    let q = list[k] as int;
    lemma_listed_edge(preds, u, k);
    paths::lemma_strict_dominator_of_successor(edges, entry, dom, q, u);
    lemma_ancestor_is_higher(parents, merged as int, q);
    lemma_dominator_of_ancestor(preds, parents, dom, merged as int, q);
}

/// Making the merged predecessor the parent of `u` keeps what is known of the parents, and
/// accounts for paths to `u` of one more edge.
proof fn lemma_update_parent(
    preds: Seq<Vec<Index>>,
    parents: Seq<Option<Index>>,
    k: int,
    u: int,
    merged: Index,
)
    requires
        numbered_in_postorder(preds),
        parents.len() == preds.len(),
        is_upward_tree(parents),
        parents_are_dominated(preds, parents),
        parents_on_paths_upto(preds, parents, k),
        k >= 0,
        k > 0 ==> forall|x: int| 0 <= x < parents.len() ==> (#[trigger] parents[x]) is Some,
        0 <= u < preds.len() - 1,
        merges_predecessors(preds, parents, u, merged),
    ensures
        merged > u,
        is_upward_tree(parents.update(u, Some(merged))),
        parents_are_dominated(preds, parents.update(u, Some(merged))),
        parents_on_paths_upto(preds, parents.update(u, Some(merged)), k),
        parent_on_paths_upto(preds, parents.update(u, Some(merged)), k + 1, u),
{
    let after = parents.update(u, Some(merged));
    let list = preds[u]@;
    let q = choose|q: int|
        0 <= q < list.len() && (#[trigger] list[q]) > u && parents[list[q] as int] is Some;
    lemma_ancestor_is_higher(parents, merged as int, list[q] as int);
    assert forall|x: int| 0 <= x < after.len() - 1 implies #[trigger] leads_up(after, x) by {
        assert(leads_up(parents, x));
    }
    assert forall|dom: int, x: int|
        0 <= x < preds.len() - 1 && after[x] is Some && #[trigger] strictly_dominates(
            preds,
            dom,
            x,
        ) implies dominates(preds, dom, after[x]->0 as int) by {
        if x == u {
            lemma_merged_is_dominated(preds, parents, u, merged, dom);
        }
    }
    assert forall|path: Seq<int>| #[trigger]
        leads_to(preds, u, path) && path.len() <= k + 2 implies path.contains(
        merged as int,
    ) by {
        let i = lemma_last_edge(preds, u, path);
        let prefix = path.drop_last();
        let p = list[i] as int;
        if k == 0 {
            assert(prefix.last() == prefix[0]);
        }
        assert(parents[p] is Some);
        lemma_ancestor_is_higher(parents, merged as int, p);
        lemma_ancestor_on_short_path(preds, parents, k, merged as int, p, prefix);
        let j = choose|j: int| 0 <= j < prefix.len() && prefix[j] == merged;
        assert(path[j] == merged);
    }
    assert(parent_on_paths_upto(preds, after, k + 1, u));
    assert forall|x: int| 0 <= x < preds.len() implies #[trigger] parent_on_paths_upto(
        preds,
        after,
        k,
        x,
    ) by {
        assert(parent_on_paths_upto(preds, parents, k, x));
    }
}

/// Where all parents are dominators, so are all ancestors.
proof fn lemma_ancestor_dominates(
    preds: Seq<Vec<Index>>,
    parents: Seq<Option<Index>>,
    ancestor: int,
    node: int,
)
    requires
        parents.len() == preds.len(),
        is_upward_tree(parents),
        0 <= node < preds.len(),
        ancestor < preds.len(),
        is_ancestor(parents, ancestor, node),
        forall|u: int|
            0 <= u < preds.len() - 1 && (#[trigger] parents[u]) is Some ==> dominates(
                preds,
                parents[u]->0 as int,
                u,
            ),
    ensures
        dominates(preds, ancestor, node),
    decreases ancestor - node,
{
    let edges = pred_edges(preds);
    let entry = preds.len() - 1;
    if ancestor == node {
        assert forall|path: Seq<int>| #[trigger]
            paths::is_path_between(edges, entry, node, path) implies path.contains(node) by {
            assert(path[path.len() - 1] == node);
        }
    } else {
        let up = parents[node]->0 as int;
        lemma_ancestor_dominates(preds, parents, ancestor, up);
        paths::lemma_dominates_transitive(edges, entry, ancestor, up, node);
    }
}

/// Once all parents are dominators, merging predecessors changes no parent.
proof fn lemma_merge_is_stable(
    preds: Seq<Vec<Index>>,
    parents: Seq<Option<Index>>,
    u: int,
    merged: Index,
)
    requires
        numbered_in_postorder(preds),
        parents.len() == preds.len(),
        is_upward_tree(parents),
        parents_are_dominated(preds, parents),
        forall|x: int| 0 <= x < parents.len() ==> (#[trigger] parents[x]) is Some,
        forall|x: int|
            0 <= x < preds.len() - 1 && (#[trigger] parents[x]) is Some ==> dominates(
                preds,
                parents[x]->0 as int,
                x,
            ),
        0 <= u < preds.len() - 1,
        merges_predecessors(preds, parents, u, merged),
    ensures
        parents[u] == Some(merged),
{
    let edges = pred_edges(preds);
    let entry = preds.len() - 1;
    let list = preds[u]@;
    let parent = parents[u]->0 as int;
    assert(leads_up(parents, u));
    lemma_merged_is_dominated(preds, parents, u, merged, parent);
    assert forall|pred: int| #[trigger] edges.contains((pred, u)) implies paths::dominates(
        edges,
        entry,
        merged as int,
        pred,
    ) by {
        let k = choose|k: int| 0 <= k < list.len() && #[trigger] list[k] == pred;
        assert(is_ancestor(parents, merged as int, list[k] as int));
        lemma_ancestor_dominates(preds, parents, merged as int, pred);
    }
    paths::lemma_dominates_by_predecessors(edges, entry, merged as int, u);
    let q = choose|q: int|
        0 <= q < list.len() && (#[trigger] list[q]) > u && parents[list[q] as int] is Some;
    lemma_ancestor_is_higher(parents, merged as int, list[q] as int);
    assert(strictly_dominates(preds, merged as int, u));
    lemma_dominator_is_higher(preds, merged as int, parent);
}

/// The parent of `v` is an ancestor of each processed predecessor of `v`.
spec fn parent_is_merged(preds: Seq<Vec<Index>>, parents: Seq<Option<Index>>, v: int) -> bool {
    parents[v] is Some && is_ancestor_of_processed(parents, parents[v]->0 as int, preds[v]@)
}

/// Where the parent of every node is an ancestor of all predecessors of the node, every path
/// goes through all ancestors of its end.
proof fn lemma_fixpoint_on_path(
    preds: Seq<Vec<Index>>,
    parents: Seq<Option<Index>>,
    ancestor: int,
    node: int,
    path: Seq<int>,
)
    requires
        numbered_in_postorder(preds),
        parents.len() == preds.len(),
        is_upward_tree(parents),
        forall|x: int| 0 <= x < parents.len() ==> (#[trigger] parents[x]) is Some,
        forall|v: int| 0 <= v < preds.len() - 1 ==> #[trigger] parent_is_merged(preds, parents, v),
        0 <= node < preds.len(),
        is_ancestor(parents, ancestor, node),
        leads_to(preds, node, path),
    ensures
        path.contains(ancestor),
    decreases path.len(),
{
    if ancestor == node {
        assert(path[path.len() - 1] == node);
    } else {
        assert(parent_is_merged(preds, parents, node));
        let k = lemma_last_edge(preds, node, path);
        let p = preds[node]@[k] as int;
        let up = parents[node]->0 as int;
        assert(parents[p] is Some);
        assert(is_ancestor(parents, up, preds[node]@[k] as int));
        lemma_ancestor_transitive(parents, ancestor, up, p);
        let prefix = path.drop_last();
        lemma_fixpoint_on_path(preds, parents, ancestor, p, prefix);
        let j = choose|j: int| 0 <= j < prefix.len() && prefix[j] == ancestor;
        assert(path[j] == ancestor);
    }
}

proof fn lemma_fixpoint_dominates(
    preds: Seq<Vec<Index>>,
    parents: Seq<Option<Index>>,
    u: int,
)
    requires
        numbered_in_postorder(preds),
        parents.len() == preds.len(),
        is_upward_tree(parents),
        forall|x: int| 0 <= x < parents.len() ==> (#[trigger] parents[x]) is Some,
        forall|v: int| 0 <= v < preds.len() - 1 ==> #[trigger] parent_is_merged(preds, parents, v),
        0 <= u < preds.len() - 1,
    ensures
        strictly_dominates(preds, parents[u]->0 as int, u),
{
    let up = parents[u]->0 as int;
    assert(leads_up(parents, u));
    assert(is_ancestor(parents, up, up));
    assert(is_ancestor(parents, up, u));
    assert forall|path: Seq<int>| #[trigger]
        paths::is_path_between(
            pred_edges(preds),
            preds.len() - 1,
            u,
            path,
        ) implies path.contains(up) by {
        assert(leads_to(preds, u, path));
        lemma_fixpoint_on_path(preds, parents, up, u, path);
    }
}

/// Applies the Cooper-Harvey-Kennedy iterative algorithm to build the dominator tree: the
/// ancestors of a node in it are the dominators of the node. The entry is the node with the
/// highest number, and stands as its own parent.
pub fn get_immediate_dominators_internal(
    adj: &Vec<Vec<Index>>,
    rev_adj: &Vec<Vec<Index>>,
) -> (immediate_dominators: Vec<Option<Index>>)
    requires
        adj@.len() == rev_adj@.len(),
        numbered_in_postorder(rev_adj@),
    ensures
        immediate_dominators@.len() == rev_adj@.len(),
        is_upward_tree(immediate_dominators@),
        forall|u: int| 0 <= u < rev_adj@.len() ==> (#[trigger] immediate_dominators@[u]) is Some,
        forall|a: int, u: int|
            0 <= a < rev_adj@.len() && 0 <= u < rev_adj@.len() ==> (#[trigger] is_ancestor(
                immediate_dominators@,
                a,
                u,
            ) <==> dominates(rev_adj@, a, u)),
{
    let num_nodes: usize = adj.len();
    let start_node_id: Index = num_nodes - 1;
    let ghost preds = rev_adj@;
    let ghost n = preds.len() as int;

    // The parent of a node in the tree built so far, by the number of the node. `None` means
    // that the node was not processed yet.
    let mut immediate_dominators: Vec<Option<Index>> = Vec::new();
    while immediate_dominators.len() < num_nodes
        invariant
            immediate_dominators@.len() <= num_nodes,
            forall|x: int|
                0 <= x < immediate_dominators@.len() ==> (#[trigger] immediate_dominators@[x])
                    is None,
        decreases num_nodes - immediate_dominators@.len(),
    {
        immediate_dominators.push(None);
    }
    immediate_dominators.set(start_node_id, Some(start_node_id));

    proof {
        let parents = immediate_dominators@;
        assert forall|x: int| 0 <= x < n - 1 implies #[trigger] leads_up(parents, x) by {
            assert(parents[x] is None);
        }
        assert forall|x: int| 0 <= x < n implies #[trigger] parent_on_paths_upto(
            preds,
            parents,
            0,
            x,
        ) by {
            assert forall|path: Seq<int>| #[trigger]
                leads_to(preds, x, path) && path.len() <= 1 && parents[x]
                    is Some implies path.contains(parents[x]->0 as int) by {
                assert(path[path.len() - 1] == x);
            }
        }
    }

    // How many times all nodes were processed.
    let ghost mut passes: int = 0;
    loop
        invariant
            preds == rev_adj@,
            n == preds.len(),
            start_node_id == n - 1,
            numbered_in_postorder(preds),
            immediate_dominators@.len() == n,
            is_upward_tree(immediate_dominators@),
            parents_are_dominated(preds, immediate_dominators@),
            passes >= 0,
            parents_on_paths_upto(preds, immediate_dominators@, passes),
            passes > 0 ==> forall|x: int|
                0 <= x < n ==> (#[trigger] immediate_dominators@[x]) is Some,
        ensures
            immediate_dominators@.len() == n,
            is_upward_tree(immediate_dominators@),
            parents_are_dominated(preds, immediate_dominators@),
            forall|x: int| 0 <= x < n ==> (#[trigger] immediate_dominators@[x]) is Some,
            forall|v: int|
                0 <= v < n - 1 ==> #[trigger] parent_is_merged(preds, immediate_dominators@, v),
        decreases n + 1 - passes,
    {
        let ghost before = immediate_dominators@;
        let mut changed = false;
        // Process the nodes in reverse postorder, without the entry.
        let mut rest: Index = start_node_id;
        while rest > 0
            invariant
                preds == rev_adj@,
                n == preds.len(),
                start_node_id == n - 1,
                rest <= start_node_id,
                numbered_in_postorder(preds),
                immediate_dominators@.len() == n,
                before.len() == n,
                is_upward_tree(immediate_dominators@),
                parents_are_dominated(preds, immediate_dominators@),
                passes >= 0,
                parents_on_paths_upto(preds, immediate_dominators@, passes),
                parents_on_paths_upto(preds, before, passes),
                passes > 0 ==> forall|x: int|
                    0 <= x < n ==> (#[trigger] before[x]) is Some,
                forall|x: int|
                    0 <= x < n && before[x] is Some ==> (#[trigger] immediate_dominators@[x])
                        is Some,
                forall|x: int|
                    rest <= x < n ==> (#[trigger] immediate_dominators@[x]) is Some,
                forall|x: int|
                    rest <= x < n ==> #[trigger] parent_on_paths_upto(
                        preds,
                        immediate_dominators@,
                        passes + 1,
                        x,
                    ),
                !changed ==> immediate_dominators@ == before,
                !changed ==> forall|v: int|
                    rest <= v < n - 1 ==> #[trigger] parent_is_merged(
                        preds,
                        before,
                        v,
                    ),
                passes >= n ==> !changed,
            decreases rest,
        {
            rest = rest - 1;
            let u: Index = rest;
            let ghost parents = immediate_dominators@;
            let merged = merge_predecessors(&rev_adj[u], &immediate_dominators);
            proof {
                assert(has_higher_predecessor(preds, u as int));
                let k = choose|k: int|
                    0 <= k < preds[u as int]@.len() && #[trigger] preds[u as int]@[k] > u;
                let q = preds[u as int]@[k];
                assert(parents[q as int] is Some);
                assert(merged is Some);
                assert(merges_predecessors(preds, parents, u as int, merged->0));
                lemma_update_parent(preds, parents, passes, u as int, merged->0);
                if passes >= n {
                    assert forall|x: int|
                        0 <= x < n - 1 && (#[trigger] parents[x]) is Some implies dominates(
                        preds,
                        parents[x]->0 as int,
                        x,
                    ) by {
                        assert(parent_on_paths_upto(preds, parents, passes, x));
                        lemma_parent_dominates(preds, parents, passes, x);
                    }
                    lemma_merge_is_stable(preds, parents, u as int, merged->0);
                }
            }
            if let Some(candidate) = merged {
                let unchanged = match immediate_dominators[u] {
                    Some(parent) => parent == candidate,
                    None => false,
                };
                if !unchanged {
                    immediate_dominators.set(u, Some(candidate));
                    changed = true;
                }
            }
            proof {
                let after = immediate_dominators@;
                assert(after =~= parents.update(u as int, merged));
                assert forall|x: int| rest <= x < n implies #[trigger] parent_on_paths_upto(
                    preds,
                    after,
                    passes + 1,
                    x,
                ) by {
                    if x != u {
                        assert(parent_on_paths_upto(preds, parents, passes + 1, x));
                    }
                }
                if !changed {
                    assert forall|v: int| rest <= v < n - 1 implies #[trigger] parent_is_merged(
                        preds,
                        before,
                        v,
                    ) by {
                        assert(parents == before);
                    }
                }
            }
        }
        proof {
            passes = passes + 1;
        }
        if !changed {
            break;
        }
    }
    proof {
        assert forall|u: int| 0 <= u < n - 1 implies strictly_dominates(
            preds,
            (#[trigger] immediate_dominators@[u])->0 as int,
            u,
        ) by {
            lemma_fixpoint_dominates(preds, immediate_dominators@, u);
        }
        assert forall|a: int, u: int| 0 <= a < n && 0 <= u < n implies (#[trigger] is_ancestor(
            immediate_dominators@,
            a,
            u,
        ) <==> dominates(preds, a, u)) by {
            if is_ancestor(immediate_dominators@, a, u) {
                lemma_ancestor_dominates(preds, immediate_dominators@, a, u);
            }
            if dominates(preds, a, u) {
                lemma_dominator_is_ancestor(preds, immediate_dominators@, a, u);
            }
        }
    }
    immediate_dominators
}

} // verus!
