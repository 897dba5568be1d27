//! The truncated evolution graph of a divergent change.
use vstd::prelude::*;
use vstd::string::StringExecFns;

use crate::adjacency::AdjacencyMap;
use crate::commit::Commit;
use crate::commit::CommitEvolutionEntry;
use crate::commit::CommitView;
use crate::commit::EntryView;
use crate::dominators;
use crate::dominators::DominatorFinder;
use crate::error;
use crate::error::ConvergeError;
use crate::evolution;
use crate::evolution::EvolutionWalk;
use crate::graph::FlowGraph;
use crate::graph::SimpleDirectedGraph;
use crate::ids;
use crate::ids::ChangeId;
use crate::ids::CommitId;
use crate::model;
use crate::node;
use crate::node::Node;
use crate::paths;
use crate::reach;

verus! {

/// Each recorded commit with its own predecessors.
pub open spec fn predecessor_graph(recorded: Seq<EntryView>, change: Seq<u8>) -> Seq<
    (Seq<u8>, Seq<Seq<u8>>),
> {
    recorded.map_values(
        |entry: EntryView|
            (entry.commit.id, model::distinct(evolution::own_predecessors(entry, change))),
    )
}

/// The commits of the change that have no predecessors of their own.
pub open spec fn initial_ids(recorded: Seq<EntryView>, change: Seq<u8>) -> Seq<Seq<u8>> {
    recorded.filter(
        |entry: EntryView| evolution::own_predecessors(entry, change).len() == 0,
    ).map_values(|entry: EntryView| entry.commit.id)
}

/// The predecessor graph, with the root commit as a predecessor of all initial commits unless
/// there is just one.
pub open spec fn rooted_graph(recorded: Seq<EntryView>, change: Seq<u8>, root: Seq<u8>) -> Seq<
    (Seq<u8>, Seq<Seq<u8>>),
> {
    let graph = predecessor_graph(recorded, change);
    let initial = initial_ids(recorded, change);
    if initial.len() == 1 {
        graph
    } else {
        model::with_edges(
            model::with_node(graph, root),
            initial.map_values(|id: Seq<u8>| (id, root)),
        )
    }
}

/// The evolution graph: its edges lead from predecessors to successors.
pub open spec fn evolution_graph(recorded: Seq<EntryView>, change: Seq<u8>, root: Seq<u8>) -> Seq<
    (Seq<u8>, Seq<Seq<u8>>),
> {
    model::reversed(model::completed(rooted_graph(recorded, change, root)))
}

/// Where the evolution starts: at the one initial commit, or at the root commit if there are
/// several.
pub open spec fn evolution_start(recorded: Seq<EntryView>, change: Seq<u8>, root: Seq<u8>) -> Seq<
    u8,
> {
    let initial = initial_ids(recorded, change);
    if initial.len() == 1 {
        initial[0]
    } else {
        root
    }
}

/// The entries with that of the root commit, if the evolution starts there.
pub open spec fn evolution_entries(
    recorded: Seq<EntryView>,
    change: Seq<u8>,
    root: EntryView,
) -> Seq<EntryView> {
    if initial_ids(recorded, change).len() == 1 {
        recorded
    } else {
        recorded.filter(|entry: EntryView| entry.commit.id != root.commit.id).push(root)
    }
}

/// The entries of the commits in a graph.
pub open spec fn entries_within(
    entries: Seq<EntryView>,
    graph: Seq<(Seq<u8>, Seq<Seq<u8>>)>,
) -> Seq<EntryView> {
    entries.filter(|entry: EntryView| model::has_node(graph, entry.commit.id))
}

/// Some entry is for the commit `id`, and `parent` is one of its own predecessors.
pub open spec fn has_own_predecessor(
    recorded: Seq<EntryView>,
    change: Seq<u8>,
    id: Seq<u8>,
    parent: Seq<u8>,
) -> bool {
    exists|i: int|
        0 <= i < recorded.len() && (#[trigger] recorded[i]).commit.id == id
            && evolution::own_predecessors(recorded[i], change).contains(parent)
}

/// Some entry is for the commit `id`, which has no predecessors of its own.
pub open spec fn is_initial(recorded: Seq<EntryView>, change: Seq<u8>, id: Seq<u8>) -> bool {
    exists|i: int|
        0 <= i < recorded.len() && (#[trigger] recorded[i]).commit.id == id
            && evolution::own_predecessors(recorded[i], change).len() == 0
}

/// Leaving out entries keeps the other ones.
pub proof fn lemma_filtered(entries: Seq<EntryView>, keep: spec_fn(EntryView) -> bool)
    requires
        evolution::has_distinct_ids(entries),
    ensures
        evolution::has_distinct_ids(entries.filter(keep)),
        forall|j: int|
            0 <= j < entries.filter(keep).len() ==> entries.contains(
                #[trigger] entries.filter(keep)[j],
            ) && keep(entries.filter(keep)[j]),
        forall|i: int|
            0 <= i < entries.len() && keep(#[trigger] entries[i]) ==> entries.filter(
                keep,
            ).contains(entries[i]),
    decreases entries.len(),
{
    reveal(Seq::filter);
    if entries.len() > 0 {
        let init = entries.drop_last();
        let last = entries.last();
        let inner = init.filter(keep);
        let result = entries.filter(keep);
        assert forall|i: int, j: int|
            0 <= i < init.len() && 0 <= j < init.len() && i != j implies (
        #[trigger] init[i]).commit.id != (#[trigger] init[j]).commit.id by {
            assert(entries[i].commit.id != entries[j].commit.id);
        }
        lemma_filtered(init, keep);
        assert forall|j: int| 0 <= j < result.len() implies entries.contains(#[trigger] result[j])
            && keep(result[j]) by {
            if j < inner.len() {
                assert(result[j] == inner[j]);
                let i = choose|i: int| 0 <= i < init.len() && inner[j] == init[i];
                assert(entries[i] == init[i]);
            } else {
                assert(entries[entries.len() - 1] == last);
            }
        }
        assert forall|i: int| 0 <= i < entries.len() && keep(
            #[trigger] entries[i],
        ) implies result.contains(entries[i]) by {
            if i < init.len() {
                assert(init[i] == entries[i]);
                let j = choose|j: int| 0 <= j < inner.len() && inner[j] == init[i];
                assert(result[j] == entries[i]);
            } else {
                assert(result[inner.len() as int] == entries[i]);
            }
        }
        assert forall|a: int, b: int|
            0 <= a < result.len() && 0 <= b < result.len() && a != b implies (
        #[trigger] result[a]).commit.id != (#[trigger] result[b]).commit.id by {
            if a < inner.len() {
                assert(result[a] == inner[a]);
            }
            if b < inner.len() {
                assert(result[b] == inner[b]);
            }
            if a == inner.len() || b == inner.len() {
                let c = if a < inner.len() {
                    a
                } else {
                    b
                };
                assert(result[c] == inner[c]);
                let i = choose|i: int| 0 <= i < init.len() && inner[c] == init[i];
                assert(entries[i] == init[i]);
                assert(entries[entries.len() - 1] == last);
            }
        }
    }
}

/// The nodes and edges of the predecessor graph.
pub proof fn lemma_predecessor_graph(recorded: Seq<EntryView>, change: Seq<u8>)
    requires
        evolution::has_distinct_ids(recorded),
    ensures
        model::is_simple(predecessor_graph(recorded, change)),
        forall|k: Seq<u8>| #[trigger]
            model::has_node(predecessor_graph(recorded, change), k) <==> evolution::is_recorded(
                recorded,
                k,
            ),
        forall|k: Seq<u8>, x: Seq<u8>| #[trigger]
            model::has_edge(predecessor_graph(recorded, change), k, x) <==> has_own_predecessor(
                recorded,
                change,
                k,
                x,
            ),
{
    let graph = predecessor_graph(recorded, change);
    assert forall|i: int| 0 <= i < graph.len() implies (#[trigger] graph[i]).0
        == recorded[i].commit.id && graph[i].1.no_duplicates() by {
        model::lemma_distinct(evolution::own_predecessors(recorded[i], change));
    }
    assert forall|i: int, j: int| 0 <= i < graph.len() && 0 <= j < graph.len() && i != j implies (
    #[trigger] graph[i]).0 != (#[trigger] graph[j]).0 by {
        assert(recorded[i].commit.id != recorded[j].commit.id);
    }
    assert forall|k: Seq<u8>| #[trigger] model::has_node(graph, k) <==> evolution::is_recorded(
        recorded,
        k,
    ) by {
        if model::has_node(graph, k) {
            assert(recorded[model::position(graph, k)].commit.id == k);
        }
        if evolution::is_recorded(recorded, k) {
            let i = choose|i: int|
                0 <= i < recorded.len() && (#[trigger] recorded[i]).commit.id == k;
            assert(graph[i].0 == k);
        }
    }
    assert forall|k: Seq<u8>, x: Seq<u8>| #[trigger]
        model::has_edge(graph, k, x) <==> has_own_predecessor(recorded, change, k, x) by {
        if model::has_edge(graph, k, x) {
            let p = model::position(graph, k);
            assert(graph[p].0 == k);
            model::lemma_distinct(evolution::own_predecessors(recorded[p], change));
            assert(recorded[p].commit.id == k);
        }
        if has_own_predecessor(recorded, change, k, x) {
            let i = choose|i: int|
                0 <= i < recorded.len() && (#[trigger] recorded[i]).commit.id == k
                    && evolution::own_predecessors(recorded[i], change).contains(x);
            model::lemma_distinct(evolution::own_predecessors(recorded[i], change));
            model::lemma_position(graph, i);
            assert(graph[i].0 == k);
        }
    }
}

/// The initial commits are the recorded ones without predecessors of their own.
pub proof fn lemma_initial(recorded: Seq<EntryView>, change: Seq<u8>)
    requires
        evolution::has_distinct_ids(recorded),
    ensures
        forall|k: Seq<u8>| #[trigger]
            initial_ids(recorded, change).contains(k) <==> is_initial(recorded, change, k),
{
    let first = |entry: EntryView| evolution::own_predecessors(entry, change).len() == 0;
    let kept = recorded.filter(first);
    let initial = initial_ids(recorded, change);
    lemma_filtered(recorded, first);
    assert forall|k: Seq<u8>| #[trigger] initial.contains(k) <==> is_initial(
        recorded,
        change,
        k,
    ) by {
        if initial.contains(k) {
            let j = choose|j: int| 0 <= j < initial.len() && initial[j] == k;
            assert(kept[j].commit.id == k);
            let i = choose|i: int| 0 <= i < recorded.len() && kept[j] == recorded[i];
            assert(recorded[i].commit.id == k);
        }
        if is_initial(recorded, change, k) {
            let i = choose|i: int|
                0 <= i < recorded.len() && (#[trigger] recorded[i]).commit.id == k
                    && evolution::own_predecessors(recorded[i], change).len() == 0;
            assert(first(recorded[i]));
            let j = choose|j: int| 0 <= j < kept.len() && kept[j] == recorded[i];
            assert(initial[j] == k);
        }
    }
}

/// The nodes and edges of the graph with the root commit.
pub proof fn lemma_rooted_graph(recorded: Seq<EntryView>, change: Seq<u8>, root: Seq<u8>)
    requires
        evolution::has_distinct_ids(recorded),
    ensures
        model::is_simple(rooted_graph(recorded, change, root)),
        forall|k: Seq<u8>| #[trigger]
            model::has_node(rooted_graph(recorded, change, root), k) <==> {
                ||| evolution::is_recorded(recorded, k)
                ||| initial_ids(recorded, change).len() != 1 && k == root
            },
        forall|k: Seq<u8>, x: Seq<u8>| #[trigger]
            model::has_edge(rooted_graph(recorded, change, root), k, x) <==> {
                ||| has_own_predecessor(recorded, change, k, x)
                ||| {
                    &&& initial_ids(recorded, change).len() != 1
                    &&& x == root
                    &&& is_initial(recorded, change, k)
                }
            },
{
    let graph = predecessor_graph(recorded, change);
    let initial = initial_ids(recorded, change);
    let rooted = rooted_graph(recorded, change, root);
    lemma_predecessor_graph(recorded, change);
    lemma_initial(recorded, change);
    if initial.len() != 1 {
        let grown = model::with_node(graph, root);
        let added = initial.map_values(|id: Seq<u8>| (id, root));
        model::lemma_with_node(graph, root);
        model::lemma_with_edges(grown, added);
        assert forall|k: Seq<u8>| #[trigger] model::has_node(rooted, k) <==> {
            ||| evolution::is_recorded(recorded, k)
            ||| k == root
        } by {
            assert(model::has_node(rooted, k) <==> model::has_node(grown, k) || exists|i: int|
                0 <= i < added.len() && (#[trigger] added[i]).0 == k);
            assert(model::has_node(grown, k) <==> model::has_node(graph, k) || k == root);
            if exists|i: int| 0 <= i < added.len() && (#[trigger] added[i]).0 == k {
                let i = choose|i: int| 0 <= i < added.len() && (#[trigger] added[i]).0 == k;
                assert(initial[i] == k);
                assert(initial.contains(k));
                assert(is_initial(recorded, change, k));
            }
        }
        assert forall|k: Seq<u8>, x: Seq<u8>| #[trigger] model::has_edge(rooted, k, x) <==> {
            ||| has_own_predecessor(recorded, change, k, x)
            ||| x == root && is_initial(recorded, change, k)
        } by {
            assert(model::has_edge(rooted, k, x) <==> model::has_edge(grown, k, x)
                || added.contains((k, x)));
            assert(model::children(grown, k) == model::children(graph, k));
            assert(model::has_edge(graph, k, x) <==> has_own_predecessor(recorded, change, k, x));
            assert(initial.contains(k) <==> is_initial(recorded, change, k));
            if added.contains((k, x)) {
                let i = choose|i: int| 0 <= i < added.len() && added[i] == (k, x);
                assert(initial[i] == k);
            }
            if x == root && initial.contains(k) {
                let i = choose|i: int| 0 <= i < initial.len() && initial[i] == k;
                assert(added[i] == (k, x));
            }
        }
    }
}

/// The edges of the evolution graph lead from the predecessors of a commit, as far as they
/// belong to the change, to the commit. If there are several initial commits, or none, edges
/// lead from the root commit to each of them.
pub proof fn lemma_evolution_graph(recorded: Seq<EntryView>, change: Seq<u8>, root: Seq<u8>)
    requires
        evolution::has_distinct_ids(recorded),
    ensures
        model::is_simple(evolution_graph(recorded, change, root)),
        model::is_canonical(evolution_graph(recorded, change, root)),
        forall|x: Seq<u8>, k: Seq<u8>| #[trigger]
            model::has_edge(evolution_graph(recorded, change, root), x, k) <==> {
                ||| has_own_predecessor(recorded, change, k, x)
                ||| {
                    &&& initial_ids(recorded, change).len() != 1
                    &&& x == root
                    &&& is_initial(recorded, change, k)
                }
            },
{
    let rooted = rooted_graph(recorded, change, root);
    let whole = model::completed(rooted);
    let graph = evolution_graph(recorded, change, root);
    lemma_rooted_graph(recorded, change, root);
    model::lemma_completed(rooted);
    model::lemma_reversed(whole);
    assert forall|x: Seq<u8>, k: Seq<u8>| #[trigger]
        model::has_edge(graph, x, k) <==> model::has_edge(rooted, k, x) by {
        assert(model::has_edge(graph, x, k) <==> model::has_edge(whole, k, x));
        assert(model::children(whole, k) == model::children(rooted, k));
    }
}

/// The nodes of the evolution graph are the recorded commits and their own predecessors. If there
/// are several initial commits, or none, the root commit is a node too.
pub proof fn lemma_evolution_nodes(recorded: Seq<EntryView>, change: Seq<u8>, root: Seq<u8>)
    requires
        evolution::has_distinct_ids(recorded),
    ensures
        forall|k: Seq<u8>| #[trigger]
            model::has_node(evolution_graph(recorded, change, root), k) <==> {
                ||| evolution::is_recorded(recorded, k)
                ||| exists|y: Seq<u8>| #[trigger] has_own_predecessor(recorded, change, y, k)
                ||| initial_ids(recorded, change).len() != 1 && k == root
            },
{
    let rooted = rooted_graph(recorded, change, root);
    let whole = model::completed(rooted);
    let graph = evolution_graph(recorded, change, root);
    lemma_rooted_graph(recorded, change, root);
    model::lemma_completed(rooted);
    model::lemma_reversed(whole);
    assert forall|k: Seq<u8>| #[trigger] model::has_node(graph, k) <==> {
        ||| evolution::is_recorded(recorded, k)
        ||| exists|y: Seq<u8>| #[trigger] has_own_predecessor(recorded, change, y, k)
        ||| initial_ids(recorded, change).len() != 1 && k == root
    } by {
        assert(model::has_node(graph, k) <==> model::has_node(whole, k));
        if exists|y: Seq<u8>| #[trigger] model::has_edge(rooted, y, k) {
            let y = choose|y: Seq<u8>| #[trigger] model::has_edge(rooted, y, k);
        }
        if exists|y: Seq<u8>| #[trigger] has_own_predecessor(recorded, change, y, k) {
            let y = choose|y: Seq<u8>| #[trigger] has_own_predecessor(recorded, change, y, k);
            assert(model::has_edge(rooted, y, k));
        }
    }
}

/// The entries with that of the root commit are for different commits.
pub proof fn lemma_evolution_entries(recorded: Seq<EntryView>, change: Seq<u8>, root: EntryView)
    requires
        evolution::has_distinct_ids(recorded),
    ensures
        evolution::has_distinct_ids(evolution_entries(recorded, change, root)),
        forall|k: Seq<u8>| #[trigger]
            evolution::is_recorded(evolution_entries(recorded, change, root), k) <==> {
                ||| evolution::is_recorded(recorded, k)
                ||| initial_ids(recorded, change).len() != 1 && k == root.commit.id
            },
{
    let entries = evolution_entries(recorded, change, root);
    if initial_ids(recorded, change).len() != 1 {
        let other = |entry: EntryView| entry.commit.id != root.commit.id;
        let rest = recorded.filter(other);
        lemma_filtered(recorded, other);
        assert(entries == rest.push(root));
        assert forall|a: int, b: int|
            0 <= a < entries.len() && 0 <= b < entries.len() && a != b implies (
        #[trigger] entries[a]).commit.id != (#[trigger] entries[b]).commit.id by {
            if a < rest.len() {
                assert(rest[a] == entries[a]);
                assert(other(rest[a]));
            }
            if b < rest.len() {
                assert(rest[b] == entries[b]);
                assert(other(rest[b]));
            }
        }
        assert forall|k: Seq<u8>| #[trigger] evolution::is_recorded(entries, k) <==> {
            ||| evolution::is_recorded(recorded, k)
            ||| k == root.commit.id
        } by {
            assert(entries[rest.len() as int] == root);
            if evolution::is_recorded(entries, k) {
                let j = choose|j: int|
                    0 <= j < entries.len() && (#[trigger] entries[j]).commit.id == k;
                if j < rest.len() {
                    assert(rest[j] == entries[j]);
                    let i = choose|i: int| 0 <= i < recorded.len() && rest[j] == recorded[i];
                    assert(recorded[i].commit.id == k);
                }
            }
            if evolution::is_recorded(recorded, k) && k != root.commit.id {
                let i = choose|i: int|
                    0 <= i < recorded.len() && (#[trigger] recorded[i]).commit.id == k;
                assert(other(recorded[i]));
                let j = choose|j: int| 0 <= j < rest.len() && rest[j] == recorded[i];
                assert(entries[j].commit.id == k);
            }
        }
    }
}

/// Every commit that the start of the evolution leads to has an entry.
proof fn lemma_all_recorded(
    recorded: Seq<EntryView>,
    change: Seq<u8>,
    root: EntryView,
    node: Seq<u8>,
)
    requires
        evolution::has_distinct_ids(recorded),
        initial_ids(recorded, change).len() > 0,
        paths::reaches(
            model::edge_set(evolution_graph(recorded, change, root.commit.id)),
            evolution_start(recorded, change, root.commit.id),
            node,
        ),
    ensures
        evolution::is_recorded(evolution_entries(recorded, change, root), node),
{
    let graph = evolution_graph(recorded, change, root.commit.id);
    let start = evolution_start(recorded, change, root.commit.id);
    let initial = initial_ids(recorded, change);
    lemma_evolution_graph(recorded, change, root.commit.id);
    lemma_evolution_entries(recorded, change, root);
    lemma_initial(recorded, change);
    let path = choose|path: Seq<Seq<u8>>|
        paths::is_path_between(model::edge_set(graph), start, node, path);
    if path.len() == 1 {
        if initial.len() == 1 {
            assert(initial.contains(initial[0]));
            assert(is_initial(recorded, change, node));
        }
    } else {
        let x = path[path.len() - 2];
        assert(path[path.len() - 1] == node);
        assert(model::edge_set(graph).contains((x, node)));
        assert(model::has_edge(graph, x, node));
    }
}

/// Links each recorded commit to its own predecessors. Also lists the commits without any.
fn link(entries: &Vec<CommitEvolutionEntry>, change_id: &ChangeId) -> (linked: (
    AdjacencyMap<CommitId>,
    Vec<CommitId>,
))
    requires
        evolution::has_distinct_ids(node::shown(entries@)),
    ensures
        linked.0.wf(),
        linked.0@ == predecessor_graph(node::shown(entries@), change_id@),
        node::shown(linked.1@) == initial_ids(
            node::shown(entries@),
            change_id@,
        ),
{
    let ghost all = node::shown(entries@);
    let ghost change = change_id@;
    let ghost first = |entry: EntryView| evolution::own_predecessors(entry, change).len() == 0;
    let mut adj: AdjacencyMap<CommitId> = AdjacencyMap::new();
    let mut initial: Vec<CommitId> = Vec::new();
    let mut i: usize = 0;
    proof {
        reveal(Seq::filter);
        assert(adj@ =~= predecessor_graph(all.take(0), change));
        assert(node::shown(initial@) =~= initial_ids(all.take(0), change));
    }
    while i < entries.len()
        invariant
            i <= entries@.len(),
            all == node::shown(entries@),
            change == change_id@,
            first == (|entry: EntryView| evolution::own_predecessors(entry, change).len() == 0),
            evolution::has_distinct_ids(all),
            adj.wf(),
            adj@ == predecessor_graph(all.take(i as int), change),
            node::shown(initial@) == initial_ids(all.take(i as int), change),
        decreases entries@.len() - i,
    {
        let entry = &entries[i];
        let ghost before = all.take(i as int);
        let ghost graph = adj@;
        let ghost id = entry@.commit.id;
        let predecessors = evolution::list_own_predecessors(entry, change_id);
        let ghost own = evolution::own_predecessors(entry@, change);
        proof {
            assert(node::shown(predecessors@).len() == predecessors@.len());
            assert(all[i as int] == entry@);
            assert(all.take(i + 1).drop_last() =~= before);
            assert(all.take(i + 1).last() == entry@);
            assert(!model::has_node(graph, id)) by {
                if model::has_node(graph, id) {
                    let p = model::position(graph, id);
                    assert(graph[p].0 == before[p].commit.id);
                    assert(all[p].commit.id == all[i as int].commit.id);
                }
            }
            model::lemma_grow_entry(graph, id, own);
        }
        adj.add_node(entry.commit.id.duplicate());
        let ghost grown = adj@;
        let ghost added = model::entry_edges((id, own));
        let mut j: usize = 0;
        assert(added.take(0) =~= Seq::<(Seq<u8>, Seq<u8>)>::empty());
        while j < predecessors.len()
            invariant
                j <= predecessors@.len(),
                entry@.commit.id == id,
                own == node::shown(predecessors@),
                added == model::entry_edges((id, own)),
                adj.wf(),
                adj@ == model::with_edges(grown, added.take(j as int)),
            decreases predecessors@.len() - j,
        {
            adj.add_edge(entry.commit.id.duplicate(), predecessors[j].duplicate());
            proof {
                assert(own[j as int] == predecessors@[j as int]@);
                assert(added.take(j + 1).drop_last() =~= added.take(j as int));
                assert(added.take(j + 1).last() == added[j as int]);
            }
            j = j + 1;
        }
        let ghost initial_before = initial@;
        if predecessors.len() == 0 {
            initial.push(entry.commit.id.duplicate());
        }
        proof {
            assert(added.take(j as int) =~= added);
            assert(adj@ == graph.push((id, model::distinct(own))));
            assert(predecessor_graph(all.take(i + 1), change) =~= graph.push(
                (id, model::distinct(own)),
            ));
            reveal(Seq::filter);
            let kept = before.filter(first);
            if first(entry@) {
                assert(node::shown(initial@) =~= node::shown(
                    initial_before,
                ).push(id));
                assert(kept.push(entry@).map_values(|entry: EntryView| entry.commit.id)
                    =~= kept.map_values(|entry: EntryView| entry.commit.id).push(id));
            }
        }
        i = i + 1;
    }
    assert(all.take(i as int) =~= all);
    (adj, initial)
}

/// Makes the root commit a predecessor of all initial commits.
fn add_root(adj: &mut AdjacencyMap<CommitId>, initial: &Vec<CommitId>, root: &CommitId)
    requires
        old(adj).wf(),
    ensures
        final(adj).wf(),
        final(adj)@ == model::with_edges(
            model::with_node(old(adj)@, root@),
            node::shown(initial@).map_values(|id: Seq<u8>| (id, root@)),
        ),
{
    adj.add_node(root.duplicate());
    let ghost grown = adj@;
    let ghost shown = node::shown(initial@);
    let ghost added = shown.map_values(|id: Seq<u8>| (id, root@));
    let mut i: usize = 0;
    assert(added.take(0) =~= Seq::<(Seq<u8>, Seq<u8>)>::empty());
    while i < initial.len()
        invariant
            i <= initial@.len(),
            shown == node::shown(initial@),
            added == shown.map_values(|id: Seq<u8>| (id, root@)),
            adj.wf(),
            adj@ == model::with_edges(grown, added.take(i as int)),
        decreases initial@.len() - i,
    {
        adj.add_edge(initial[i].duplicate(), root.duplicate());
        proof {
            assert(shown[i as int] == initial@[i as int]@);
            assert(added.take(i + 1).drop_last() =~= added.take(i as int));
            assert(added.take(i + 1).last() == added[i as int]);
        }
        i = i + 1;
    }
    assert(added.take(i as int) =~= added);
}

/// The entries but for those of the given commit.
fn without(entries: Vec<CommitEvolutionEntry>, id: &CommitId) -> (rest: Vec<CommitEvolutionEntry>)
    ensures
        node::shown(rest@) == node::shown(entries@).filter(
            |entry: EntryView| entry.commit.id != id@,
        ),
{
    let ghost all = node::shown(entries@);
    let ghost other = |entry: EntryView| entry.commit.id != id@;
    let mut rest: Vec<CommitEvolutionEntry> = Vec::new();
    let mut i: usize = 0;
    proof {
        reveal(Seq::filter);
        assert(node::shown(rest@) =~= all.take(0).filter(other));
    }
    while i < entries.len()
        invariant
            i <= entries@.len(),
            all == node::shown(entries@),
            other == (|entry: EntryView| entry.commit.id != id@),
            node::shown(rest@) == all.take(i as int).filter(other),
        decreases entries@.len() - i,
    {
        let entry = &entries[i];
        let ghost rest_before = rest@;
        proof {
            reveal(Seq::filter);
            assert(all[i as int] == entry@);
            assert(all.take(i + 1).drop_last() =~= all.take(i as int));
            assert(all.take(i + 1).last() == entry@);
        }
        if !entry.commit.id.same(id) {
            rest.push(entry.duplicate());
            assert(node::shown(rest@) =~= node::shown(rest_before).push(
                entry@,
            ));
        }
        i = i + 1;
    }
    assert(all.take(i as int) =~= all);
    rest
}

/// The entries of the commits in the graph.
fn within(entries: &Vec<CommitEvolutionEntry>, graph: &SimpleDirectedGraph<CommitId>) -> (kept: Vec<
    CommitEvolutionEntry,
>)
    ensures
        node::shown(kept@) == entries_within(node::shown(entries@), graph@),
{
    let ghost all = node::shown(entries@);
    let ghost inside = |entry: EntryView| model::has_node(graph@, entry.commit.id);
    let mut kept: Vec<CommitEvolutionEntry> = Vec::new();
    let mut i: usize = 0;
    proof {
        reveal(Seq::filter);
        assert(node::shown(kept@) =~= all.take(0).filter(inside));
    }
    while i < entries.len()
        invariant
            i <= entries@.len(),
            all == node::shown(entries@),
            inside == (|entry: EntryView| model::has_node(graph@, entry.commit.id)),
            node::shown(kept@) == all.take(i as int).filter(inside),
        decreases entries@.len() - i,
    {
        let entry = &entries[i];
        let ghost kept_before = kept@;
        proof {
            reveal(Seq::filter);
            assert(all[i as int] == entry@);
            assert(all.take(i + 1).drop_last() =~= all.take(i as int));
            assert(all.take(i + 1).last() == entry@);
        }
        if graph.contains_node(&entry.commit.id) {
            kept.push(entry.duplicate());
            assert(node::shown(kept@) =~= node::shown(kept_before).push(
                entry@,
            ));
        }
        i = i + 1;
    }
    assert(all.take(i as int) =~= all);
    kept
}

/// The truncated evolution graph for a divergent change.
///
/// This is similar to the whole evolution graph, but truncated in the sense that it only contains
/// commits of the given change, and only goes as far as the closest common dominator of the
/// divergent commits. If the change started at several commits, that may be the root commit. If
/// some divergent commit did not evolve from where the change started, as far as is known, then
/// there is nothing to truncate at, and the graph is the whole one.
pub struct TruncatedEvolutionGraph {
    /// The commits in the change that are being converged.
    pub divergent_commit_ids: Vec<CommitId>,
    /// The change that they belong to.
    pub divergent_change_id: ChangeId,
    /// The evolution graph of the divergent commits, with edges from X to Y if commit X is a
    /// predecessor of commit Y and both belong to the divergent change. The graph is not
    /// necessarily a tree (commits may have multiple predecessors). The start node is the
    /// evolution fork point.
    pub flow_graph: FlowGraph<CommitId>,
    /// The evolution entries for the commits in the graph.
    pub commits: Vec<CommitEvolutionEntry>,
}

/// The commit with the given identifier.
pub open spec fn commit_of(entries: Seq<EntryView>, id: Seq<u8>) -> CommitView
    recommends
        evolution::is_recorded(entries, id),
{
    entries[choose|i: int| 0 <= i < entries.len() && (#[trigger] entries[i]).commit.id == id].commit
}

/// The divergent commits evolved from the start of the evolution, as far as it was walked.
pub open spec fn all_evolved(
    recorded: Seq<EntryView>,
    change: Seq<u8>,
    divergent: Seq<Seq<u8>>,
    root: Seq<u8>,
) -> bool {
    forall|i: int|
        0 <= i < divergent.len() ==> paths::reaches(
            model::edge_set(evolution_graph(recorded, change, root)),
            evolution_start(recorded, change, root),
            #[trigger] divergent[i],
        )
}

/// What a walk over the evolution of the divergent commits records.
pub open spec fn recorded_from(divergent: Seq<CommitView>, evolution: Seq<EntryView>) -> Seq<
    EntryView,
> {
    evolution::walked(
        evolution::at_start(divergent),
        divergent[0].change_id,
        evolution,
    ).recorded
}

/// Why there is no evolution graph for the divergent commits, if so.
pub open spec fn evolution_error(
    divergent: Seq<CommitView>,
    evolution: Seq<EntryView>,
) -> Option<Seq<char>> {
    if divergent.len() == 0 {
        Some("divergent_commits must not be empty"@)
    } else if !evolution::all_belong_to(divergent, divergent[0].change_id) {
        Some("all divergent commits must have the same change-id"@)
    } else if initial_ids(
        recorded_from(divergent, evolution),
        divergent[0].change_id,
    ).len() == 0 {
        Some("Unexpected error: initial_nodes should not be empty"@)
    } else {
        None
    }
}

impl TruncatedEvolutionGraph {
    /// The identifiers of the divergent commits.
    pub open spec fn divergent(&self) -> Seq<Seq<u8>> {
        node::shown(self.divergent_commit_ids@)
    }

    /// The entries.
    pub open spec fn entries(&self) -> Seq<EntryView> {
        node::shown(self.commits@)
    }

    /// There are divergent commits. Each entry is for a node, no two for the same one, and the
    /// start node has one.
    pub open spec fn wf(&self) -> bool {
        let graph = self.flow_graph.graph@;
        &&& self.divergent().len() > 0
        &&& model::is_simple(graph)
        &&& model::is_canonical(graph)
        &&& evolution::has_distinct_ids(self.entries())
        &&& evolution::is_recorded(self.entries(), self.flow_graph.start_node@)
        &&& forall|k: Seq<u8>| #[trigger]
            evolution::is_recorded(self.entries(), k) ==> model::has_node(graph, k)
    }

    /// The graph is truncated at the fork point: all divergent commits are in the graph, and the
    /// start node is their closest common dominator and leads to every node. Each node has an
    /// entry.
    pub open spec fn has_fork_point(&self) -> bool {
        let graph = self.flow_graph.graph@;
        let start = self.flow_graph.start_node@;
        &&& self.wf()
        &&& forall|i: int|
            0 <= i < self.divergent().len() ==> model::has_node(
                graph,
                #[trigger] self.divergent()[i],
            )
        &&& dominators::is_valid_flow_graph(graph, start)
        &&& paths::is_closest_common_dominator(
            model::edge_set(graph),
            start,
            start,
            self.divergent(),
        )
        &&& forall|k: Seq<u8>| #[trigger]
            model::has_node(graph, k) ==> evolution::is_recorded(self.entries(), k)
    }

    /// The graph shows the evolution that was walked. If all divergent commits evolved from its
    /// start, it is the part which their closest common dominator leads to. Otherwise it is the
    /// whole evolution.
    pub open spec fn shows(
        &self,
        recorded: Seq<EntryView>,
        change: Seq<u8>,
        divergent: Seq<Seq<u8>>,
        root: EntryView,
    ) -> bool {
        let graph = evolution_graph(recorded, change, root.commit.id);
        let start = evolution_start(recorded, change, root.commit.id);
        let entries = evolution_entries(recorded, change, root);
        &&& self.divergent() == divergent
        &&& self.divergent_change_id@ == change
        &&& if all_evolved(recorded, change, divergent, root.commit.id) {
            &&& paths::is_closest_common_dominator(
                model::edge_set(graph),
                start,
                self.flow_graph.start_node@,
                divergent,
            )
            &&& self.flow_graph.graph@ == reach::part_from(graph, self.flow_graph.start_node@)
            &&& self.entries() == entries_within(entries, self.flow_graph.graph@)
        } else {
            &&& self.flow_graph.start_node@ == start
            &&& self.flow_graph.graph@ == graph
            &&& self.entries() == entries
        }
    }

    /// Builds the truncated evolution graph of what was walked. `root` is the entry of the root
    /// commit of the repository.
    pub fn from_walk(walk: EvolutionWalk, root: CommitEvolutionEntry) -> (graph: Result<
        Self,
        ConvergeError,
    >)
        requires
            walk.wf(),
        ensures
            initial_ids(walk@.recorded, walk.change()).len() == 0 ==> error::is_other(
                graph,
                "Unexpected error: initial_nodes should not be empty"@,
            ),
            initial_ids(walk@.recorded, walk.change()).len() > 0 ==> {
                &&& graph is Ok
                &&& graph->Ok_0.wf()
                &&& graph->Ok_0.shows(walk@.recorded, walk.change(), walk.divergent(), root@)
                &&& all_evolved(
                    walk@.recorded,
                    walk.change(),
                    walk.divergent(),
                    root@.commit.id,
                ) ==> graph->Ok_0.has_fork_point()
            },
    {
        let ghost recorded = walk@.recorded;
        let ghost change = walk.change();
        let ghost divergent = walk.divergent();
        let ghost root_id = root@.commit.id;
        let ghost whole = evolution_graph(recorded, change, root_id);
        let ghost start = evolution_start(recorded, change, root_id);
        let ghost shown_root = root@;
        let (divergent_commit_ids, divergent_change_id, entries) = walk.into_parts();
        let (mut adj, initial_nodes) = link(&entries, &divergent_change_id);
        let ghost initial = initial_ids(recorded, change);
        assert(initial.len() == initial_nodes@.len());
        if let Err(err) = error::validate(
            initial_nodes.len() > 0,
            "Unexpected error: initial_nodes should not be empty",
        ) {
            return Err(err);
        }

        // To compute the evolution fork point there must be a single initial node. In graphs
        // with several ones the root commit stands in as their common predecessor.
        let mut entries = entries;
        let initial_node = if initial_nodes.len() == 1 {
            assert(initial[0] == initial_nodes@[0]@);
            initial_nodes[0].duplicate()
        } else {
            let root_commit_id = root.commit.id.duplicate();
            add_root(&mut adj, &initial_nodes, &root_commit_id);
            entries = without(entries, &root_commit_id);
            let ghost others = entries@;
            entries.push(root);
            assert(node::shown(entries@) =~= node::shown(others).push(
                shown_root,
            ));
            root_commit_id
        };
        let flow_graph = FlowGraph::new(SimpleDirectedGraph::new(adj).reverse(), initial_node);
        proof {
            assert(flow_graph.graph@ == whole);
            assert(flow_graph.start_node@ == start);
            assert(node::shown(entries@) == evolution_entries(
                recorded,
                change,
                shown_root,
            ));
            lemma_whole(recorded, change, shown_root);
        }

        // The evolution fork point is the closest common dominator of the divergent commits.
        let fork_point = match find_fork_point(&flow_graph, &divergent_commit_ids) {
            Some(fork_point) => fork_point,
            None => {
                return Ok(
                    TruncatedEvolutionGraph {
                        divergent_commit_ids,
                        divergent_change_id,
                        flow_graph,
                        commits: entries,
                    },
                );
            },
        };

        // Truncate the graph.
        let graph = flow_graph.graph.reachable_from(&fork_point);
        let commits = within(&entries, &graph);
        proof {
            let fork = fork_point@;
            let part = reach::part_from(whole, fork);
            let edges = model::edge_set(whole);
            let inside = |entry: EntryView| model::has_node(graph@, entry.commit.id);
            let all = evolution_entries(recorded, change, shown_root);
            let kept = all.filter(inside);
            assert(paths::reaches(edges, start, divergent[0]));
            reach::lemma_part_from(whole, fork);
            paths::lemma_closest_in_its_part(
                edges,
                model::edge_set(part),
                start,
                fork,
                divergent,
            );
            assert(paths::dominates(edges, start, fork, divergent[0]));
            paths::lemma_dominator_reached(edges, start, fork, divergent[0]);
            lemma_reached_is_node(whole, start, fork);
            assert forall|i: int| 0 <= i < divergent.len() implies model::has_node(
                part,
                #[trigger] divergent[i],
            ) by {
                let path = choose|path: Seq<Seq<u8>>|
                    paths::is_path_between(model::edge_set(part), fork, divergent[i], path);
                paths::lemma_path_in_part(
                    edges,
                    fork,
                    model::edge_set(part),
                    divergent[i],
                    path,
                );
                assert(paths::reaches(edges, start, divergent[i]));
                lemma_reached_is_node(whole, start, divergent[i]);
            }
            lemma_evolution_entries(recorded, change, shown_root);
            lemma_filtered(all, inside);
            assert forall|k: Seq<u8>| #[trigger] model::has_node(part, k)
                <==> evolution::is_recorded(kept, k) by {
                if model::has_node(part, k) {
                    let to_fork = choose|path: Seq<Seq<u8>>|
                        paths::is_path_between(edges, start, fork, path);
                    let onwards = choose|path: Seq<Seq<u8>>|
                        paths::is_path_between(edges, fork, k, path);
                    paths::lemma_join_paths(edges, start, fork, k, to_fork, onwards);
                    lemma_all_recorded(recorded, change, shown_root, k);
                    let i = choose|i: int|
                        0 <= i < all.len() && (#[trigger] all[i]).commit.id == k;
                    assert(inside(all[i]));
                    let j = choose|j: int| 0 <= j < kept.len() && kept[j] == all[i];
                    assert(kept[j].commit.id == k);
                }
                if evolution::is_recorded(kept, k) {
                    let j = choose|j: int|
                        0 <= j < kept.len() && (#[trigger] kept[j]).commit.id == k;
                    assert(inside(kept[j]));
                }
            }
        }
        Ok(
            TruncatedEvolutionGraph {
                divergent_commit_ids,
                divergent_change_id,
                flow_graph: FlowGraph::new(graph, fork_point),
                commits,
            },
        )
    }

    /// Builds a truncated evolution graph for the given divergent commits, which are expected to
    /// all have the same change-id. `evolution` lists the entries of the divergent commits and of
    /// the commits that they evolved from, and `root` is the entry of the root commit of the
    /// repository.
    pub fn new(
        divergent_commits: &[Commit],
        evolution: Vec<CommitEvolutionEntry>,
        root: CommitEvolutionEntry,
    ) -> (graph: Result<Self, ConvergeError>)
        ensures
            ({
                let divergent = node::shown(divergent_commits@);
                let entries = node::shown(evolution@);
                let recorded = recorded_from(divergent, entries);
                let change = divergent[0].change_id;
                let ids = evolution::ids_of(divergent);
                match evolution_error(divergent, entries) {
                    Some(message) => error::is_other(graph, message),
                    None => {
                        &&& graph is Ok
                        &&& graph->Ok_0.wf()
                        &&& graph->Ok_0.shows(recorded, change, ids, root@)
                        &&& all_evolved(recorded, change, ids, root@.commit.id)
                            ==> graph->Ok_0.has_fork_point()
                    },
                }
            }),
    {
        let ghost divergent = node::shown(divergent_commits@);
        let ghost change = divergent[0].change_id;
        let ghost all = node::shown(evolution@);
        let ghost outcome = evolution::walked(evolution::at_start(divergent), change, all);
        let mut walk = match EvolutionWalk::start(divergent_commits) {
            Ok(walk) => walk,
            Err(err) => {
                return Err(err);
            },
        };
        let mut done = false;
        let mut i: usize = 0;
        assert(all.skip(0) =~= all);
        while !done && i < evolution.len()
            invariant
                i <= evolution@.len(),
                all == node::shown(evolution@),
                walk.wf(),
                walk.change() == change,
                walk.divergent() == evolution::ids_of(divergent),
                done ==> outcome == walk@,
                !done ==> outcome == evolution::walked(walk@, change, all.skip(i as int)),
            decreases evolution@.len() - i,
        {
            done = walk.visit(evolution[i].duplicate());
            proof {
                assert(all.skip(i as int)[0] == evolution@[i as int]@);
                assert(all.skip(i as int).skip(1) =~= all.skip(i + 1));
            }
            i = i + 1;
        }
        Self::from_walk(walk, root)
    }

    /// Returns the change-id of the commits in the graph.
    pub fn change_id(&self) -> (change_id: &ChangeId)
        ensures
            change_id@ == self.divergent_change_id@,
    {
        &self.divergent_change_id
    }

    /// Returns the commit for the given commit id.
    pub fn get_commit(&self, commit_id: &CommitId) -> (commit: Result<&Commit, ConvergeError>)
        requires
            self.wf(),
        ensures
            commit is Ok <==> evolution::is_recorded(self.entries(), commit_id@),
            match commit {
                Ok(commit) => commit@ == commit_of(self.entries(), commit_id@) && commit@.id
                    == commit_id@,
                Err(_) => error::is_other(
                    commit,
                    "Unexpected commit id: "@ + ids::hex_digits(commit_id@),
                ),
            },
    {
        match evolution::find_entry(&self.commits, commit_id) {
            Some(place) => {
                assert(self.entries()[place as int] == self.commits@[place as int]@);
                Ok(&self.commits[place].commit)
            },
            None => {
                let mut message = "Unexpected commit id: ".to_owned();
                message.append(commit_id.hex().as_str());
                Err(ConvergeError::Other(message))
            },
        }
    }

    /// Returns the evolution fork point of the graph, which is the closest common dominator of
    /// the divergent commits. In other words, this is the commit from which all the commits in
    /// the graph evolved, and that is closest to those commits. If the divergent commits have no
    /// fork point, this is the commit at which the change started.
    pub fn get_evolution_fork_point(&self) -> (commit: &Commit)
        requires
            self.wf(),
        ensures
            commit@ == commit_of(self.entries(), self.flow_graph.start_node@),
            commit@.id == self.flow_graph.start_node@,
    {
        let place = evolution::find_entry(&self.commits, &self.flow_graph.start_node);
        assert(place is Some);
        assert(self.entries()[place->0 as int] == self.commits@[place->0 as int]@);
        &self.commits[place.unwrap()].commit
    }
}

/// An evolution graph holds only commits of the change, besides the root commit, and has all
/// edges of the evolution from its nodes.
pub proof fn lemma_shown(
    graph: &TruncatedEvolutionGraph,
    recorded: Seq<EntryView>,
    change: Seq<u8>,
    divergent: Seq<Seq<u8>>,
    root: EntryView,
)
    requires
        graph.shows(recorded, change, divergent, root),
        evolution::has_distinct_ids(recorded),
        forall|i: int|
            0 <= i < recorded.len() ==> (#[trigger] recorded[i]).commit.change_id == change,
    ensures
        forall|i: int|
            0 <= i < graph.entries().len() ==> (#[trigger] graph.entries()[i]).commit.change_id
                == change || graph.entries()[i] == root,
        forall|x: Seq<u8>, k: Seq<u8>| #[trigger]
            model::has_edge(graph.flow_graph.graph@, x, k) <==> {
                &&& model::has_node(graph.flow_graph.graph@, x)
                &&& {
                    ||| has_own_predecessor(recorded, change, k, x)
                    ||| {
                        &&& initial_ids(recorded, change).len() != 1
                        &&& x == root.commit.id
                        &&& is_initial(recorded, change, k)
                    }
                }
            },
{
    let whole = evolution_graph(recorded, change, root.commit.id);
    let part = graph.flow_graph.graph@;
    let all = evolution_entries(recorded, change, root);
    let inside = |entry: EntryView| model::has_node(part, entry.commit.id);
    let truncated = all_evolved(recorded, change, divergent, root.commit.id);
    lemma_evolution_graph(recorded, change, root.commit.id);
    lemma_evolution_entries(recorded, change, root);
    lemma_filtered(all, inside);
    reach::lemma_part_from(whole, graph.flow_graph.start_node@);
    let kept = graph.entries();
    assert(truncated ==> kept == all.filter(inside));
    assert forall|i: int| 0 <= i < kept.len() implies (#[trigger] kept[i]).commit.change_id
        == change || kept[i] == root by {
        assert(all.contains(kept[i]));
        let j = choose|j: int| 0 <= j < all.len() && all[j] == kept[i];
        if initial_ids(recorded, change).len() != 1 {
            let other = |entry: EntryView| entry.commit.id != root.commit.id;
            let rest = recorded.filter(other);
            lemma_filtered(recorded, other);
            if j < rest.len() {
                assert(all[j] == rest[j]);
                let l = choose|l: int| 0 <= l < recorded.len() && recorded[l] == rest[j];
                assert(recorded[l].commit.change_id == change);
            }
        } else {
            assert(recorded[j].commit.change_id == change);
        }
    }
    assert forall|x: Seq<u8>, k: Seq<u8>| #[trigger] model::has_edge(part, x, k)
        <==> model::has_node(part, x) && model::has_edge(whole, x, k) by {
        if truncated && model::has_node(part, x) {
            assert(model::children(part, x) == model::children(whole, x));
        }
    }
}

/// There is only one graph for an evolution.
pub proof fn lemma_shown_unique(
    a: &TruncatedEvolutionGraph,
    b: &TruncatedEvolutionGraph,
    recorded: Seq<EntryView>,
    change: Seq<u8>,
    divergent: Seq<Seq<u8>>,
    root: EntryView,
)
    requires
        divergent.len() > 0,
        a.shows(recorded, change, divergent, root),
        b.shows(recorded, change, divergent, root),
    ensures
        a.flow_graph.start_node@ == b.flow_graph.start_node@,
        a.flow_graph.graph@ == b.flow_graph.graph@,
        a.entries() == b.entries(),
{
    let graph = evolution_graph(recorded, change, root.commit.id);
    let start = evolution_start(recorded, change, root.commit.id);
    if all_evolved(recorded, change, divergent, root.commit.id) {
        assert(paths::reaches(model::edge_set(graph), start, divergent[0]));
        paths::lemma_closest_common_dominator_unique(
            model::edge_set(graph),
            start,
            a.flow_graph.start_node@,
            b.flow_graph.start_node@,
            divergent,
        );
    }
}

/// The whole evolution graph has a node for each entry. The start node has an entry.
proof fn lemma_whole(recorded: Seq<EntryView>, change: Seq<u8>, root: EntryView)
    requires
        evolution::has_distinct_ids(recorded),
        initial_ids(recorded, change).len() > 0,
    ensures
        model::is_simple(evolution_graph(recorded, change, root.commit.id)),
        model::is_canonical(evolution_graph(recorded, change, root.commit.id)),
        evolution::has_distinct_ids(evolution_entries(recorded, change, root)),
        evolution::is_recorded(
            evolution_entries(recorded, change, root),
            evolution_start(recorded, change, root.commit.id),
        ),
        forall|k: Seq<u8>| #[trigger]
            evolution::is_recorded(evolution_entries(recorded, change, root), k)
                ==> model::has_node(evolution_graph(recorded, change, root.commit.id), k),
{
    let graph = evolution_graph(recorded, change, root.commit.id);
    let start = evolution_start(recorded, change, root.commit.id);
    lemma_evolution_graph(recorded, change, root.commit.id);
    lemma_evolution_nodes(recorded, change, root.commit.id);
    lemma_evolution_entries(recorded, change, root);
    paths::lemma_trivial_path(model::edge_set(graph), start);
    lemma_all_recorded(recorded, change, root, start);
}

/// Finds the closest common dominator of the given commits, if the start node leads to all of
/// them.
fn find_fork_point(flow_graph: &FlowGraph<CommitId>, commit_ids: &Vec<CommitId>) -> (fork_point:
    Option<CommitId>)
    requires
        commit_ids@.len() > 0,
        model::has_node(flow_graph.graph@, flow_graph.start_node@),
    ensures
        fork_point is Some <==> forall|i: int|
            0 <= i < node::shown(commit_ids@).len() ==> paths::reaches(
                model::edge_set(flow_graph.graph@),
                flow_graph.start_node@,
                #[trigger] node::shown(commit_ids@)[i],
            ),
        fork_point matches Some(dom) ==> paths::is_closest_common_dominator(
            model::edge_set(flow_graph.graph@),
            flow_graph.start_node@,
            dom@,
            node::shown(commit_ids@),
        ),
{
    let ghost whole = flow_graph.graph@;
    let ghost start = flow_graph.start_node@;
    let ghost edges = model::edge_set(whole);
    let ghost shown = node::shown(commit_ids@);
    proof {
        use_type_invariant(&flow_graph.graph);
        flow_graph.graph.lemma_canonical_form();
        reach::lemma_part_from(whole, start);
    }
    // Dominators are those of the part of the graph that the start node leads to.
    let part = FlowGraph::new(
        flow_graph.graph.reachable_from(&flow_graph.start_node),
        flow_graph.start_node.duplicate(),
    );
    let finder = DominatorFinder::calculate(&part);
    assert(finder is Ok);
    let targets = copy_ids(commit_ids);
    proof {
        assert(targets@.len() == node::shown(targets@).len());
        assert(commit_ids@.len() == shown.len());
        assert forall|i: int| 0 <= i < shown.len() implies (model::has_node(
            part.graph@,
            #[trigger] shown[i],
        ) <==> paths::reaches(edges, start, shown[i])) && shown[i] == targets@[i]@ by {
            assert(node::shown(targets@)[i] == targets@[i]@);
            if paths::reaches(edges, start, shown[i]) {
                lemma_reached_is_node(whole, start, shown[i]);
            }
        }
    }
    match finder.unwrap().find_closest_common_dominator(targets) {
        Ok(fork_point) => {
            proof {
                assert forall|i: int| 0 <= i < shown.len() implies paths::reaches(
                    edges,
                    start,
                    #[trigger] shown[i],
                ) by {
                    assert(model::has_node(part.graph@, targets@[i]@));
                }
                paths::lemma_closest_in_entry_part(
                    edges,
                    start,
                    model::edge_set(part.graph@),
                    fork_point@,
                    shown,
                );
            }
            Some(fork_point)
        },
        Err(_) => {
            proof {
                let i = choose|i: int|
                    0 <= i < targets@.len() && !model::has_node(
                        part.graph@,
                        #[trigger] targets@[i]@,
                    );
                assert(!paths::reaches(edges, start, shown[i]));
            }
            None
        },
    }
}

/// Copies a list of identifiers.
pub(crate) fn copy_ids(ids: &Vec<CommitId>) -> (copy: Vec<CommitId>)
    ensures
        node::shown(copy@) == node::shown(ids@),
{
    let mut copy: Vec<CommitId> = Vec::new();
    let mut i: usize = 0;
    while i < ids.len()
        invariant
            i <= ids@.len(),
            copy@.len() == i,
            forall|j: int| 0 <= j < i ==> (#[trigger] copy@[j])@ == ids@[j]@,
        decreases ids@.len() - i,
    {
        copy.push(ids[i].duplicate());
        i = i + 1;
    }
    assert(node::shown(copy@) =~= node::shown(ids@));
    copy
}

/// What the start node of a valid flow graph leads to are nodes.
proof fn lemma_reached_is_node(graph: Seq<(Seq<u8>, Seq<Seq<u8>>)>, start: Seq<u8>, node: Seq<u8>)
    requires
        model::is_canonical(graph),
        model::has_node(graph, start),
        paths::reaches(model::edge_set(graph), start, node),
    ensures
        model::has_node(graph, node),
{
    let path = choose|path: Seq<Seq<u8>>|
        paths::is_path_between(model::edge_set(graph), start, node, path);
    dominators::lemma_reached_is_node(graph, start, path);
}

} // verus!
