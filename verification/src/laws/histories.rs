//! What the graph of an evolution shows.
use vstd::prelude::*;

use crate::commit::CommitView;
use crate::commit::EntryView;
use crate::evolution;
use crate::laws::evolution as walks;
use crate::laws::orders;
use crate::model;
use crate::paths;
use crate::reach;
use crate::truncated;
use crate::truncated::TruncatedEvolutionGraph;

verus! {

/// `parent` belongs to the change and is listed among the predecessors in the entry of `child`.
pub open spec fn is_listed_step(
    recorded: Seq<EntryView>,
    change: Seq<u8>,
    parent: Seq<u8>,
    child: Seq<u8>,
) -> bool {
    exists|i: int, j: int|
        0 <= i < recorded.len() && 0 <= j < recorded[i].predecessors.len()
            && recorded[i].commit.id == child && (
        #[trigger] recorded[i].predecessors[j]).change_id == change
            && recorded[i].predecessors[j].id == parent
}

/// The entry lists no predecessor that belongs to the change.
pub open spec fn begins_at(recorded: Seq<EntryView>, change: Seq<u8>, i: int) -> bool {
    &&& 0 <= i < recorded.len()
    &&& forall|j: int|
        0 <= j < recorded[i].predecessors.len() ==> (
        #[trigger] recorded[i].predecessors[j]).change_id != change
}

/// Just one entry lists no predecessor that belongs to the change.
pub open spec fn has_single_beginning(recorded: Seq<EntryView>, change: Seq<u8>) -> bool {
    exists|i: int| #[trigger]
        begins_at(recorded, change, i) && forall|j: int| #[trigger]
            begins_at(recorded, change, j) ==> j == i
}

/// The steps of an evolution: from the listed predecessors to each commit, and from the root to
/// all beginnings unless there is just one.
pub open spec fn steps(recorded: Seq<EntryView>, change: Seq<u8>, root: Seq<u8>) -> Set<
    (Seq<u8>, Seq<u8>),
> {
    Set::new(
        |step: (Seq<u8>, Seq<u8>)|
            {
                ||| is_listed_step(recorded, change, step.0, step.1)
                ||| {
                    &&& !has_single_beginning(recorded, change)
                    &&& step.0 == root
                    &&& exists|i: int| #[trigger]
                        begins_at(recorded, change, i) && recorded[i].commit.id == step.1
                }
            },
    )
}

/// `start` is the one beginning, or the root if there are several or none.
pub open spec fn is_beginning(
    recorded: Seq<EntryView>,
    change: Seq<u8>,
    root: Seq<u8>,
    start: Seq<u8>,
) -> bool {
    if has_single_beginning(recorded, change) {
        exists|i: int| #[trigger]
            begins_at(recorded, change, i) && recorded[i].commit.id == start
    } else {
        start == root
    }
}

/// Steps and beginnings are what the own predecessors say.
proof fn lemma_steps_by_own_predecessors(recorded: Seq<EntryView>, change: Seq<u8>)
    ensures
        forall|x: Seq<u8>, k: Seq<u8>| #[trigger]
            is_listed_step(recorded, change, x, k) <==> truncated::has_own_predecessor(
                recorded,
                change,
                k,
                x,
            ),
        forall|k: Seq<u8>| #[trigger]
            truncated::is_initial(recorded, change, k) <==> exists|i: int| #[trigger]
                begins_at(recorded, change, i) && recorded[i].commit.id == k,
        forall|i: int|
            0 <= i < recorded.len() ==> (#[trigger] begins_at(recorded, change, i)
                <==> evolution::own_predecessors(recorded[i], change).len() == 0),
{
    assert forall|i: int| 0 <= i < recorded.len() implies (#[trigger] begins_at(
        recorded,
        change,
        i,
    ) <==> evolution::own_predecessors(recorded[i], change).len() == 0) by {
        walks::lemma_own_predecessors(recorded[i], change);
    }
    assert forall|x: Seq<u8>, k: Seq<u8>| #[trigger]
        is_listed_step(recorded, change, x, k) <==> truncated::has_own_predecessor(
            recorded,
            change,
            k,
            x,
        ) by {
        if is_listed_step(recorded, change, x, k) {
            let (i, j) = choose|i: int, j: int|
                0 <= i < recorded.len() && 0 <= j < recorded[i].predecessors.len()
                    && recorded[i].commit.id == k && (
                #[trigger] recorded[i].predecessors[j]).change_id == change
                    && recorded[i].predecessors[j].id == x;
            walks::lemma_own_predecessors(recorded[i], change);
            assert(evolution::own_predecessors(recorded[i], change).contains(x));
        }
        if truncated::has_own_predecessor(recorded, change, k, x) {
            let i = choose|i: int|
                0 <= i < recorded.len() && (#[trigger] recorded[i]).commit.id == k
                    && evolution::own_predecessors(recorded[i], change).contains(x);
            walks::lemma_own_predecessors(recorded[i], change);
            let j = choose|j: int|
                0 <= j < recorded[i].predecessors.len() && (
                #[trigger] recorded[i].predecessors[j]).change_id == change
                    && recorded[i].predecessors[j].id == x;
            assert(recorded[i].predecessors[j].id == x);
        }
    }
    assert forall|k: Seq<u8>| #[trigger]
        truncated::is_initial(recorded, change, k) <==> exists|i: int| #[trigger]
            begins_at(recorded, change, i) && recorded[i].commit.id == k by {
        if truncated::is_initial(recorded, change, k) {
            let i = choose|i: int|
                0 <= i < recorded.len() && (#[trigger] recorded[i]).commit.id == k
                    && evolution::own_predecessors(recorded[i], change).len() == 0;
            assert(begins_at(recorded, change, i));
        }
        if exists|i: int| #[trigger]
            begins_at(recorded, change, i) && recorded[i].commit.id == k {
            let i = choose|i: int| #[trigger]
                begins_at(recorded, change, i) && recorded[i].commit.id == k;
            assert(recorded[i].commit.id == k);
        }
    }
}

/// There is one initial commit just if there is one beginning.
proof fn lemma_single_beginning(recorded: Seq<EntryView>, change: Seq<u8>)
    requires
        evolution::has_distinct_ids(recorded),
    ensures
        truncated::initial_ids(recorded, change).len() == 1 <==> has_single_beginning(
            recorded,
            change,
        ),
        truncated::initial_ids(recorded, change).len() == 0 <==> forall|i: int|
            !(#[trigger] begins_at(recorded, change, i)),
{
    let first = |entry: EntryView| evolution::own_predecessors(entry, change).len() == 0;
    let kept = recorded.filter(first);
    let initial = truncated::initial_ids(recorded, change);
    truncated::lemma_filtered(recorded, first);
    truncated::lemma_initial(recorded, change);
    lemma_steps_by_own_predecessors(recorded, change);
    assert(initial.len() == kept.len());
    assert forall|a: int| 0 <= a < kept.len() implies exists|i: int|
        begins_at(recorded, change, i) && recorded[i] == #[trigger] kept[a] by {
        assert(recorded.contains(kept[a]));
        let i = choose|i: int| 0 <= i < recorded.len() && recorded[i] == kept[a];
        assert(begins_at(recorded, change, i));
    }
    assert forall|i: int| #[trigger] begins_at(recorded, change, i) implies kept.contains(
        recorded[i],
    ) by {
        assert(first(recorded[i]));
    }
    if initial.len() == 1 {
        let i = choose|i: int| begins_at(recorded, change, i) && recorded[i] == kept[0];
        assert(begins_at(recorded, change, i));
        assert forall|j: int| #[trigger] begins_at(recorded, change, j) implies j == i by {
            let b = choose|b: int| 0 <= b < kept.len() && kept[b] == recorded[j];
            assert(recorded[j].commit.id == recorded[i].commit.id);
        }
    }
    if has_single_beginning(recorded, change) {
        let i = choose|i: int| #[trigger]
            begins_at(recorded, change, i) && forall|j: int| #[trigger]
                begins_at(recorded, change, j) ==> j == i;
        assert(kept.contains(recorded[i]));
        if kept.len() > 1 {
            let x = choose|x: int| begins_at(recorded, change, x) && recorded[x] == kept[0];
            let y = choose|y: int| begins_at(recorded, change, y) && recorded[y] == kept[1];
            assert(begins_at(recorded, change, x) && begins_at(recorded, change, y));
            assert(kept[0].commit.id != kept[1].commit.id);
        }
    }
    if initial.len() == 0 {
        assert forall|i: int| !(#[trigger] begins_at(recorded, change, i)) by {
            if begins_at(recorded, change, i) {
                assert(kept.contains(recorded[i]));
            }
        }
    } else {
        let i = choose|i: int| begins_at(recorded, change, i) && recorded[i] == kept[0];
        assert(begins_at(recorded, change, i));
    }
}

/// The edges of an evolution graph are the steps of the evolution: all predecessors that an entry
/// lists count if they belong to the change.
pub proof fn lemma_edges_are_steps(recorded: Seq<EntryView>, change: Seq<u8>, root: Seq<u8>)
    requires
        evolution::has_distinct_ids(recorded),
    ensures
        model::edge_set(truncated::evolution_graph(recorded, change, root)) == steps(
            recorded,
            change,
            root,
        ),
        forall|x: Seq<u8>, k: Seq<u8>| #[trigger]
            model::has_edge(truncated::evolution_graph(recorded, change, root), x, k) <==> steps(
                recorded,
                change,
                root,
            ).contains((x, k)),
        is_beginning(
            recorded,
            change,
            root,
            truncated::evolution_start(recorded, change, root),
        ),
{
    let graph = truncated::evolution_graph(recorded, change, root);
    let initial = truncated::initial_ids(recorded, change);
    truncated::lemma_evolution_graph(recorded, change, root);
    truncated::lemma_initial(recorded, change);
    lemma_steps_by_own_predecessors(recorded, change);
    lemma_single_beginning(recorded, change);
    assert forall|x: Seq<u8>, k: Seq<u8>| #[trigger]
        model::has_edge(graph, x, k) <==> steps(recorded, change, root).contains((x, k)) by {
        assert(is_listed_step(recorded, change, x, k) <==> truncated::has_own_predecessor(
            recorded,
            change,
            k,
            x,
        ));
        assert(truncated::is_initial(recorded, change, k) <==> exists|i: int| #[trigger]
            begins_at(recorded, change, i) && recorded[i].commit.id == k);
    }
    assert(model::edge_set(graph) =~= steps(recorded, change, root));
    if has_single_beginning(recorded, change) {
        assert(initial.contains(initial[0]));
        assert(truncated::is_initial(recorded, change, initial[0]));
    }
}

/// The evolution graph starts at the beginning.
pub proof fn lemma_beginning(
    recorded: Seq<EntryView>,
    change: Seq<u8>,
    root: Seq<u8>,
    begin: Seq<u8>,
)
    requires
        evolution::has_distinct_ids(recorded),
    ensures
        is_beginning(recorded, change, root, begin) <==> begin == truncated::evolution_start(
            recorded,
            change,
            root,
        ),
{
    lemma_edges_are_steps(recorded, change, root);
    if is_beginning(recorded, change, root, begin) && has_single_beginning(recorded, change) {
        let i = choose|i: int| #[trigger]
            begins_at(recorded, change, i) && recorded[i].commit.id == begin;
        let j = choose|j: int| #[trigger]
            begins_at(recorded, change, j) && recorded[j].commit.id == truncated::evolution_start(
                recorded,
                change,
                root,
            );
        let s = choose|s: int| #[trigger]
            begins_at(recorded, change, s) && forall|j: int| #[trigger]
                begins_at(recorded, change, j) ==> j == s;
        assert(i == s && j == s);
    }
}

/// The nodes of an evolution graph are the commits with an entry, the predecessors that these
/// list, and the root unless there is just one beginning.
pub proof fn lemma_nodes_of_evolution(recorded: Seq<EntryView>, change: Seq<u8>, root: Seq<u8>)
    requires
        evolution::has_distinct_ids(recorded),
    ensures
        forall|k: Seq<u8>| #[trigger]
            model::has_node(truncated::evolution_graph(recorded, change, root), k) <==> {
                ||| walks::has_entry_for(recorded, k)
                ||| exists|y: Seq<u8>| #[trigger] is_listed_step(recorded, change, k, y)
                ||| !has_single_beginning(recorded, change) && k == root
            },
{
    let graph = truncated::evolution_graph(recorded, change, root);
    truncated::lemma_evolution_nodes(recorded, change, root);
    lemma_steps_by_own_predecessors(recorded, change);
    lemma_single_beginning(recorded, change);
    assert forall|k: Seq<u8>| #[trigger] model::has_node(graph, k) <==> {
        ||| walks::has_entry_for(recorded, k)
        ||| exists|y: Seq<u8>| #[trigger] is_listed_step(recorded, change, k, y)
        ||| !has_single_beginning(recorded, change) && k == root
    } by {
        assert(walks::has_entry_for(recorded, k) <==> evolution::is_recorded(recorded, k));
        if exists|y: Seq<u8>| #[trigger] truncated::has_own_predecessor(recorded, change, y, k) {
            let y = choose|y: Seq<u8>| #[trigger]
                truncated::has_own_predecessor(recorded, change, y, k);
            assert(is_listed_step(recorded, change, k, y));
        }
        if exists|y: Seq<u8>| #[trigger] is_listed_step(recorded, change, k, y) {
            let y = choose|y: Seq<u8>| #[trigger] is_listed_step(recorded, change, k, y);
            assert(truncated::has_own_predecessor(recorded, change, y, k));
        }
    }
}

/// The entries of an evolution are the recorded ones. Unless there is just one beginning, that of
/// the root takes the place of any other one for the root.
pub proof fn lemma_entries_of_evolution(
    recorded: Seq<EntryView>,
    change: Seq<u8>,
    root: EntryView,
    entry: EntryView,
)
    requires
        evolution::has_distinct_ids(recorded),
    ensures
        truncated::evolution_entries(recorded, change, root).contains(entry)
            <==> if has_single_beginning(recorded, change) {
            recorded.contains(entry)
        } else {
            entry == root || (recorded.contains(entry) && entry.commit.id != root.commit.id)
        },
{
    lemma_single_beginning(recorded, change);
    let entries = truncated::evolution_entries(recorded, change, root);
    if !has_single_beginning(recorded, change) {
        let other = |e: EntryView| e.commit.id != root.commit.id;
        let rest = recorded.filter(other);
        truncated::lemma_filtered(recorded, other);
        assert(entries == rest.push(root));
        model::lemma_pushed(rest, root, entry);
        if rest.contains(entry) {
            let a = choose|a: int| 0 <= a < rest.len() && rest[a] == entry;
            assert(recorded.contains(rest[a]) && other(rest[a]));
        }
        if recorded.contains(entry) && entry.commit.id != root.commit.id {
            let i = choose|i: int| 0 <= i < recorded.len() && recorded[i] == entry;
            assert(other(recorded[i]));
        }
    }
}

/// The whole of what a graph says of an evolution. If all divergent commits can be reached from
/// the beginning by steps of the evolution, then the graph starts at the closest commit through
/// which all steps from the beginning to them lead, and has all that can be reached from there.
/// Otherwise it starts at the beginning and leaves nothing out.
pub proof fn lemma_graph_shows_evolution(
    graph: &TruncatedEvolutionGraph,
    recorded: Seq<EntryView>,
    change: Seq<u8>,
    divergent: Seq<Seq<u8>>,
    root: EntryView,
    begin: Seq<u8>,
)
    requires
        graph.shows(recorded, change, divergent, root),
        evolution::has_distinct_ids(recorded),
        is_beginning(recorded, change, root.commit.id, begin),
    ensures
        graph.divergent() == divergent,
        graph.divergent_change_id@ == change,
        ({
            let all = steps(recorded, change, root.commit.id);
            let flow = graph.flow_graph.graph@;
            let start = graph.flow_graph.start_node@;
            if forall|i: int|
                0 <= i < divergent.len() ==> paths::reaches(all, begin, #[trigger] divergent[i]) {
                &&& paths::is_closest_common_dominator(all, begin, start, divergent)
                &&& forall|x: Seq<u8>, k: Seq<u8>| #[trigger]
                    model::has_edge(flow, x, k) <==> paths::reaches(all, start, x) && all.contains(
                        (x, k),
                    )
                &&& forall|k: Seq<u8>| #[trigger]
                    model::has_node(flow, k) <==> paths::reaches(all, start, k)
                        && model::has_node(
                        truncated::evolution_graph(recorded, change, root.commit.id),
                        k,
                    )
                &&& forall|e: EntryView| #[trigger]
                    graph.entries().contains(e) <==> truncated::evolution_entries(
                        recorded,
                        change,
                        root,
                    ).contains(e) && paths::reaches(all, start, e.commit.id) && model::has_node(
                        truncated::evolution_graph(recorded, change, root.commit.id),
                        e.commit.id,
                    )
            } else {
                &&& start == begin
                &&& forall|x: Seq<u8>, k: Seq<u8>| #[trigger]
                    model::has_edge(flow, x, k) <==> all.contains((x, k))
                &&& flow == truncated::evolution_graph(recorded, change, root.commit.id)
                &&& graph.entries() == truncated::evolution_entries(recorded, change, root)
            }
        }),
{
    let root_id = root.commit.id;
    let whole = truncated::evolution_graph(recorded, change, root_id);
    let all = steps(recorded, change, root_id);
    let flow = graph.flow_graph.graph@;
    let start = graph.flow_graph.start_node@;
    lemma_edges_are_steps(recorded, change, root_id);
    truncated::lemma_evolution_graph(recorded, change, root_id);
    lemma_beginning(recorded, change, root_id, begin);
    if forall|i: int|
        0 <= i < divergent.len() ==> paths::reaches(all, begin, #[trigger] divergent[i]) {
        assert(truncated::all_evolved(recorded, change, divergent, root_id));
        reach::lemma_part_from(whole, start);
        assert forall|x: Seq<u8>, k: Seq<u8>| #[trigger]
            model::has_edge(flow, x, k) <==> paths::reaches(all, start, x) && all.contains(
                (x, k),
            ) by {
            assert(model::edge_set(flow).contains((x, k)) <==> model::edge_set(whole).contains(
                (x, k),
            ) && paths::reaches(model::edge_set(whole), start, x));
        }
        let inside = |e: EntryView| model::has_node(flow, e.commit.id);
        let entries = truncated::evolution_entries(recorded, change, root);
        let kept = entries.filter(inside);
        truncated::lemma_evolution_entries(recorded, change, root);
        truncated::lemma_filtered(entries, inside);
        assert(graph.entries() == kept);
        assert forall|e: EntryView| #[trigger] kept.contains(e) <==> entries.contains(e)
            && paths::reaches(all, start, e.commit.id) && model::has_node(whole, e.commit.id) by {
            if kept.contains(e) {
                let a = choose|a: int| 0 <= a < kept.len() && kept[a] == e;
                assert(entries.contains(kept[a]) && inside(kept[a]));
            }
            if entries.contains(e) && model::has_node(flow, e.commit.id) {
                let a = choose|a: int| 0 <= a < entries.len() && entries[a] == e;
                assert(inside(entries[a]));
            }
        }
    } else {
        let i = choose|i: int|
            0 <= i < divergent.len() && !paths::reaches(all, begin, #[trigger] divergent[i]);
        assert(!truncated::all_evolved(recorded, change, divergent, root_id));
    }
}

/// All divergent commits evolved from the fork point, and from no other commit of the graph do
/// they all have to: some way from the fork point to one of them passes it by.
pub proof fn lemma_fork_point(graph: &TruncatedEvolutionGraph, other: Seq<u8>)
    requires
        graph.has_fork_point(),
        other != graph.flow_graph.start_node@,
    ensures
        forall|i: int|
            0 <= i < graph.divergent().len() ==> paths::reaches(
                model::edge_set(graph.flow_graph.graph@),
                graph.flow_graph.start_node@,
                #[trigger] graph.divergent()[i],
            ),
        exists|i: int, path: Seq<Seq<u8>>|
            0 <= i < graph.divergent().len() && #[trigger] paths::is_path_between(
                model::edge_set(graph.flow_graph.graph@),
                graph.flow_graph.start_node@,
                graph.divergent()[i],
                path,
            ) && !path.contains(other),
        forall|k: Seq<u8>|
            model::has_node(graph.flow_graph.graph@, k) <==> walks::has_entry_for(
                graph.entries(),
                k,
            ),
{
    let edges = model::edge_set(graph.flow_graph.graph@);
    let start = graph.flow_graph.start_node@;
    assert forall|i: int| 0 <= i < graph.divergent().len() implies paths::reaches(
        edges,
        start,
        #[trigger] graph.divergent()[i],
    ) by {
        assert(model::has_node(graph.flow_graph.graph@, graph.divergent()[i]));
    }
    paths::lemma_entry_dominates(edges, start, other);
    assert(paths::strictly_dominates(edges, start, start, other));
    assert(!paths::is_common_dominator(edges, start, other, graph.divergent()));
    let i = choose|i: int|
        0 <= i < graph.divergent().len() && !paths::dominates(
            edges,
            start,
            other,
            #[trigger] graph.divergent()[i],
        );
    let path = choose|path: Seq<Seq<u8>>| #[trigger]
        paths::is_path_between(edges, start, graph.divergent()[i], path) && !path.contains(other);
    assert(paths::is_path_between(edges, start, graph.divergent()[i], path));
    assert forall|k: Seq<u8>|
        model::has_node(graph.flow_graph.graph@, k) <==> walks::has_entry_for(
            graph.entries(),
            k,
        ) by {
        assert(walks::has_entry_for(graph.entries(), k) <==> evolution::is_recorded(
            graph.entries(),
            k,
        ));
    }
}

/// Which graphs a caller can rely on: each entry is for another node, and the start node has one.
pub proof fn lemma_every_graph(graph: &TruncatedEvolutionGraph)
    requires
        graph.wf(),
    ensures
        graph.divergent().len() > 0,
        walks::has_entry_for(graph.entries(), graph.flow_graph.start_node@),
        forall|i: int|
            0 <= i < graph.entries().len() ==> model::has_node(
                graph.flow_graph.graph@,
                (#[trigger] graph.entries()[i]).commit.id,
            ),
        forall|i: int, j: int|
            0 <= i < j < graph.entries().len() ==> (#[trigger] graph.entries()[i]).commit.id != (
            #[trigger] graph.entries()[j]).commit.id,
{
    assert forall|i: int| 0 <= i < graph.entries().len() implies model::has_node(
        graph.flow_graph.graph@,
        (#[trigger] graph.entries()[i]).commit.id,
    ) by {
        assert(evolution::is_recorded(graph.entries(), graph.entries()[i].commit.id));
    }
}

/// A commit is found by its identifier.
pub proof fn lemma_commit_of(entries: Seq<EntryView>, i: int)
    requires
        evolution::has_distinct_ids(entries),
        0 <= i < entries.len(),
    ensures
        truncated::commit_of(entries, entries[i].commit.id) == entries[i].commit,
{
    let id = entries[i].commit.id;
    let p = choose|p: int| 0 <= p < entries.len() && (#[trigger] entries[p]).commit.id == id;
    assert(entries[p].commit.id == entries[i].commit.id);
}

/// There is no graph just if there are no divergent commits, if they belong to several changes, or
/// if none of the commits that the walk records is a beginning.
pub proof fn lemma_no_graph(divergent: Seq<CommitView>, entries: Seq<EntryView>)
    ensures
        divergent.len() == 0 ==> truncated::evolution_error(divergent, entries) == Some(
            "divergent_commits must not be empty"@,
        ),
        forall|i: int, j: int|
            0 <= i < divergent.len() && 0 <= j < divergent.len() && (
            #[trigger] divergent[i]).change_id != (#[trigger] divergent[j]).change_id
                ==> truncated::evolution_error(divergent, entries) == Some(
                "all divergent commits must have the same change-id"@,
            ),
        divergent.len() > 0 ==> {
            let change = divergent[0].change_id;
            let recorded = evolution::walked(
                evolution::at_start(divergent),
                change,
                entries,
            ).recorded;
            &&& truncated::recorded_from(divergent, entries) == recorded
            &&& truncated::evolution_error(divergent, entries) is None <==> {
                &&& forall|i: int, j: int|
                    0 <= i < divergent.len() && 0 <= j < divergent.len() ==> (
                    #[trigger] divergent[i]).change_id == (#[trigger] divergent[j]).change_id
                &&& exists|i: int| #[trigger] begins_at(recorded, change, i)
            }
        },
{
    if divergent.len() > 0 {
        let change = divergent[0].change_id;
        let begin = evolution::at_start(divergent);
        let recorded = evolution::walked(begin, change, entries).recorded;
        walks::lemma_start_of_walk(divergent);
        evolution::lemma_walked(begin, change, entries);
        lemma_single_beginning(recorded, change);
        if forall|i: int, j: int|
            0 <= i < divergent.len() && 0 <= j < divergent.len() ==> (
            #[trigger] divergent[i]).change_id == (#[trigger] divergent[j]).change_id {
            assert forall|i: int| 0 <= i < divergent.len() implies (
            #[trigger] divergent[i]).change_id == change by {
                assert(divergent[i].change_id == divergent[0].change_id);
            }
        }
    }
}

/// One more entry comes last among the beginnings if it lists no predecessor that belongs to the
/// change, and is none of them otherwise.
pub proof fn lemma_beginnings_in_order(
    recorded: Seq<EntryView>,
    change: Seq<u8>,
    entry: EntryView,
)
    ensures
        truncated::initial_ids(Seq::empty(), change).len() == 0,
        truncated::initial_ids(recorded.push(entry), change) == if forall|j: int|
            0 <= j < entry.predecessors.len() ==> (#[trigger] entry.predecessors[j]).change_id
                != change {
            truncated::initial_ids(recorded, change).push(entry.commit.id)
        } else {
            truncated::initial_ids(recorded, change)
        },
{
    reveal(Seq::filter);
    let first = |e: EntryView| evolution::own_predecessors(e, change).len() == 0;
    let id = |e: EntryView| e.commit.id;
    let all = recorded.push(entry);
    assert(all.drop_last() =~= recorded);
    assert(all.last() == entry);
    walks::lemma_own_predecessors(entry, change);
    if first(entry) {
        assert(all.filter(first) == recorded.filter(first).push(entry));
        assert(recorded.filter(first).push(entry).map_values(id) =~= recorded.filter(
            first,
        ).map_values(id).push(entry.commit.id));
    } else {
        assert(all.filter(first) == recorded.filter(first));
    }
}

/// Every recorded commit is linked in its place to its predecessors that belong to the change, each
/// of them once and in order.
pub proof fn lemma_links_in_order(recorded: Seq<EntryView>, change: Seq<u8>, i: int)
    requires
        0 <= i < recorded.len(),
    ensures
        truncated::predecessor_graph(recorded, change).len() == recorded.len(),
        truncated::predecessor_graph(recorded, change)[i].0 == recorded[i].commit.id,
        orders::lists_once(
            evolution::own_predecessors(recorded[i], change),
            truncated::predecessor_graph(recorded, change)[i].1,
        ),
{
    orders::lemma_distinct(evolution::own_predecessors(recorded[i], change));
}

/// The graph with the root, entry by entry: every recorded commit in its place, linked to its own
/// predecessors, or to the root if it is one of several beginnings; and then the root, unless it is
/// recorded or there is just one beginning.
pub proof fn lemma_rooted_in_order(recorded: Seq<EntryView>, change: Seq<u8>, root: Seq<u8>)
    requires
        evolution::has_distinct_ids(recorded),
    ensures
        ({
            let graph = truncated::rooted_graph(recorded, change, root);
            &&& graph.len() == if has_single_beginning(recorded, change)
                || walks::has_entry_for(recorded, root) {
                recorded.len()
            } else {
                recorded.len() + 1
            }
            &&& forall|i: int|
                0 <= i < recorded.len() ==> (#[trigger] graph[i]).0 == recorded[i].commit.id
            &&& forall|i: int|
                0 <= i < recorded.len() ==> (#[trigger] graph[i]).1 == if begins_at(
                    recorded,
                    change,
                    i,
                ) && !has_single_beginning(recorded, change) {
                    seq![root]
                } else {
                    truncated::predecessor_graph(recorded, change)[i].1
                }
            &&& graph.len() > recorded.len() ==> graph[recorded.len() as int] == (
                root,
                Seq::<Seq<u8>>::empty(),
            )
        }),
{
    let plain = truncated::predecessor_graph(recorded, change);
    let graph = truncated::rooted_graph(recorded, change, root);
    let initial = truncated::initial_ids(recorded, change);
    lemma_single_beginning(recorded, change);
    truncated::lemma_predecessor_graph(recorded, change);
    truncated::lemma_rooted_graph(recorded, change, root);
    truncated::lemma_initial(recorded, change);
    lemma_steps_by_own_predecessors(recorded, change);
    assert(evolution::is_recorded(recorded, root) <==> walks::has_entry_for(recorded, root));
    if !has_single_beginning(recorded, change) {
        let grown = model::with_node(plain, root);
        let added = initial.map_values(|id: Seq<u8>| (id, root));
        model::lemma_with_node(plain, root);
        assert forall|i: int| 0 <= i < initial.len() implies model::has_node(
            grown,
            #[trigger] initial[i],
        ) by {
            assert(initial.contains(initial[i]));
            assert(truncated::is_initial(recorded, change, initial[i]));
            assert(evolution::is_recorded(recorded, initial[i]));
            assert(model::has_node(plain, initial[i]));
        }
        assert forall|i: int| 0 <= i < grown.len() && initial.contains(
            (#[trigger] grown[i]).0,
        ) implies grown[i].1.len() == 0 by {
            lemma_beginning_has_no_links(recorded, change, grown[i].0);
            model::lemma_position(grown, i);
            assert(model::children(grown, grown[i].0) == model::children(plain, grown[i].0));
        }
        assert forall|i: int| 0 <= i < grown.len() implies (#[trigger] graph[i]) == (
            grown[i].0,
            if initial.contains(grown[i].0) {
                seq![root]
            } else {
                grown[i].1
            },
        ) by {
            lemma_entry_with_root(grown, initial, root, added, i);
        }
        assert(graph.len() == grown.len()) by {
            lemma_nodes_with_root(grown, initial, root, added);
        }
        assert forall|i: int| 0 <= i < recorded.len() implies (#[trigger] graph[i]).1
            == if begins_at(recorded, change, i) {
            seq![root]
        } else {
            plain[i].1
        } by {
            assert(grown[i] == plain[i]);
            assert(plain[i].0 == recorded[i].commit.id);
            if initial.contains(plain[i].0) {
                let e = choose|e: int| #[trigger]
                    begins_at(recorded, change, e) && recorded[e].commit.id == plain[i].0;
                assert(recorded[e].commit.id == recorded[i].commit.id);
            }
            if begins_at(recorded, change, i) {
                assert(truncated::is_initial(recorded, change, plain[i].0));
            }
        }
        if graph.len() > recorded.len() {
            let n = recorded.len() as int;
            assert(grown[n] == (root, Seq::<Seq<u8>>::empty()));
            if initial.contains(root) {
                assert(truncated::is_initial(recorded, change, root));
                assert(evolution::is_recorded(recorded, root));
            }
            assert(graph[n].0 == root && graph[n].1 == grown[n].1);
        }
    }
}

/// A beginning is linked to nothing.
proof fn lemma_beginning_has_no_links(recorded: Seq<EntryView>, change: Seq<u8>, id: Seq<u8>)
    requires
        evolution::has_distinct_ids(recorded),
        truncated::initial_ids(recorded, change).contains(id),
    ensures
        model::children(truncated::predecessor_graph(recorded, change), id).len() == 0,
{
    let plain = truncated::predecessor_graph(recorded, change);
    truncated::lemma_predecessor_graph(recorded, change);
    truncated::lemma_initial(recorded, change);
    let e = choose|e: int|
        0 <= e < recorded.len() && (#[trigger] recorded[e]).commit.id == id
            && evolution::own_predecessors(recorded[e], change).len() == 0;
    assert(plain[e].0 == id);
    model::lemma_position(plain, e);
    model::lemma_distinct(evolution::own_predecessors(recorded[e], change));
}

/// `added` links each of some nodes to the root.
spec fn are_links_to<K>(initial: Seq<K>, root: K, added: Seq<(K, K)>) -> bool {
    &&& added.len() == initial.len()
    &&& forall|i: int| 0 <= i < added.len() ==> #[trigger] added[i] == (initial[i], root)
}

/// Linking nodes to the root keeps the nodes as they stand.
proof fn lemma_nodes_with_root<K>(
    graph: Seq<(K, Seq<K>)>,
    initial: Seq<K>,
    root: K,
    added: Seq<(K, K)>,
)
    requires
        model::is_simple(graph),
        forall|i: int| 0 <= i < initial.len() ==> model::has_node(graph, #[trigger] initial[i]),
        are_links_to(initial, root, added),
    ensures
        model::nodes(model::with_edges(graph, added)) == model::nodes(graph),
        model::with_edges(graph, added).len() == graph.len(),
{
    let result = model::with_edges(graph, added);
    let nodes = model::nodes(graph);
    orders::lemma_nodes(graph);
    orders::lemma_nodes(result);
    orders::lemma_with_edges(graph, added, root);
    assert(added.map_values(|edge: (K, K)| edge.0) =~= initial);
    assert forall|i: int| 0 <= i < initial.len() implies nodes.contains(#[trigger] initial[i]) by {
        assert(model::has_node(graph, initial[i]));
    }
    orders::lemma_named_again(nodes, initial, model::nodes(result));
    assert forall|i: int, j: int| 0 <= i < nodes.len() && 0 <= j < nodes.len() && i != j implies
        nodes[i] != nodes[j] by {
        assert(graph[i].0 != graph[j].0);
    }
    orders::lemma_lists_itself(nodes);
    orders::lemma_lists_once_unique(nodes, nodes, model::nodes(result));
}

/// Linking nodes to the root makes it their only child, and leaves the others as they are.
proof fn lemma_entry_with_root<K>(
    graph: Seq<(K, Seq<K>)>,
    initial: Seq<K>,
    root: K,
    added: Seq<(K, K)>,
    i: int,
)
    requires
        model::is_simple(graph),
        forall|j: int| 0 <= j < initial.len() ==> model::has_node(graph, #[trigger] initial[j]),
        are_links_to(initial, root, added),
        0 <= i < graph.len(),
        initial.contains(graph[i].0) ==> graph[i].1.len() == 0,
    ensures
        model::with_edges(graph, added)[i].0 == graph[i].0,
        model::with_edges(graph, added)[i].1 == if initial.contains(graph[i].0) {
            seq![root]
        } else {
            graph[i].1
        },
{
    let result = model::with_edges(graph, added);
    let id = graph[i].0;
    lemma_nodes_with_root(graph, initial, root, added);
    assert(model::nodes(result)[i] == model::nodes(graph)[i]);
    assert(result[i].0 == id);
    model::lemma_with_edges(graph, added);
    model::lemma_position(graph, i);
    model::lemma_position(result, i);
    orders::lemma_with_edges(graph, added, id);
    lemma_links_to_root(initial, root, added, id);
    let more = added.filter(|edge: (K, K)| edge.0 == id).map_values(|edge: (K, K)| edge.1);
    assert(orders::lists_once(graph[i].1 + more, result[i].1));
    if initial.contains(id) {
        assert(graph[i].1 + more =~= more);
        lemma_only_root(more, result[i].1, root);
    } else {
        assert(graph[i].1 + more =~= graph[i].1);
        orders::lemma_lists_itself(graph[i].1);
        orders::lemma_lists_once_unique(graph[i].1, graph[i].1, result[i].1);
    }
}

/// The links from a node to the root, among those of some nodes.
proof fn lemma_links_to_root<K>(initial: Seq<K>, root: K, added: Seq<(K, K)>, id: K)
    requires
        are_links_to(initial, root, added),
    ensures
        ({
            let more = added.filter(|edge: (K, K)| edge.0 == id).map_values(
                |edge: (K, K)| edge.1,
            );
            &&& forall|i: int| 0 <= i < more.len() ==> #[trigger] more[i] == root
            &&& more.len() > 0 <==> initial.contains(id)
        }),
    decreases initial.len(),
{
    reveal(Seq::filter);
    let own = |edge: (K, K)| edge.0 == id;
    let end = |edge: (K, K)| edge.1;
    if initial.len() > 0 {
        let init = initial.drop_last();
        let last = initial.last();
        assert forall|i: int| 0 <= i < init.len() implies #[trigger] added.drop_last()[i] == (
            init[i],
            root,
        ) by {
            assert(added[i] == (initial[i], root));
        }
        lemma_links_to_root(init, root, added.drop_last(), id);
        assert(added[added.len() - 1] == (last, root));
        let before = added.drop_last().filter(own).map_values(end);
        let more = added.filter(own).map_values(end);
        assert(initial =~= init.push(last));
        model::lemma_pushed(init, last, id);
        if own(added.last()) {
            assert(more =~= before.push(root));
        } else {
            assert(more =~= before);
        }
    }
}

/// The root once is what lists the root.
proof fn lemma_only_root<K>(items: Seq<K>, listed: Seq<K>, root: K)
    requires
        orders::lists_once(items, listed),
        items.len() > 0,
        forall|i: int| 0 <= i < items.len() ==> #[trigger] items[i] == root,
    ensures
        listed == seq![root],
{
    assert(items.contains(items[0]));
    assert(listed.contains(root));
    assert forall|i: int| 0 <= i < listed.len() implies listed[i] == root by {
        assert(listed.contains(listed[i]));
        assert(items.contains(listed[i]));
    }
    if listed.len() > 1 {
        assert(listed[0] == listed[1]);
    }
    assert(listed =~= seq![root]);
}

/// The evolution graph lists its nodes in the order in which the entries name them.
pub proof fn lemma_order_of_evolution(recorded: Seq<EntryView>, change: Seq<u8>, root: Seq<u8>)
    requires
        evolution::has_distinct_ids(recorded),
    ensures
        orders::lists_once(
            orders::named(truncated::rooted_graph(recorded, change, root)),
            model::nodes(truncated::evolution_graph(recorded, change, root)),
        ),
{
    truncated::lemma_rooted_graph(recorded, change, root);
    orders::lemma_completed_and_reversed(truncated::rooted_graph(recorded, change, root));
}

} // verus!
