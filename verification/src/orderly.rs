//! Evolutions that are listed completely have a fork point.
use vstd::prelude::*;

use crate::commit::CommitView;
use crate::commit::EntryView;
use crate::evolution;
use crate::evolution::WalkView;
use crate::model;
use crate::paths;
use crate::truncated;

verus! {

/// Some entry from the place `from` on is for the commit `id`, which belongs to the change.
pub open spec fn is_listed_from(
    entries: Seq<EntryView>,
    change: Seq<u8>,
    from: int,
    id: Seq<u8>,
) -> bool {
    exists|j: int|
        from <= j < entries.len() && (#[trigger] entries[j]).commit.id == id
            && entries[j].commit.change_id == change
}

/// The entries list each commit of the change once and before its own predecessors, which are
/// all listed.
pub open spec fn is_orderly(entries: Seq<EntryView>, change: Seq<u8>) -> bool {
    &&& forall|i: int, j: int|
        0 <= i < entries.len() && 0 <= j < entries.len() && i != j && (
        #[trigger] entries[i]).commit.change_id == change && (
        #[trigger] entries[j]).commit.change_id == change ==> entries[i].commit.id
            != entries[j].commit.id
    &&& forall|i: int, p: Seq<u8>|
        0 <= i < entries.len() && (#[trigger] entries[i]).commit.change_id == change
            && #[trigger] evolution::own_predecessors(entries[i], change).contains(p)
            ==> is_listed_from(entries, change, i + 1, p)
}

/// No commit is recorded before or with one that it is an own predecessor of.
spec fn is_ordered(recorded: Seq<EntryView>, change: Seq<u8>) -> bool {
    forall|i: int, j: int|
        0 <= j <= i < recorded.len() ==> !evolution::own_predecessors(
            #[trigger] recorded[i],
            change,
        ).contains((#[trigger] recorded[j]).commit.id)
}

/// Everything that a walk has met is recorded or pending.
spec fn is_accounted_for(walk: WalkView, change: Seq<u8>, divergent: Seq<Seq<u8>>) -> bool {
    &&& forall|i: int|
        0 <= i < divergent.len() ==> walk.pending.contains(#[trigger] divergent[i])
            || evolution::is_recorded(walk.recorded, divergent[i])
    &&& forall|i: int, p: Seq<u8>|
        0 <= i < walk.recorded.len() && #[trigger] evolution::own_predecessors(
            walk.recorded[i],
            change,
        ).contains(p) ==> walk.pending.contains(p) || evolution::is_recorded(walk.recorded, p)
}

/// The rest of an orderly list is orderly.
proof fn lemma_rest_is_orderly(entries: Seq<EntryView>, change: Seq<u8>)
    requires
        is_orderly(entries, change),
        entries.len() > 0,
    ensures
        is_orderly(entries.skip(1), change),
{
    let rest = entries.skip(1);
    assert forall|i: int, j: int|
        0 <= i < rest.len() && 0 <= j < rest.len() && i != j && (
        #[trigger] rest[i]).commit.change_id == change && (#[trigger] rest[j]).commit.change_id
            == change implies rest[i].commit.id != rest[j].commit.id by {
        assert(rest[i] == entries[i + 1] && rest[j] == entries[j + 1]);
    }
    assert forall|i: int, p: Seq<u8>|
        0 <= i < rest.len() && (#[trigger] rest[i]).commit.change_id == change
            && #[trigger] evolution::own_predecessors(rest[i], change).contains(
            p,
        ) implies is_listed_from(rest, change, i + 1, p) by {
        assert(rest[i] == entries[i + 1]);
        assert(evolution::own_predecessors(entries[i + 1], change).contains(p));
        let j = choose|j: int|
            i + 2 <= j < entries.len() && (#[trigger] entries[j]).commit.id == p
                && entries[j].commit.change_id == change;
        assert(rest[j - 1] == entries[j]);
    }
}

/// A walk over an orderly list records everything that it meets.
proof fn lemma_walked(
    walk: WalkView,
    change: Seq<u8>,
    divergent: Seq<Seq<u8>>,
    entries: Seq<EntryView>,
)
    requires
        is_orderly(entries, change),
        evolution::has_distinct_ids(walk.recorded),
        is_accounted_for(walk, change, divergent),
        is_ordered(walk.recorded, change),
        forall|i: int|
            0 <= i < entries.len() && (#[trigger] entries[i]).commit.change_id == change
                ==> !evolution::is_recorded(walk.recorded, entries[i].commit.id),
        forall|p: Seq<u8>| #[trigger]
            walk.pending.contains(p) ==> is_listed_from(entries, change, 0, p),
    ensures
        evolution::has_distinct_ids(evolution::walked(walk, change, entries).recorded),
        is_accounted_for(evolution::walked(walk, change, entries), change, divergent),
        is_ordered(evolution::walked(walk, change, entries).recorded, change),
        forall|p: Seq<u8>|
            !(#[trigger] evolution::walked(walk, change, entries).pending.contains(p)),
    decreases entries.len(),
{
    if entries.len() > 0 {
        let entry = entries[0];
        let next = evolution::visited(walk, change, entry);
        let rest = entries.skip(1);
        lemma_rest_is_orderly(entries, change);
        if entry.commit.change_id != change {
            assert forall|p: Seq<u8>| #[trigger] next.pending.contains(p) implies is_listed_from(
                rest,
                change,
                0,
                p,
            ) by {
                let j = choose|j: int|
                    0 <= j < entries.len() && (#[trigger] entries[j]).commit.id == p
                        && entries[j].commit.change_id == change;
                assert(rest[j - 1] == entries[j]);
            }
            assert forall|i: int|
                0 <= i < rest.len() && (#[trigger] rest[i]).commit.change_id
                    == change implies !evolution::is_recorded(next.recorded, rest[i].commit.id) by {
                assert(rest[i] == entries[i + 1]);
            }
            lemma_walked(next, change, divergent, rest);
        } else {
            let before = walk.recorded;
            let after = next.recorded;
            let own = evolution::own_predecessors(entry, change);
            assert(!evolution::is_recorded(before, entry.commit.id));
            assert(after == before.push(entry));
            assert(after[before.len() as int] == entry);
            assert forall|k: Seq<u8>| #[trigger] evolution::is_recorded(after, k)
                <==> evolution::is_recorded(before, k) || k == entry.commit.id by {
                if evolution::is_recorded(before, k) {
                    let i = choose|i: int|
                        0 <= i < before.len() && (#[trigger] before[i]).commit.id == k;
                    assert(after[i].commit.id == k);
                }
                if evolution::is_recorded(after, k) {
                    let i = choose|i: int|
                        0 <= i < after.len() && (#[trigger] after[i]).commit.id == k;
                    if i < before.len() {
                        assert(before[i].commit.id == k);
                    }
                }
            }
            assert forall|p: Seq<u8>| #[trigger] own.contains(p) implies is_listed_from(
                rest,
                change,
                0,
                p,
            ) by {
                assert(evolution::own_predecessors(entries[0], change).contains(p));
                let j = choose|j: int|
                    1 <= j < entries.len() && (#[trigger] entries[j]).commit.id == p
                        && entries[j].commit.change_id == change;
                assert(rest[j - 1] == entries[j]);
            }
            assert forall|i: int, j: int| 0 <= i < after.len() && 0 <= j < after.len() && i
                != j implies (#[trigger] after[i]).commit.id != (
            #[trigger] after[j]).commit.id by {
                if i < before.len() {
                    assert(before[i] == after[i]);
                }
                if j < before.len() {
                    assert(before[j] == after[j]);
                }
            }
            assert forall|i: int, p: Seq<u8>|
                0 <= i < after.len() && #[trigger] evolution::own_predecessors(
                    after[i],
                    change,
                ).contains(p) implies next.pending.contains(p) || evolution::is_recorded(
                after,
                p,
            ) by {
                if i < before.len() {
                    assert(after[i] == before[i]);
                    assert(evolution::own_predecessors(walk.recorded[i], change).contains(p));
                } else {
                    assert(own.to_set().contains(p));
                }
            }
            assert forall|i: int, j: int| 0 <= j <= i < after.len() implies !(
            evolution::own_predecessors(#[trigger] after[i], change).contains(
                (#[trigger] after[j]).commit.id,
            )) by {
                if i < before.len() {
                    assert(after[i] == before[i] && after[j] == before[j]);
                } else {
                    let p = after[j].commit.id;
                    if own.contains(p) {
                        let l = choose|l: int|
                            0 <= l < rest.len() && (#[trigger] rest[l]).commit.id == p
                                && rest[l].commit.change_id == change;
                        assert(rest[l] == entries[l + 1]);
                        if j < before.len() {
                            assert(before[j].commit.id == p);
                            assert(evolution::is_recorded(before, p));
                        } else {
                            assert(entries[0].commit.id == entries[l + 1].commit.id);
                        }
                    }
                }
            }
            assert forall|i: int|
                0 <= i < rest.len() && (#[trigger] rest[i]).commit.change_id
                    == change implies !evolution::is_recorded(after, rest[i].commit.id) by {
                assert(rest[i] == entries[i + 1]);
                assert(entries[0].commit.id != entries[i + 1].commit.id);
            }
            assert forall|p: Seq<u8>| #[trigger] next.pending.contains(p) implies is_listed_from(
                rest,
                change,
                0,
                p,
            ) by {
                if own.contains(p) {
                } else {
                    assert(walk.pending.contains(p) && p != entry.commit.id);
                    let j = choose|j: int|
                        0 <= j < entries.len() && (#[trigger] entries[j]).commit.id == p
                            && entries[j].commit.change_id == change;
                    assert(rest[j - 1] == entries[j]);
                }
            }
            assert(is_accounted_for(next, change, divergent));
            if evolution::ends_walk(walk, change, entry) {
                assert(next.pending =~= Set::<Seq<u8>>::empty());
            } else {
                lemma_walked(next, change, divergent, rest);
            }
        }
    } else {
        assert forall|p: Seq<u8>| !(#[trigger] walk.pending.contains(p)) by {
            if walk.pending.contains(p) {
                assert(is_listed_from(entries, change, 0, p));
            }
        }
    }
}

/// Every recorded commit evolved from the start, where everything is accounted for.
proof fn lemma_start_reaches(
    recorded: Seq<EntryView>,
    change: Seq<u8>,
    root: Seq<u8>,
    i: int,
)
    requires
        evolution::has_distinct_ids(recorded),
        is_ordered(recorded, change),
        forall|i: int, p: Seq<u8>|
            0 <= i < recorded.len() && #[trigger] evolution::own_predecessors(
                recorded[i],
                change,
            ).contains(p) ==> evolution::is_recorded(recorded, p),
        0 <= i < recorded.len(),
    ensures
        paths::reaches(
            model::edge_set(truncated::evolution_graph(recorded, change, root)),
            truncated::evolution_start(recorded, change, root),
            recorded[i].commit.id,
        ),
        truncated::initial_ids(recorded, change).len() > 0,
    decreases recorded.len() - i,
{
    let graph = truncated::evolution_graph(recorded, change, root);
    let edges = model::edge_set(graph);
    let start = truncated::evolution_start(recorded, change, root);
    let initial = truncated::initial_ids(recorded, change);
    let id = recorded[i].commit.id;
    let own = evolution::own_predecessors(recorded[i], change);
    truncated::lemma_evolution_graph(recorded, change, root);
    truncated::lemma_initial(recorded, change);
    if own.len() == 0 {
        assert(truncated::is_initial(recorded, change, id));
        assert(initial.contains(id));
        if initial.len() == 1 {
            paths::lemma_trivial_path(edges, id);
        } else {
            assert(model::has_edge(graph, root, id));
            assert(edges.contains((root, id)));
            paths::lemma_trivial_path(edges, root);
            paths::lemma_extend_path(edges, root, root, id, seq![root]);
        }
    } else {
        let p = own[0];
        assert(own.contains(p));
        let j = choose|j: int| 0 <= j < recorded.len() && (#[trigger] recorded[j]).commit.id == p;
        if j <= i {
            assert(!evolution::own_predecessors(recorded[i], change).contains(
                recorded[j].commit.id,
            ));
        }
        lemma_start_reaches(recorded, change, root, j);
        assert(truncated::has_own_predecessor(recorded, change, id, p));
        assert(model::has_edge(graph, p, id));
        assert(edges.contains((p, id)));
        let path = choose|path: Seq<Seq<u8>>| paths::is_path_between(edges, start, p, path);
        paths::lemma_extend_path(edges, start, p, id, path);
    }
}

/// If the divergent commits belong to one change, and their evolution is listed completely and
/// in order, then there is an evolution graph for them, and it is truncated at a fork point.
pub proof fn lemma_orderly_evolution_is_accepted(
    divergent: Seq<CommitView>,
    entries: Seq<EntryView>,
    root: Seq<u8>,
)
    requires
        divergent.len() > 0,
        evolution::all_belong_to(divergent, divergent[0].change_id),
        is_orderly(entries, divergent[0].change_id),
        forall|i: int|
            0 <= i < divergent.len() ==> is_listed_from(
                entries,
                divergent[0].change_id,
                0,
                (#[trigger] divergent[i]).id,
            ),
    ensures
        truncated::evolution_error(divergent, entries) is None,
        truncated::all_evolved(
            truncated::recorded_from(divergent, entries),
            divergent[0].change_id,
            evolution::ids_of(divergent),
            root,
        ),
{
    let change = divergent[0].change_id;
    let ids = evolution::ids_of(divergent);
    let begin = evolution::at_start(divergent);
    let end = evolution::walked(begin, change, entries);
    let recorded = end.recorded;
    assert forall|i: int| 0 <= i < ids.len() implies begin.pending.contains(#[trigger] ids[i]) by {
        assert(ids.contains(ids[i]));
    }
    assert forall|p: Seq<u8>| #[trigger] begin.pending.contains(p) implies is_listed_from(
        entries,
        change,
        0,
        p,
    ) by {
        assert(ids.contains(p));
        let i = choose|i: int| 0 <= i < ids.len() && ids[i] == p;
        assert(divergent[i].id == p);
    }
    lemma_walked(begin, change, ids, entries);
    assert forall|i: int, p: Seq<u8>|
        0 <= i < recorded.len() && #[trigger] evolution::own_predecessors(
            recorded[i],
            change,
        ).contains(p) implies evolution::is_recorded(recorded, p) by {
        assert(!end.pending.contains(p));
    }
    let graph = truncated::evolution_graph(recorded, change, root);
    let edges = model::edge_set(graph);
    let start = truncated::evolution_start(recorded, change, root);
    assert(!end.pending.contains(ids[0]));
    assert(evolution::is_recorded(recorded, ids[0]));
    let first = choose|i: int|
        0 <= i < recorded.len() && (#[trigger] recorded[i]).commit.id == ids[0];
    lemma_start_reaches(recorded, change, root, first);
    assert forall|i: int| 0 <= i < ids.len() implies paths::reaches(
        edges,
        start,
        #[trigger] ids[i],
    ) by {
        assert(!end.pending.contains(ids[i]));
        assert(evolution::is_recorded(recorded, ids[i]));
        let k = choose|k: int|
            0 <= k < recorded.len() && (#[trigger] recorded[k]).commit.id == ids[i];
        lemma_start_reaches(recorded, change, root, k);
    }
}

} // verus!
