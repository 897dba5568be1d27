//! How an evolution is walked, and what its graph is.
use vstd::prelude::*;

use crate::commit::CommitView;
use crate::commit::EntryView;
use crate::evolution;
use crate::evolution::WalkView;

verus! {

/// The own predecessors of an entry are the predecessors that belong to the change: all of them
/// and no other ones.
pub proof fn lemma_own_predecessors(entry: EntryView, change: Seq<u8>)
    ensures
        forall|p: Seq<u8>| #[trigger]
            evolution::own_predecessors(entry, change).contains(p) <==> exists|i: int|
                0 <= i < entry.predecessors.len() && (
                #[trigger] entry.predecessors[i]).change_id == change && entry.predecessors[i].id
                    == p,
        evolution::own_predecessors(entry, change).len() == 0 <==> forall|i: int|
            0 <= i < entry.predecessors.len() ==> (#[trigger] entry.predecessors[i]).change_id
                != change,
    decreases entry.predecessors.len(),
{
    let own = evolution::own_predecessors(entry, change);
    if entry.predecessors.len() > 0 {
        let last = entry.predecessors.last();
        let before = EntryView { commit: entry.commit, predecessors: entry.predecessors.drop_last() };
        let inner = evolution::own_predecessors(before, change);
        lemma_own_predecessors(before, change);
        lemma_own_predecessors_in_order(before, change, last);
        assert(before.predecessors.push(last) =~= entry.predecessors);
        assert(entry.predecessors[entry.predecessors.len() - 1] == last);
        assert forall|p: Seq<u8>| #[trigger] own.contains(p) <==> exists|i: int|
            0 <= i < entry.predecessors.len() && (#[trigger] entry.predecessors[i]).change_id
                == change && entry.predecessors[i].id == p by {
            crate::model::lemma_pushed(inner, last.id, p);
            assert(inner.contains(p) <==> exists|i: int|
                0 <= i < before.predecessors.len() && (
                #[trigger] before.predecessors[i]).change_id == change && before.predecessors[i].id
                    == p);
            if inner.contains(p) {
                let i = choose|i: int|
                    0 <= i < before.predecessors.len() && (
                    #[trigger] before.predecessors[i]).change_id == change
                        && before.predecessors[i].id == p;
                assert(entry.predecessors[i] == before.predecessors[i]);
            }
            if exists|i: int|
                0 <= i < entry.predecessors.len() && (#[trigger] entry.predecessors[i]).change_id
                    == change && entry.predecessors[i].id == p {
                let i = choose|i: int|
                    0 <= i < entry.predecessors.len() && (
                    #[trigger] entry.predecessors[i]).change_id == change
                        && entry.predecessors[i].id == p;
                if i < before.predecessors.len() {
                    assert(before.predecessors[i] == entry.predecessors[i]);
                }
            }
        }
    } else {
        reveal(Seq::filter);
        assert(own.len() == 0);
        assert forall|p: Seq<u8>| #[trigger] own.contains(p) <==> exists|i: int|
            0 <= i < entry.predecessors.len() && (#[trigger] entry.predecessors[i]).change_id
                == change && entry.predecessors[i].id == p by {}
    }
    if own.len() == 0 {
        assert forall|i: int| 0 <= i < entry.predecessors.len() implies (
        #[trigger] entry.predecessors[i]).change_id != change by {
            if entry.predecessors[i].change_id == change {
                assert(own.contains(entry.predecessors[i].id));
            }
        }
    } else {
        assert(own.contains(own[0]));
    }
}

/// One more predecessor comes last if it belongs to the change, and else changes nothing.
pub proof fn lemma_own_predecessors_in_order(
    entry: EntryView,
    change: Seq<u8>,
    predecessor: CommitView,
)
    ensures
        evolution::own_predecessors(
            EntryView {
                commit: entry.commit,
                predecessors: entry.predecessors.push(predecessor),
            },
            change,
        ) == if predecessor.change_id == change {
            evolution::own_predecessors(entry, change).push(predecessor.id)
        } else {
            evolution::own_predecessors(entry, change)
        },
{
    reveal(Seq::filter);
    let all = entry.predecessors.push(predecessor);
    let own = |commit: CommitView| commit.change_id == change;
    assert(all.drop_last() =~= entry.predecessors);
    assert(all.last() == predecessor);
    assert(all.filter(own) == if own(predecessor) {
        entry.predecessors.filter(own).push(predecessor)
    } else {
        entry.predecessors.filter(own)
    });
    let kept = entry.predecessors.filter(own);
    assert(evolution::ids_of(kept.push(predecessor)) =~= evolution::ids_of(kept).push(
        predecessor.id,
    ));
}

/// A walk needs the entries of those commits of the change that none of its entries is for.
pub proof fn lemma_wanted(walk: WalkView, change: Seq<u8>, commit: CommitView)
    ensures
        evolution::is_wanted(walk, change, commit) <==> commit.change_id == change && forall|i: int|
            0 <= i < walk.recorded.len() ==> (#[trigger] walk.recorded[i]).commit.id != commit.id,
{
}

/// At the start the divergent commits are pending and nothing is recorded.
pub proof fn lemma_start_of_walk(divergent: Seq<CommitView>)
    ensures
        evolution::at_start(divergent).recorded.len() == 0,
        forall|p: Seq<u8>| #[trigger]
            evolution::at_start(divergent).pending.contains(p) <==> exists|i: int|
                0 <= i < divergent.len() && (#[trigger] divergent[i]).id == p,
{
    let ids = evolution::ids_of(divergent);
    assert forall|p: Seq<u8>| #[trigger] evolution::at_start(divergent).pending.contains(p)
        <==> exists|i: int| 0 <= i < divergent.len() && (#[trigger] divergent[i]).id == p by {
        if ids.contains(p) {
            let i = choose|i: int| 0 <= i < ids.len() && ids[i] == p;
            assert(divergent[i].id == p);
        }
        if exists|i: int| 0 <= i < divergent.len() && (#[trigger] divergent[i]).id == p {
            let i = choose|i: int| 0 <= i < divergent.len() && (#[trigger] divergent[i]).id == p;
            assert(ids[i] == p);
        }
    }
}

/// What one entry does to a walk. Commits of other changes do nothing. A commit of the change is
/// pending no more. If it was not recorded before, its entry is recorded and each of its
/// predecessors that belongs to the change is pending.
pub proof fn lemma_step_of_walk(walk: WalkView, change: Seq<u8>, entry: EntryView)
    ensures
        entry.commit.change_id != change ==> evolution::visited(walk, change, entry) == walk,
        entry.commit.change_id == change ==> {
            let next = evolution::visited(walk, change, entry);
            if exists|i: int|
                0 <= i < walk.recorded.len() && (#[trigger] walk.recorded[i]).commit.id
                    == entry.commit.id {
                &&& next.recorded == walk.recorded
                &&& forall|p: Seq<u8>| #[trigger]
                    next.pending.contains(p) <==> walk.pending.contains(p) && p != entry.commit.id
            } else {
                &&& next.recorded == walk.recorded.push(entry)
                &&& forall|p: Seq<u8>| #[trigger]
                    next.pending.contains(p) <==> {
                        ||| walk.pending.contains(p) && p != entry.commit.id
                        ||| exists|i: int|
                            0 <= i < entry.predecessors.len() && (
                            #[trigger] entry.predecessors[i]).change_id == change
                                && entry.predecessors[i].id == p
                    }
            }
        },
{
    let next = evolution::visited(walk, change, entry);
    let own = evolution::own_predecessors(entry, change);
    lemma_own_predecessors(entry, change);
    if entry.commit.change_id == change && !evolution::is_recorded(
        walk.recorded,
        entry.commit.id,
    ) {
        assert forall|p: Seq<u8>| #[trigger] next.pending.contains(p) <==> {
            ||| walk.pending.contains(p) && p != entry.commit.id
            ||| exists|i: int|
                0 <= i < entry.predecessors.len() && (#[trigger] entry.predecessors[i]).change_id
                    == change && entry.predecessors[i].id == p
        } by {
            assert(own.to_set().contains(p) <==> own.contains(p));
        }
    }
}

/// A walk ends with the first entry for a commit of the change that has no predecessor in the
/// change, if nothing but this commit was pending.
pub proof fn lemma_end_of_walk(walk: WalkView, change: Seq<u8>, entry: EntryView)
    ensures
        evolution::ends_walk(walk, change, entry) <==> {
            &&& entry.commit.change_id == change
            &&& forall|i: int|
                0 <= i < walk.recorded.len() ==> (#[trigger] walk.recorded[i]).commit.id
                    != entry.commit.id
            &&& forall|i: int|
                0 <= i < entry.predecessors.len() ==> (#[trigger] entry.predecessors[i]).change_id
                    != change
            &&& forall|p: Seq<u8>| #[trigger] walk.pending.contains(p) ==> p == entry.commit.id
        },
{
    let next = evolution::visited(walk, change, entry);
    lemma_own_predecessors(entry, change);
    lemma_step_of_walk(walk, change, entry);
    if evolution::ends_walk(walk, change, entry) {
        assert forall|p: Seq<u8>| #[trigger] walk.pending.contains(p) implies p
            == entry.commit.id by {
            assert(!next.pending.contains(p));
        }
    }
    if forall|p: Seq<u8>| #[trigger] walk.pending.contains(p) ==> p == entry.commit.id {
        if evolution::own_predecessors(entry, change).len() == 0 && evolution::is_wanted(
            walk,
            change,
            entry.commit,
        ) {
            assert forall|p: Seq<u8>| !(#[trigger] next.pending.contains(p)) by {}
            assert(next.pending =~= Set::<Seq<u8>>::empty());
        }
    }
}

/// A walk takes its entries one after the other, and none after the one that ends it.
pub proof fn lemma_walk_in_steps(
    walk: WalkView,
    change: Seq<u8>,
    entry: EntryView,
    rest: Seq<EntryView>,
)
    ensures
        evolution::walked(walk, change, Seq::empty()) == walk,
        evolution::walked(walk, change, seq![entry] + rest) == if evolution::ends_walk(
            walk,
            change,
            entry,
        ) {
            evolution::visited(walk, change, entry)
        } else {
            evolution::walked(evolution::visited(walk, change, entry), change, rest)
        },
{
    let all = seq![entry] + rest;
    assert(all[0] == entry);
    assert(all.skip(1) =~= rest);
}

/// `places` says where in the list the entries were recorded from: in order, each from the first
/// entry for its commit.
pub open spec fn are_first_places(
    entries: Seq<EntryView>,
    change: Seq<u8>,
    recorded: Seq<EntryView>,
    places: Seq<int>,
) -> bool {
    &&& places.len() == recorded.len()
    &&& forall|i: int|
        0 <= i < places.len() ==> 0 <= #[trigger] places[i] < entries.len() && entries[places[i]]
            == recorded[i] && recorded[i].commit.change_id == change
    &&& forall|i: int, j: int|
        0 <= i < j < places.len() ==> #[trigger] places[i] < #[trigger] places[j]
    &&& forall|i: int, b: int|
        0 <= i < places.len() && 0 <= b < #[trigger] places[i] && (
        #[trigger] entries[b]).commit.change_id == change ==> entries[b].commit.id
            != recorded[i].commit.id
}

/// Everything that a walk has met is recorded or pending.
spec fn is_accounted_for(walk: WalkView, change: Seq<u8>, divergent: Seq<CommitView>) -> bool {
    &&& forall|i: int|
        0 <= i < divergent.len() ==> walk.pending.contains((#[trigger] divergent[i]).id)
            || evolution::is_recorded(walk.recorded, divergent[i].id)
    &&& forall|i: int, j: int|
        0 <= i < walk.recorded.len() && 0 <= j < walk.recorded[i].predecessors.len() && (
        #[trigger] walk.recorded[i].predecessors[j]).change_id == change ==> walk.pending.contains(
            walk.recorded[i].predecessors[j].id,
        ) || evolution::is_recorded(walk.recorded, walk.recorded[i].predecessors[j].id)
}

/// The walk before one more step, seen from the list: what is recorded stands at `places` among
/// the first `n` entries, and all of these that belong to the change are recorded.
spec fn is_underway(
    walk: WalkView,
    change: Seq<u8>,
    entries: Seq<EntryView>,
    n: int,
    places: Seq<int>,
) -> bool {
    &&& 0 <= n <= entries.len()
    &&& are_first_places(entries.take(n), change, walk.recorded, places)
    &&& forall|b: int|
        0 <= b < n && (#[trigger] entries[b]).commit.change_id == change ==> evolution::is_recorded(
            walk.recorded,
            entries[b].commit.id,
        )
}

/// One step keeps account of everything.
proof fn lemma_accounted_step(
    walk: WalkView,
    change: Seq<u8>,
    divergent: Seq<CommitView>,
    entry: EntryView,
)
    requires
        is_accounted_for(walk, change, divergent),
    ensures
        is_accounted_for(evolution::visited(walk, change, entry), change, divergent),
{
    let next = evolution::visited(walk, change, entry);
    lemma_step_of_walk(walk, change, entry);
    if entry.commit.change_id == change {
        let id = entry.commit.id;
        assert(evolution::is_recorded(next.recorded, id)) by {
            if !evolution::is_recorded(walk.recorded, id) {
                assert(next.recorded[walk.recorded.len() as int] == entry);
            }
        }
        assert forall|k: Seq<u8>| evolution::is_recorded(
            walk.recorded,
            k,
        ) implies #[trigger] evolution::is_recorded(next.recorded, k) by {
            let i = choose|i: int|
                0 <= i < walk.recorded.len() && (#[trigger] walk.recorded[i]).commit.id == k;
            assert(next.recorded[i] == walk.recorded[i]);
        }
        assert forall|i: int| 0 <= i < divergent.len() implies next.pending.contains(
            (#[trigger] divergent[i]).id,
        ) || evolution::is_recorded(next.recorded, divergent[i].id) by {
            if evolution::is_recorded(walk.recorded, divergent[i].id) {
                assert(evolution::is_recorded(next.recorded, divergent[i].id));
            } else {
                assert(walk.pending.contains(divergent[i].id));
            }
        }
        assert forall|i: int, j: int|
            0 <= i < next.recorded.len() && 0 <= j < next.recorded[i].predecessors.len() && (
            #[trigger] next.recorded[i].predecessors[j]).change_id
                == change implies next.pending.contains(next.recorded[i].predecessors[j].id)
            || evolution::is_recorded(next.recorded, next.recorded[i].predecessors[j].id) by {
            let p = next.recorded[i].predecessors[j].id;
            if i < walk.recorded.len() {
                assert(walk.recorded[i] == next.recorded[i]);
                assert(walk.recorded[i].predecessors[j].change_id == change);
                if evolution::is_recorded(walk.recorded, p) {
                    assert(evolution::is_recorded(next.recorded, p));
                } else {
                    assert(walk.pending.contains(p));
                }
            } else {
                assert(next.recorded[i] == entry);
                assert(entry.predecessors[j].change_id == change);
            }
        }
    }
}

/// One step keeps to the list.
proof fn lemma_underway_step(
    walk: WalkView,
    change: Seq<u8>,
    entries: Seq<EntryView>,
    n: int,
    places: Seq<int>,
) -> (more: Seq<int>)
    requires
        is_underway(walk, change, entries, n, places),
        n < entries.len(),
    ensures
        is_underway(evolution::visited(walk, change, entries[n]), change, entries, n + 1, more),
{
    let entry = entries[n];
    let next = evolution::visited(walk, change, entry);
    let id = entry.commit.id;
    let before = entries.take(n);
    let after = entries.take(n + 1);
    lemma_step_of_walk(walk, change, entry);
    assert forall|b: int| 0 <= b < n implies (#[trigger] after[b]) == before[b] by {}
    let fresh = entry.commit.change_id == change && !evolution::is_recorded(walk.recorded, id);
    let more = if fresh {
        places.push(n)
    } else {
        places
    };
    assert(after[n] == entry);
    assert forall|i: int| 0 <= i < more.len() implies 0 <= #[trigger] more[i] < after.len()
        && after[more[i]] == next.recorded[i] && next.recorded[i].commit.change_id == change by {
        if i < places.len() {
            assert(more[i] == places[i]);
            assert(before[places[i]] == walk.recorded[i]);
        }
    }
    assert forall|i: int, j: int| 0 <= i < j < more.len() implies #[trigger] more[i]
        < #[trigger] more[j] by {
        assert(more[i] == places[i]);
        if j < places.len() {
            assert(more[j] == places[j]);
        }
    }
    assert forall|i: int, b: int|
        0 <= i < more.len() && 0 <= b < #[trigger] more[i] && (
        #[trigger] after[b]).commit.change_id == change implies after[b].commit.id
        != next.recorded[i].commit.id by {
        assert(after[b] == before[b]);
        if i < places.len() {
            assert(more[i] == places[i]);
        } else {
            assert(entries[b] == before[b]);
            assert(evolution::is_recorded(walk.recorded, entries[b].commit.id));
        }
    }
    assert forall|b: int|
        0 <= b < n + 1 && (#[trigger] entries[b]).commit.change_id
            == change implies evolution::is_recorded(next.recorded, entries[b].commit.id) by {
        let k = entries[b].commit.id;
        if evolution::is_recorded(walk.recorded, k) {
            let i = choose|i: int|
                0 <= i < walk.recorded.len() && (#[trigger] walk.recorded[i]).commit.id == k;
            assert(next.recorded[i] == walk.recorded[i]);
        } else {
            assert(b == n);
            assert(next.recorded[walk.recorded.len() as int] == entry);
        }
    }
    more
}

/// Where a walk has led, from any point of it on.
proof fn lemma_outcome_from(
    walk: WalkView,
    change: Seq<u8>,
    divergent: Seq<CommitView>,
    entries: Seq<EntryView>,
    n: int,
    places: Seq<int>,
) -> (end: (int, Seq<int>))
    requires
        is_underway(walk, change, entries, n, places),
        is_accounted_for(walk, change, divergent),
    ensures
        ({
            let outcome = evolution::walked(walk, change, entries.skip(n));
            &&& is_underway(outcome, change, entries, end.0, end.1)
            &&& is_accounted_for(outcome, change, divergent)
            &&& end.0 < entries.len() ==> forall|p: Seq<u8>|
                !(#[trigger] outcome.pending.contains(p))
        }),
    decreases entries.len() - n,
{
    let rest = entries.skip(n);
    if n < entries.len() {
        let entry = entries[n];
        let next = evolution::visited(walk, change, entry);
        let more = lemma_underway_step(walk, change, entries, n, places);
        lemma_accounted_step(walk, change, divergent, entry);
        assert(rest[0] == entry);
        assert(rest =~= seq![entry] + entries.skip(n + 1));
        lemma_walk_in_steps(walk, change, entry, entries.skip(n + 1));
        if evolution::ends_walk(walk, change, entry) {
            lemma_end_of_walk(walk, change, entry);
            lemma_step_of_walk(walk, change, entry);
            assert forall|p: Seq<u8>| !(#[trigger] next.pending.contains(p)) by {}
            (n + 1, more)
        } else {
            lemma_outcome_from(next, change, divergent, entries, n + 1, more)
        }
    } else {
        assert(rest =~= Seq::<EntryView>::empty());
        lemma_walk_in_steps(walk, change, entries[0], Seq::empty());
        (n, places)
    }
}

/// One of the entries is for the commit `id`.
pub open spec fn has_entry_for(entries: Seq<EntryView>, id: Seq<u8>) -> bool {
    exists|i: int| 0 <= i < entries.len() && (#[trigger] entries[i]).commit.id == id
}

/// What a walk records stands in the list, in the same order, and is the first entry for its
/// commit. Either no commit of the change that is listed is left out, or nothing is missing: all
/// divergent commits are recorded, and with each commit those that it evolved from.
pub proof fn lemma_outcome_of_walk(
    divergent: Seq<CommitView>,
    change: Seq<u8>,
    entries: Seq<EntryView>,
) -> (places: Seq<int>)
    ensures
        ({
            let recorded = evolution::walked(
                evolution::at_start(divergent),
                change,
                entries,
            ).recorded;
            &&& are_first_places(entries, change, recorded, places)
            &&& {
                ||| forall|b: int|
                    0 <= b < entries.len() && (#[trigger] entries[b]).commit.change_id == change
                        ==> has_entry_for(recorded, entries[b].commit.id)
                ||| {
                    &&& forall|d: int|
                        0 <= d < divergent.len() ==> has_entry_for(
                            recorded,
                            (#[trigger] divergent[d]).id,
                        )
                    &&& forall|k: int, j: int|
                        0 <= k < recorded.len() && 0 <= j < recorded[k].predecessors.len() && (
                        #[trigger] recorded[k].predecessors[j]).change_id == change
                            ==> has_entry_for(recorded, recorded[k].predecessors[j].id)
                }
            }
        }),
{
    let begin = evolution::at_start(divergent);
    let outcome = evolution::walked(begin, change, entries);
    let recorded = outcome.recorded;
    lemma_start_of_walk(divergent);
    assert(entries.skip(0) =~= entries);
    let (n, places) = lemma_outcome_from(begin, change, divergent, entries, 0, Seq::empty());
    assert forall|i: int| 0 <= i < places.len() implies 0 <= #[trigger] places[i] < entries.len()
        && entries[places[i]] == recorded[i] && recorded[i].commit.change_id == change by {
        assert(entries.take(n)[places[i]] == entries[places[i]]);
    }
    assert forall|i: int, b: int|
        0 <= i < places.len() && 0 <= b < #[trigger] places[i] && (
        #[trigger] entries[b]).commit.change_id == change implies entries[b].commit.id
        != recorded[i].commit.id by {
        assert(entries.take(n)[b] == entries[b]);
    }
    assert(are_first_places(entries, change, recorded, places));
    if n < entries.len() {
        assert forall|d: int| 0 <= d < divergent.len() implies has_entry_for(
            recorded,
            (#[trigger] divergent[d]).id,
        ) by {
            assert(!outcome.pending.contains(divergent[d].id));
            assert(evolution::is_recorded(recorded, divergent[d].id));
        }
        assert forall|k: int, j: int|
            0 <= k < recorded.len() && 0 <= j < recorded[k].predecessors.len() && (
            #[trigger] recorded[k].predecessors[j]).change_id == change implies has_entry_for(
            recorded,
            recorded[k].predecessors[j].id,
        ) by {
            assert(!outcome.pending.contains(recorded[k].predecessors[j].id));
            assert(evolution::is_recorded(recorded, recorded[k].predecessors[j].id));
        }
    } else {
        assert forall|b: int|
            0 <= b < entries.len() && (#[trigger] entries[b]).commit.change_id
                == change implies has_entry_for(recorded, entries[b].commit.id) by {
            assert(evolution::is_recorded(recorded, entries[b].commit.id));
        }
    }
    places
}

/// Nothing after the entry that ends a walk is looked at.
pub proof fn lemma_rest_is_not_walked(
    walk: WalkView,
    change: Seq<u8>,
    entries: Seq<EntryView>,
    rest: Seq<EntryView>,
)
    requires
        entries.len() > 0,
        evolution::ends_walk(
            evolution::walked(walk, change, entries.drop_last()),
            change,
            entries.last(),
        ),
    ensures
        evolution::walked(walk, change, entries + rest) == evolution::walked(walk, change, entries),
    decreases entries.len(),
{
    let first = entries[0];
    let tail = entries.skip(1);
    assert(entries =~= seq![first] + tail);
    assert(entries + rest =~= seq![first] + (tail + rest));
    lemma_walk_in_steps(walk, change, first, tail);
    lemma_walk_in_steps(walk, change, first, tail + rest);
    if entries.len() > 1 {
        let next = evolution::visited(walk, change, first);
        assert(entries.drop_last() =~= seq![first] + tail.drop_last());
        lemma_walk_in_steps(walk, change, first, tail.drop_last());
        if !evolution::ends_walk(walk, change, first) {
            assert(tail.last() == entries.last());
            lemma_rest_is_not_walked(next, change, tail, rest);
        }
    } else {
        assert(entries.drop_last() =~= Seq::<EntryView>::empty());
        assert(entries.last() == first);
    }
}

} // verus!
