//! The evolution of a divergent change.
use vstd::prelude::*;

use crate::commit::Commit;
use crate::commit::CommitEvolutionEntry;
use crate::commit::CommitView;
use crate::commit::EntryView;
use crate::error;
use crate::error::ConvergeError;
use crate::ids::ChangeId;
use crate::ids::CommitId;
use crate::model;
use crate::node;
use crate::node::Node;

verus! {

/// The identifiers of some commits.
pub open spec fn ids_of(commits: Seq<CommitView>) -> Seq<Seq<u8>> {
    commits.map_values(|commit: CommitView| commit.id)
}

/// All commits belong to the change.
pub open spec fn all_belong_to(commits: Seq<CommitView>, change: Seq<u8>) -> bool {
    forall|i: int| 0 <= i < commits.len() ==> (#[trigger] commits[i]).change_id == change
}

/// The identifiers of those predecessors that belong to the change.
pub open spec fn own_predecessors(entry: EntryView, change: Seq<u8>) -> Seq<Seq<u8>> {
    ids_of(entry.predecessors.filter(|commit: CommitView| commit.change_id == change))
}

/// One of the entries is for the commit with the given identifier.
pub open spec fn is_recorded(entries: Seq<EntryView>, id: Seq<u8>) -> bool {
    exists|i: int| 0 <= i < entries.len() && (#[trigger] entries[i]).commit.id == id
}

/// How far a walk over the evolution of a change has come.
#[verifier::ext_equal]
pub struct WalkView {
    /// The commits of the change that were met but not visited yet.
    pub pending: Set<Seq<u8>>,
    /// The entries of the commits that were visited.
    pub recorded: Seq<EntryView>,
}

/// The walk needs the entry: its commit belongs to the change and was not visited before.
pub open spec fn is_wanted(walk: WalkView, change: Seq<u8>, commit: CommitView) -> bool {
    commit.change_id == change && !is_recorded(walk.recorded, commit.id)
}

/// The walk after one more entry. Commits of other changes are passed over. A commit that was
/// visited before is no longer pending. Any other one is recorded, and its own predecessors
/// become pending.
pub open spec fn visited(walk: WalkView, change: Seq<u8>, entry: EntryView) -> WalkView {
    if entry.commit.change_id != change {
        walk
    } else if is_recorded(walk.recorded, entry.commit.id) {
        WalkView { pending: walk.pending.remove(entry.commit.id), recorded: walk.recorded }
    } else {
        WalkView {
            pending: walk.pending.remove(entry.commit.id).union(
                own_predecessors(entry, change).to_set(),
            ),
            recorded: walk.recorded.push(entry),
        }
    }
}

/// The walk is over with this entry: it is the first commit of the change on its side, and
/// nothing is pending.
pub open spec fn ends_walk(walk: WalkView, change: Seq<u8>, entry: EntryView) -> bool {
    &&& is_wanted(walk, change, entry.commit)
    &&& own_predecessors(entry, change).len() == 0
    &&& visited(walk, change, entry).pending.is_empty()
}

/// The walk after the given entries, or after those up to the one that ends it.
pub open spec fn walked(walk: WalkView, change: Seq<u8>, entries: Seq<EntryView>) -> WalkView
    decreases entries.len(),
{
    if entries.len() == 0 {
        walk
    } else {
        let next = visited(walk, change, entries[0]);
        if ends_walk(walk, change, entries[0]) {
            next
        } else {
            walked(next, change, entries.skip(1))
        }
    }
}

/// The walk before the first entry: the divergent commits are pending.
pub open spec fn at_start(divergent: Seq<CommitView>) -> WalkView {
    WalkView { pending: ids_of(divergent).to_set(), recorded: Seq::empty() }
}

/// The entries of different places are for different commits.
pub open spec fn has_distinct_ids(entries: Seq<EntryView>) -> bool {
    forall|i: int, j: int|
        0 <= i < entries.len() && 0 <= j < entries.len() && i != j ==> (
        #[trigger] entries[i]).commit.id != (#[trigger] entries[j]).commit.id
}

/// What a walk does with an entry that it does not need has nothing to do with the predecessors
/// in the entry.
pub proof fn lemma_unwanted(walk: WalkView, change: Seq<u8>, a: EntryView, b: EntryView)
    requires
        a.commit == b.commit,
        !is_wanted(walk, change, a.commit),
    ensures
        visited(walk, change, a) == visited(walk, change, b),
        !ends_walk(walk, change, a),
        !ends_walk(walk, change, b),
{
}

/// A walk records no commit twice and only commits of the change.
pub proof fn lemma_visited(walk: WalkView, change: Seq<u8>, entry: EntryView)
    requires
        has_distinct_ids(walk.recorded),
        forall|i: int|
            0 <= i < walk.recorded.len() ==> (#[trigger] walk.recorded[i]).commit.change_id
                == change,
    ensures
        has_distinct_ids(visited(walk, change, entry).recorded),
        forall|i: int|
            0 <= i < visited(walk, change, entry).recorded.len() ==> (#[trigger] visited(
                walk,
                change,
                entry,
            ).recorded[i]).commit.change_id == change,
{
    let before = walk.recorded;
    let after = visited(walk, change, entry).recorded;
    assert forall|i: int, j: int| 0 <= i < after.len() && 0 <= j < after.len() && i != j implies (
    #[trigger] after[i]).commit.id != (#[trigger] after[j]).commit.id by {
        if i < before.len() {
            assert(before[i] == after[i]);
        }
        if j < before.len() {
            assert(before[j] == after[j]);
        }
    }
    assert forall|i: int| 0 <= i < after.len() implies (#[trigger] after[i]).commit.change_id
        == change by {
        if i < before.len() {
            assert(before[i] == after[i]);
        }
    }
}

/// A walk over any entries records no commit twice and only commits of the change.
pub proof fn lemma_walked(walk: WalkView, change: Seq<u8>, entries: Seq<EntryView>)
    requires
        has_distinct_ids(walk.recorded),
        forall|i: int|
            0 <= i < walk.recorded.len() ==> (#[trigger] walk.recorded[i]).commit.change_id
                == change,
    ensures
        has_distinct_ids(walked(walk, change, entries).recorded),
        forall|i: int|
            0 <= i < walked(walk, change, entries).recorded.len() ==> (#[trigger] walked(
                walk,
                change,
                entries,
            ).recorded[i]).commit.change_id == change,
    decreases entries.len(),
{
    if entries.len() > 0 {
        lemma_visited(walk, change, entries[0]);
        lemma_walked(visited(walk, change, entries[0]), change, entries.skip(1));
    }
}

/// Finds the place of an identifier.
fn find_id(ids: &Vec<CommitId>, id: &CommitId) -> (place: Option<usize>)
    ensures
        match place {
            Some(i) => i < ids@.len() && ids@[i as int]@ == id@,
            None => forall|i: int| 0 <= i < ids@.len() ==> (#[trigger] ids@[i])@ != id@,
        },
{
    let mut i: usize = 0;
    while i < ids.len()
        invariant
            i <= ids@.len(),
            forall|j: int| 0 <= j < i ==> (#[trigger] ids@[j])@ != id@,
        decreases ids@.len() - i,
    {
        if ids[i].same(id) {
            return Some(i);
        }
        i = i + 1;
    }
    None
}

/// Finds the entry of a commit.
pub(crate) fn find_entry(entries: &Vec<CommitEvolutionEntry>, id: &CommitId) -> (place: Option<
    usize,
>)
    ensures
        match place {
            Some(i) => i < entries@.len() && entries@[i as int]@.commit.id == id@,
            None => forall|i: int|
                0 <= i < entries@.len() ==> (#[trigger] entries@[i])@.commit.id != id@,
        },
        place is Some <==> is_recorded(node::shown(entries@), id@),
{
    let ghost shown = node::shown(entries@);
    let mut i: usize = 0;
    while i < entries.len()
        invariant
            i <= entries@.len(),
            shown == node::shown(entries@),
            forall|j: int| 0 <= j < i ==> (#[trigger] entries@[j])@.commit.id != id@,
        decreases entries@.len() - i,
    {
        if entries[i].commit.id.same(id) {
            assert(shown[i as int].commit.id == id@);
            return Some(i);
        }
        i = i + 1;
    }
    assert forall|j: int| 0 <= j < shown.len() implies (#[trigger] shown[j]).commit.id != id@ by {
        assert(shown[j] == entries@[j]@);
    }
    None
}

/// The identifiers of those predecessors that belong to the change.
pub(crate) fn list_own_predecessors(entry: &CommitEvolutionEntry, change_id: &ChangeId) -> (ids:
    Vec<CommitId>)
    ensures
        node::shown(ids@) == own_predecessors(entry@, change_id@),
{
    let ghost all = entry@.predecessors;
    let ghost own = |commit: CommitView| commit.change_id == change_id@;
    let mut ids: Vec<CommitId> = Vec::new();
    let mut i: usize = 0;
    proof {
        reveal(Seq::filter);
        assert(node::shown(ids@) =~= ids_of(all.take(0).filter(own)));
    }
    while i < entry.predecessors.len()
        invariant
            i <= entry.predecessors@.len(),
            all == entry@.predecessors,
            own == (|commit: CommitView| commit.change_id == change_id@),
            node::shown(ids@) == ids_of(all.take(i as int).filter(own)),
        decreases entry.predecessors@.len() - i,
    {
        let commit = &entry.predecessors[i];
        let ghost before = all.take(i as int).filter(own);
        let ghost ids_before = ids@;
        proof {
            reveal(Seq::filter);
            assert(all[i as int] == commit@);
            assert(all.take(i + 1).drop_last() =~= all.take(i as int));
            assert(all.take(i + 1).last() == commit@);
        }
        if commit.change_id.same(change_id) {
            ids.push(commit.id.duplicate());
            assert(node::shown(ids@) =~= node::shown(ids_before).push(commit@.id));
            assert(ids_of(before.push(commit@)) =~= ids_of(before).push(commit@.id));
        }
        i = i + 1;
    }
    assert(all.take(i as int) =~= all);
    ids
}

/// A walk over the evolution of a divergent change, from the divergent commits to the first
/// commits of the change.
pub struct EvolutionWalk {
    /// The identifiers of the divergent commits.
    divergent_commit_ids: Vec<CommitId>,
    /// The change that they belong to.
    change_id: ChangeId,
    /// The commits of the change that were met but not visited yet.
    to_visit: Vec<CommitId>,
    /// The entries of the commits that were visited.
    entries: Vec<CommitEvolutionEntry>,
}

impl View for EvolutionWalk {
    type V = WalkView;

    closed spec fn view(&self) -> WalkView {
        WalkView {
            pending: node::shown(self.to_visit@).to_set(),
            recorded: node::shown(self.entries@),
        }
    }
}

impl EvolutionWalk {
    /// The identifiers of the divergent commits.
    pub closed spec fn divergent(&self) -> Seq<Seq<u8>> {
        node::shown(self.divergent_commit_ids@)
    }

    /// The change that they belong to.
    pub closed spec fn change(&self) -> Seq<u8> {
        self.change_id@
    }

    /// There are divergent commits, and the recorded commits are different ones of their change.
    pub open spec fn wf(&self) -> bool {
        &&& self.divergent().len() > 0
        &&& has_distinct_ids(self@.recorded)
        &&& forall|i: int|
            0 <= i < self@.recorded.len() ==> (#[trigger] self@.recorded[i]).commit.change_id
                == self.change()
    }

    /// Starts a walk from the given divergent commits, which are expected to all have the same
    /// change-id.
    pub fn start(divergent_commits: &[Commit]) -> (walk: Result<Self, ConvergeError>)
        ensures
            ({
                let divergent = node::shown(divergent_commits@);
                if divergent.len() == 0 {
                    error::is_other(walk, "divergent_commits must not be empty"@)
                } else if !all_belong_to(divergent, divergent[0].change_id) {
                    error::is_other(
                        walk,
                        "all divergent commits must have the same change-id"@,
                    )
                } else {
                    &&& walk is Ok
                    &&& walk->Ok_0.wf()
                    &&& walk->Ok_0.divergent() == ids_of(divergent)
                    &&& walk->Ok_0.change() == divergent[0].change_id
                    &&& walk->Ok_0@ == at_start(divergent)
                }
            }),
    {
        let ghost divergent = node::shown(divergent_commits@);
        if let Err(err) = error::validate(
            divergent_commits.len() > 0,
            "divergent_commits must not be empty",
        ) {
            return Err(err);
        }
        let change_id = divergent_commits[0].change_id.duplicate();
        assert(divergent[0].change_id == change_id@);
        let mut divergent_commit_ids: Vec<CommitId> = Vec::new();
        let mut to_visit: Vec<CommitId> = Vec::new();
        let mut i: usize = 0;
        while i < divergent_commits.len()
            invariant
                i <= divergent_commits@.len(),
                divergent == node::shown(divergent_commits@),
                divergent.len() > 0,
                divergent[0].change_id == change_id@,
                divergent_commit_ids@.len() == i,
                to_visit@.len() == i,
                forall|j: int|
                    0 <= j < i ==> (#[trigger] divergent_commit_ids@[j])@ == divergent[j].id,
                forall|j: int| 0 <= j < i ==> (#[trigger] to_visit@[j])@ == divergent[j].id,
                forall|j: int| 0 <= j < i ==> (#[trigger] divergent[j]).change_id == change_id@,
            decreases divergent_commits@.len() - i,
        {
            let commit = &divergent_commits[i];
            assert(divergent[i as int] == commit@);
            if !commit.change_id.same(&change_id) {
                return Err(
                    ConvergeError::Other(
                        "all divergent commits must have the same change-id".to_owned(),
                    ),
                );
            }
            divergent_commit_ids.push(commit.id.duplicate());
            to_visit.push(commit.id.duplicate());
            i = i + 1;
        }
        assert(node::shown(divergent_commit_ids@) =~= ids_of(divergent));
        assert(node::shown(to_visit@) =~= ids_of(divergent));
        let walk = EvolutionWalk {
            divergent_commit_ids,
            change_id,
            to_visit,
            entries: Vec::new(),
        };
        assert(walk@.recorded =~= Seq::<EntryView>::empty());
        Ok(walk)
    }

    /// Tells whether the walk needs the entry of the given commit, with its predecessors.
    pub fn wants(&self, commit: &Commit) -> (wanted: bool)
        ensures
            wanted == is_wanted(self@, self.change(), commit@),
    {
        commit.change_id.same(&self.change_id) && find_entry(&self.entries, &commit.id).is_none()
    }

    /// Takes a commit off the list of those to visit.
    fn settle(&mut self, id: &CommitId)
        ensures
            final(self)@ == (WalkView {
                pending: old(self)@.pending.remove(id@),
                recorded: old(self)@.recorded,
            }),
            final(self).divergent() == old(self).divergent(),
            final(self).change() == old(self).change(),
    {
        let ghost before = node::shown(self.to_visit@);
        let mut rest: Vec<CommitId> = Vec::new();
        let mut i: usize = 0;
        while i < self.to_visit.len()
            invariant
                i <= self.to_visit@.len(),
                before == node::shown(self.to_visit@),
                *self == *old(self),
                forall|j: int|
                    0 <= j < rest@.len() ==> (#[trigger] rest@[j])@ != id@ && before.contains(
                        rest@[j]@,
                    ),
                forall|j: int|
                    0 <= j < i && (#[trigger] before[j]) != id@ ==> node::shown(rest@).contains(
                        before[j],
                    ),
            decreases self.to_visit@.len() - i,
        {
            let ghost rest_before = rest@;
            let other = &self.to_visit[i];
            assert(before[i as int] == other@);
            if !other.same(id) {
                rest.push(other.duplicate());
                assert forall|j: int| 0 <= j < i + 1 && (#[trigger] before[j])
                    != id@ implies node::shown(rest@).contains(before[j]) by {
                    if j < i {
                        let k = choose|k: int|
                            0 <= k < rest_before.len() && node::shown(rest_before)[k] == before[j];
                        assert(node::shown(rest@)[k] == before[j]);
                    } else {
                        assert(node::shown(rest@)[rest_before.len() as int] == before[j]);
                    }
                }
            }
            i = i + 1;
        }
        self.to_visit = rest;
        proof {
            let after = node::shown(rest@);
            assert forall|k: Seq<u8>| after.to_set().contains(k) <==> before.to_set().remove(
                id@,
            ).contains(k) by {
                if after.contains(k) {
                    let j = choose|j: int| 0 <= j < after.len() && after[j] == k;
                    assert(rest@[j]@ == k);
                }
                if before.contains(k) && k != id@ {
                    let j = choose|j: int| 0 <= j < before.len() && before[j] == k;
                    assert(before[j] != id@);
                }
            }
            assert(after.to_set() =~= before.to_set().remove(id@));
        }
    }

    /// Adds commits to those to visit.
    fn await_all(&mut self, ids: Vec<CommitId>)
        ensures
            final(self)@ == (WalkView {
                pending: old(self)@.pending.union(node::shown(ids@).to_set()),
                recorded: old(self)@.recorded,
            }),
            final(self).divergent() == old(self).divergent(),
            final(self).change() == old(self).change(),
    {
        let ghost before = node::shown(self.to_visit@);
        let ghost added = node::shown(ids@);
        let mut i: usize = 0;
        assert(before.to_set() =~= before.to_set().union(added.take(0).to_set()));
        while i < ids.len()
            invariant
                i <= ids@.len(),
                before == node::shown(old(self).to_visit@),
                added == node::shown(ids@),
                self.divergent_commit_ids == old(self).divergent_commit_ids,
                self.change_id == old(self).change_id,
                self.entries == old(self).entries,
                node::shown(self.to_visit@).to_set() == before.to_set().union(
                    added.take(i as int).to_set(),
                ),
            decreases ids@.len() - i,
        {
            let ghost now = node::shown(self.to_visit@);
            let id = &ids[i];
            assert(added[i as int] == id@);
            assert(added.take(i + 1) =~= added.take(i as int).push(id@));
            assert forall|k: Seq<u8>| added.take(i + 1).contains(k) <==> added.take(
                i as int,
            ).contains(k) || k == id@ by {
                model::lemma_pushed(added.take(i as int), id@, k);
            }
            match find_id(&self.to_visit, id) {
                Some(place) => {
                    assert(now[place as int] == id@);
                    assert(now.contains(id@));
                },
                None => {
                    self.to_visit.push(id.duplicate());
                    assert(node::shown(self.to_visit@) =~= now.push(id@));
                    assert forall|k: Seq<u8>| now.push(id@).contains(k) <==> now.contains(k) || k
                        == id@ by {
                        model::lemma_pushed(now, id@, k);
                    }
                },
            }
            assert forall|k: Seq<u8>| now.to_set().contains(k) <==> before.to_set().contains(k)
                || added.take(i as int).contains(k) by {
                assert(now.to_set().contains(k) <==> before.to_set().union(
                    added.take(i as int).to_set(),
                ).contains(k));
            }
            assert(node::shown(self.to_visit@).to_set() =~= before.to_set().union(
                added.take(i + 1).to_set(),
            ));
            i = i + 1;
        }
        assert(added.take(i as int) =~= added);
    }

    /// Goes on to the next entry. Returns whether the walk is over.
    pub fn visit(&mut self, entry: CommitEvolutionEntry) -> (done: bool)
        requires
            old(self).wf(),
        ensures
            final(self).wf(),
            final(self)@ == visited(old(self)@, old(self).change(), entry@),
            done == ends_walk(old(self)@, old(self).change(), entry@),
            final(self).divergent() == old(self).divergent(),
            final(self).change() == old(self).change(),
    {
        proof {
            lemma_visited(self@, self.change(), entry@);
        }
        if !entry.commit.change_id.same(&self.change_id) {
            // Skip commits with unrelated change-ids.
            return false;
        }
        let ghost before = self@;
        self.settle(&entry.commit.id);
        if find_entry(&self.entries, &entry.commit.id).is_some() {
            return false;
        }
        let predecessors = list_own_predecessors(&entry, &self.change_id);
        let is_first = predecessors.len() == 0;
        proof {
            assert(node::shown(predecessors@).len() == predecessors@.len());
        }
        self.await_all(predecessors);
        let ghost entries_before = self.entries@;
        self.entries.push(entry);
        proof {
            assert(node::shown(self.entries@) =~= node::shown(entries_before).push(entry@));
            assert(self@ == visited(before, self.change(), entry@));
            let pending = node::shown(self.to_visit@);
            if pending.len() == 0 {
                assert(pending.to_set() =~= Set::<Seq<u8>>::empty());
            } else {
                assert(pending.contains(pending[0]));
                assert(pending.to_set().contains(pending[0]));
            }
        }
        is_first && self.to_visit.len() == 0
    }

    /// What the walk has found: the identifiers of the divergent commits, their change, and the
    /// recorded entries.
    pub(crate) fn into_parts(self) -> (parts: (Vec<CommitId>, ChangeId, Vec<CommitEvolutionEntry>))
        ensures
            node::shown(parts.0@) == self.divergent(),
            parts.1@ == self.change(),
            node::shown(parts.2@) == self@.recorded,
    {
        (self.divergent_commit_ids, self.change_id, self.entries)
    }
}

} // verus!
