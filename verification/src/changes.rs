//! Divergent changes.
use vstd::prelude::*;

use crate::commit::Commit;
use crate::commit::CommitView;
use crate::error::ConvergeError;
use crate::ids::ChangeId;
use crate::node;
use crate::node::Node;
use crate::ui::ConvergeUI;

verus! {

/// One of the commits belongs to the change and has the given identifier.
pub open spec fn has_commit(commits: Seq<CommitView>, change: Seq<u8>, id: Seq<u8>) -> bool {
    exists|i: int|
        0 <= i < commits.len() && (#[trigger] commits[i]).change_id == change && commits[i].id == id
}

/// The last one of the commits that belongs to the change and has the given identifier.
pub open spec fn last_commit(commits: Seq<CommitView>, change: Seq<u8>, id: Seq<u8>) -> CommitView
    recommends
        has_commit(commits, change, id),
    decreases commits.len(),
{
    if commits.len() == 0 || (commits.last().change_id == change && commits.last().id == id) {
        commits.last()
    } else {
        last_commit(commits.drop_last(), change, id)
    }
}

/// The commits that belong to the change, by identifier.
pub open spec fn commits_of(commits: Seq<CommitView>, change: Seq<u8>) -> Map<Seq<u8>, CommitView> {
    Map::new(
        |id: Seq<u8>| has_commit(commits, change, id),
        |id: Seq<u8>| last_commit(commits, change, id),
    )
}

/// Two different ones of the commits belong to the change.
pub open spec fn is_divergent(commits: Seq<CommitView>, change: Seq<u8>) -> bool {
    exists|i: int, j: int|
        0 <= i < commits.len() && 0 <= j < commits.len() && (#[trigger] commits[i]).change_id
            == change && (#[trigger] commits[j]).change_id == change && commits[i].id
            != commits[j].id
}

/// The divergent changes among the commits, each with its commits.
pub open spec fn divergent_changes(commits: Seq<CommitView>) -> Map<
    Seq<u8>,
    Map<Seq<u8>, CommitView>,
> {
    Map::new(
        |change: Seq<u8>| is_divergent(commits, change),
        |change: Seq<u8>| commits_of(commits, change),
    )
}

/// The commits have different identifiers.
pub open spec fn have_distinct_ids(commits: Seq<Commit>) -> bool {
    forall|i: int, j: int|
        0 <= i < commits.len() && 0 <= j < commits.len() && i != j ==> (#[trigger] commits[i]).id@
            != (#[trigger] commits[j]).id@
}

/// One of the commits has the given identifier.
pub open spec fn lists_id(commits: Seq<Commit>, id: Seq<u8>) -> bool {
    exists|i: int| 0 <= i < commits.len() && (#[trigger] commits[i]).id@ == id
}

/// Some commits, by identifier.
pub open spec fn by_id(commits: Seq<Commit>) -> Map<Seq<u8>, CommitView> {
    Map::new(
        |id: Seq<u8>| lists_id(commits, id),
        |id: Seq<u8>|
            commits[choose|i: int|
                0 <= i < commits.len() && (#[trigger] commits[i]).id@ == id]@,
    )
}

/// The changes of some groups.
spec fn group_keys(groups: Seq<(ChangeId, Vec<Commit>)>) -> Seq<Seq<u8>> {
    groups.map_values(|group: (ChangeId, Vec<Commit>)| group.0@)
}

/// Where the group of a change stands.
spec fn group_place(groups: Seq<(ChangeId, Vec<Commit>)>, change: Seq<u8>) -> int {
    choose|i: int| 0 <= i < groups.len() && (#[trigger] groups[i]).0@ == change
}

/// Maps change-ids to commits with that change-id.
#[derive(Debug)]
pub struct CommitsByChangeId {
    /// The changes with their commits: each change once, and each commit once.
    groups: Vec<(ChangeId, Vec<Commit>)>,
}

impl View for CommitsByChangeId {
    type V = Map<Seq<u8>, Map<Seq<u8>, CommitView>>;

    closed spec fn view(&self) -> Map<Seq<u8>, Map<Seq<u8>, CommitView>> {
        Map::new(
            |change: Seq<u8>| group_keys(self.groups@).contains(change),
            |change: Seq<u8>|
                by_id(self.groups@[group_place(self.groups@, change)].1@),
        )
    }
}

impl CommitsByChangeId {
    /// Each change has one group, in which each commit stands once.
    #[verifier::type_invariant]
    spec fn is_grouped(self) -> bool {
        &&& group_keys(self.groups@).no_duplicates()
        &&& forall|i: int|
            0 <= i < self.groups@.len() ==> have_distinct_ids((#[trigger] self.groups@[i]).1@)
    }

    /// The commits of a group are those of its change.
    proof fn lemma_group(&self, i: int)
        requires
            self.is_grouped(),
            0 <= i < self.groups@.len(),
        ensures
            self@.contains_key(self.groups@[i].0@),
            self@[self.groups@[i].0@] == by_id(self.groups@[i].1@),
    {
        let keys = group_keys(self.groups@);
        let change = self.groups@[i].0@;
        assert(keys[i] == change);
        let p = group_place(self.groups@, change);
        assert(keys[p] == change);
    }

    /// How many changes there are.
    pub fn len(&self) -> (len: usize)
        ensures
            len == self@.dom().len(),
            self@.dom().finite(),
    {
        proof {
            use_type_invariant(self);
            let keys = group_keys(self.groups@);
            keys.unique_seq_to_set();
            assert(self@.dom() =~= keys.to_set());
        }
        self.groups.len()
    }

    /// Tells whether there is no change.
    pub fn is_empty(&self) -> (empty: bool)
        ensures
            empty <==> self@.dom().is_empty(),
    {
        proof {
            let keys = group_keys(self.groups@);
            if keys.len() > 0 {
                assert(keys.contains(keys[0]));
                assert(self@.dom().contains(keys[0]));
            } else {
                assert(self@.dom() =~= Set::<Seq<u8>>::empty());
            }
        }
        self.groups.len() == 0
    }

    /// The changes.
    pub fn keys(&self) -> (keys: Vec<&ChangeId>)
        ensures
            node::shown(keys@).no_duplicates(),
            node::shown(keys@).to_set() == self@.dom(),
    {
        proof {
            use_type_invariant(self);
        }
        let mut keys: Vec<&ChangeId> = Vec::new();
        let mut i: usize = 0;
        while i < self.groups.len()
            invariant
                i <= self.groups@.len(),
                keys@.len() == i,
                forall|j: int| 0 <= j < i ==> (#[trigger] keys@[j])@ == self.groups@[j].0@,
            decreases self.groups@.len() - i,
        {
            keys.push(&self.groups[i].0);
            i = i + 1;
        }
        proof {
            let shown = node::shown(keys@);
            assert(shown =~= group_keys(self.groups@));
            assert(shown.to_set() =~= self@.dom());
        }
        keys
    }

    /// The commits of a change, or `None` if there is no such change.
    pub fn get(&self, change_id: &ChangeId) -> (commits: Option<&Vec<Commit>>)
        ensures
            commits is Some <==> self@.contains_key(change_id@),
            commits matches Some(commits) ==> have_distinct_ids(commits@) && by_id(commits@)
                == self@[change_id@],
    {
        proof {
            use_type_invariant(self);
        }
        let mut i: usize = 0;
        while i < self.groups.len()
            invariant
                i <= self.groups@.len(),
                self.is_grouped(),
                forall|j: int| 0 <= j < i ==> (#[trigger] self.groups@[j]).0@ != change_id@,
            decreases self.groups@.len() - i,
        {
            if self.groups[i].0.same(change_id) {
                proof {
                    self.lemma_group(i as int);
                }
                return Some(&self.groups[i].1);
            }
            i = i + 1;
        }
        proof {
            let keys = group_keys(self.groups@);
            if keys.contains(change_id@) {
                let j = choose|j: int| 0 <= j < keys.len() && keys[j] == change_id@;
                assert(self.groups@[j].0@ == change_id@);
            }
        }
        None
    }
}

/// Two lists of commits hold the same commits by identifier just if each commit of one is in the
/// other.
proof fn lemma_same_lists(a: Seq<Commit>, b: Seq<Commit>)
    requires
        have_distinct_ids(a),
        have_distinct_ids(b),
    ensures
        by_id(a) == by_id(b) <==> {
            &&& forall|i: int| 0 <= i < a.len() ==> lists_commit(b, (#[trigger] a[i])@)
            &&& forall|i: int| 0 <= i < b.len() ==> lists_commit(a, (#[trigger] b[i])@)
        },
{
    lemma_by_id(a);
    lemma_by_id(b);
    if by_id(a) == by_id(b) {
        assert forall|i: int| 0 <= i < a.len() implies lists_commit(b, (#[trigger] a[i])@) by {
            let id = a[i].id@;
            assert(by_id(b).contains_key(id));
            let j = choose|j: int| 0 <= j < b.len() && (#[trigger] b[j]).id@ == id;
            assert(b[j]@ == a[i]@);
        }
        assert forall|i: int| 0 <= i < b.len() implies lists_commit(a, (#[trigger] b[i])@) by {
            let id = b[i].id@;
            assert(by_id(a).contains_key(id));
            let j = choose|j: int| 0 <= j < a.len() && (#[trigger] a[j]).id@ == id;
            assert(a[j]@ == b[i]@);
        }
    }
    if (forall|i: int| 0 <= i < a.len() ==> lists_commit(b, (#[trigger] a[i])@)) && (forall|i: int|
        0 <= i < b.len() ==> lists_commit(a, (#[trigger] b[i])@)) {
        assert forall|id: Seq<u8>| by_id(a).contains_key(id) <==> by_id(b).contains_key(id) by {
            if by_id(a).contains_key(id) {
                let i = choose|i: int| 0 <= i < a.len() && (#[trigger] a[i]).id@ == id;
                assert(lists_commit(b, a[i]@));
                let j = choose|j: int| 0 <= j < b.len() && (#[trigger] b[j])@ == a[i]@;
                assert(b[j].id@ == id);
            }
            if by_id(b).contains_key(id) {
                let i = choose|i: int| 0 <= i < b.len() && (#[trigger] b[i]).id@ == id;
                assert(lists_commit(a, b[i]@));
                let j = choose|j: int| 0 <= j < a.len() && (#[trigger] a[j])@ == b[i]@;
                assert(a[j].id@ == id);
            }
        }
        assert forall|id: Seq<u8>| by_id(a).contains_key(id) implies by_id(a)[id]
            == by_id(b)[id] by {
            let i = choose|i: int| 0 <= i < a.len() && (#[trigger] a[i]).id@ == id;
            assert(lists_commit(b, a[i]@));
            let j = choose|j: int| 0 <= j < b.len() && (#[trigger] b[j])@ == a[i]@;
            assert(b[j].id@ == id);
        }
        assert(by_id(a) =~= by_id(b));
    }
}

/// One of the commits is the given one.
spec fn lists_commit(commits: Seq<Commit>, commit: CommitView) -> bool {
    exists|i: int| 0 <= i < commits.len() && (#[trigger] commits[i])@ == commit
}

/// Where identifiers differ, each commit is found by its own.
pub proof fn lemma_by_id(commits: Seq<Commit>)
    requires
        have_distinct_ids(commits),
    ensures
        forall|i: int|
            0 <= i < commits.len() ==> by_id(commits).contains_key((#[trigger] commits[i]).id@)
                && by_id(commits)[commits[i].id@] == commits[i]@,
{
    assert forall|i: int| 0 <= i < commits.len() implies by_id(commits).contains_key(
        (#[trigger] commits[i]).id@,
    ) && by_id(commits)[commits[i].id@] == commits[i]@ by {
        let id = commits[i].id@;
        assert(lists_id(commits, id));
        let p = choose|p: int| 0 <= p < commits.len() && (#[trigger] commits[p]).id@ == id;
        assert(commits[p].id@ == commits[i].id@);
    }
}

/// Tells whether each commit of one list is in the other.
fn is_sublist(list: &Vec<Commit>, other: &Vec<Commit>) -> (within: bool)
    ensures
        within <==> forall|i: int|
            0 <= i < list@.len() ==> lists_commit(other@, (#[trigger] list@[i])@),
{
    let mut i: usize = 0;
    while i < list.len()
        invariant
            i <= list@.len(),
            forall|k: int| 0 <= k < i ==> lists_commit(other@, (#[trigger] list@[k])@),
        decreases list@.len() - i,
    {
        let mut found = false;
        let mut j: usize = 0;
        while j < other.len()
            invariant
                i < list@.len(),
                j <= other@.len(),
                found ==> lists_commit(other@, list@[i as int]@),
                !found ==> forall|k: int|
                    0 <= k < j ==> (#[trigger] other@[k])@ != list@[i as int]@,
            decreases other@.len() - j,
        {
            if list[i].same(&other[j]) {
                found = true;
            }
            j = j + 1;
        }
        if !found {
            assert(!lists_commit(other@, list@[i as int]@));
            return false;
        }
        i = i + 1;
    }
    true
}

/// Copies a list of commits.
fn copy_commits(commits: &Vec<Commit>) -> (copy: Vec<Commit>)
    ensures
        copy@.len() == commits@.len(),
        forall|i: int| 0 <= i < copy@.len() ==> (#[trigger] copy@[i])@ == commits@[i]@,
{
    let mut copy: Vec<Commit> = Vec::new();
    let mut i: usize = 0;
    while i < commits.len()
        invariant
            i <= commits@.len(),
            copy@.len() == i,
            forall|j: int| 0 <= j < i ==> (#[trigger] copy@[j])@ == commits@[j]@,
        decreases commits@.len() - i,
    {
        copy.push(commits[i].duplicate());
        i = i + 1;
    }
    copy
}

impl CommitsByChangeId {
    /// Tells whether every change is one of `other`, with the same commits.
    fn is_submap_of(&self, other: &Self) -> (within: bool)
        ensures
            within <==> forall|c: Seq<u8>| #[trigger]
                self@.contains_key(c) ==> other@.contains_key(c) && self@[c] == other@[c],
    {
        proof {
            use_type_invariant(self);
        }
        let mut i: usize = 0;
        while i < self.groups.len()
            invariant
                i <= self.groups@.len(),
                self.is_grouped(),
                forall|j: int|
                    0 <= j < i ==> other@.contains_key((#[trigger] self.groups@[j]).0@)
                        && self@[self.groups@[j].0@] == other@[self.groups@[j].0@],
            decreases self.groups@.len() - i,
        {
            let ghost change = self.groups@[i as int].0@;
            proof {
                self.lemma_group(i as int);
            }
            let same = match other.get(&self.groups[i].0) {
                Some(commits) => {
                    proof {
                        lemma_same_lists(self.groups@[i as int].1@, commits@);
                    }
                    is_sublist(&self.groups[i].1, commits) && is_sublist(
                        commits,
                        &self.groups[i].1,
                    )
                },
                None => false,
            };
            if !same {
                assert(self@.contains_key(change));
                return false;
            }
            i = i + 1;
        }
        assert forall|c: Seq<u8>| #[trigger] self@.contains_key(c) implies other@.contains_key(c)
            && self@[c] == other@[c] by {
            let keys = group_keys(self.groups@);
            let j = choose|j: int| 0 <= j < keys.len() && keys[j] == c;
            assert(self.groups@[j].0@ == c);
        }
        true
    }
}

impl Clone for CommitsByChangeId {
    fn clone(&self) -> (copy: Self)
        ensures
            copy@ == self@,
    {
        proof {
            use_type_invariant(self);
        }
        let mut groups: Vec<(ChangeId, Vec<Commit>)> = Vec::new();
        let mut i: usize = 0;
        while i < self.groups.len()
            invariant
                i <= self.groups@.len(),
                self.is_grouped(),
                groups@.len() == i,
                forall|j: int|
                    0 <= j < i ==> (#[trigger] groups@[j]).0@ == self.groups@[j].0@
                        && have_distinct_ids(groups@[j].1@) && by_id(groups@[j].1@) == by_id(
                        self.groups@[j].1@,
                    ),
            decreases self.groups@.len() - i,
        {
            let list = copy_commits(&self.groups[i].1);
            proof {
                let given = self.groups@[i as int].1@;
                assert forall|a: int, b: int|
                    0 <= a < list@.len() && 0 <= b < list@.len() && a != b implies (
                #[trigger] list@[a]).id@ != (#[trigger] list@[b]).id@ by {
                    assert(list@[a]@ == given[a]@ && list@[b]@ == given[b]@);
                    assert(given[a].id@ != given[b].id@);
                }
                assert forall|a: int| 0 <= a < list@.len() implies lists_commit(
                    given,
                    (#[trigger] list@[a])@,
                ) by {
                    assert(given[a]@ == list@[a]@);
                }
                assert forall|a: int| 0 <= a < given.len() implies lists_commit(
                    list@,
                    (#[trigger] given[a])@,
                ) by {
                    assert(list@[a]@ == given[a]@);
                }
                lemma_same_lists(list@, given);
            }
            groups.push((self.groups[i].0.duplicate(), list));
            i = i + 1;
        }
        assert(group_keys(groups@) =~= group_keys(self.groups@));
        let copy = CommitsByChangeId { groups };
        proof {
            let keys = group_keys(groups@);
            assert forall|c: Seq<u8>| copy@.contains_key(c) implies copy@[c] == self@[c] by {
                let j = choose|j: int| 0 <= j < keys.len() && keys[j] == c;
                assert(groups@[j].0@ == c);
                copy.lemma_group(j);
                self.lemma_group(j);
            }
            assert(copy@ =~= self@);
        }
        copy
    }
}

/// Two maps are equal if they have the same changes with the same commits.
impl PartialEq for CommitsByChangeId {
    fn eq(&self, other: &Self) -> (equal: bool) {
        let equal = self.is_submap_of(other) && other.is_submap_of(self);
        proof {
            if equal {
                assert forall|c: Seq<u8>| self@.contains_key(c) <==> other@.contains_key(c) by {}
                assert(self@ =~= other@);
            }
        }
        equal
    }
}

impl vstd::std_specs::cmp::PartialEqSpecImpl for CommitsByChangeId {
    open spec fn obeys_eq_spec() -> bool {
        true
    }

    open spec fn eq_spec(&self, other: &Self) -> bool {
        self@ == other@
    }
}

impl Eq for CommitsByChangeId {

}

/// No later commit belongs to the same change and has the same identifier.
pub open spec fn is_last(commits: Seq<CommitView>, k: int) -> bool {
    forall|l: int|
        k < l < commits.len() ==> (#[trigger] commits[l]).change_id != commits[k].change_id
            || commits[l].id != commits[k].id
}

/// The last one of the commits is the one that no later one repeats.
pub proof fn lemma_last_commit(commits: Seq<CommitView>, k: int)
    requires
        0 <= k < commits.len(),
        is_last(commits, k),
    ensures
        last_commit(commits, commits[k].change_id, commits[k].id) == commits[k],
    decreases commits.len(),
{
    let last = commits.len() - 1;
    if k < last {
        let init = commits.drop_last();
        assert(init[k] == commits[k]);
        assert forall|l: int| k < l < init.len() implies (#[trigger] init[l]).change_id
            != init[k].change_id || init[l].id != init[k].id by {
            assert(init[l] == commits[l]);
        }
        assert(commits[last] == commits.last());
        lemma_last_commit(init, k);
    }
}

/// One of the commits is not repeated by a later one.
proof fn lemma_some_last(commits: Seq<CommitView>, change: Seq<u8>, id: Seq<u8>) -> (k: int)
    requires
        has_commit(commits, change, id),
    ensures
        0 <= k < commits.len(),
        commits[k].change_id == change,
        commits[k].id == id,
        is_last(commits, k),
    decreases commits.len(),
{
    let last = commits.len() - 1;
    if commits[last].change_id == change && commits[last].id == id {
        last
    } else {
        let init = commits.drop_last();
        let i = choose|i: int|
            0 <= i < commits.len() && (#[trigger] commits[i]).change_id == change && commits[i].id
                == id;
        assert(init[i] == commits[i]);
        let k = lemma_some_last(init, change, id);
        assert forall|l: int| k < l < commits.len() implies (#[trigger] commits[l]).change_id
            != commits[k].change_id || commits[l].id != commits[k].id by {
            assert(init[k] == commits[k]);
            if l < last {
                assert(init[l] == commits[l]);
            }
        }
        k
    }
}

/// Tells whether a later commit belongs to the same change and has the same identifier.
fn is_repeated(commits: &Vec<Commit>, k: usize) -> (repeated: bool)
    requires
        k < commits@.len(),
    ensures
        repeated == !is_last(node::shown(commits@), k as int),
{
    let ghost shown = node::shown(commits@);
    assert(shown[k as int] == commits@[k as int]@);
    let len: usize = commits.len();
    let mut l: usize = k + 1;
    while l < len
        invariant
            len == commits@.len(),
            k < l <= len,
            shown == node::shown(commits@),
            shown[k as int] == commits@[k as int]@,
            forall|j: int|
                k < j < l ==> (#[trigger] shown[j]).change_id != shown[k as int].change_id
                    || shown[j].id != shown[k as int].id,
        decreases commits@.len() - l,
    {
        assert(shown[l as int] == commits@[l as int]@);
        if commits[l].change_id.same(&commits[k].change_id) && commits[l].id.same(&commits[k].id) {
            return true;
        }
        l = l + 1;
    }
    false
}

/// The commits that belong to a change, each identifier once.
fn list_commits(commits: &Vec<Commit>, change_id: &ChangeId) -> (list: Vec<Commit>)
    ensures
        have_distinct_ids(list@),
        by_id(list@) == commits_of(node::shown(commits@), change_id@),
{
    let ghost shown = node::shown(commits@);
    let ghost change = change_id@;
    let mut list: Vec<Commit> = Vec::new();
    let ghost mut places: Seq<int> = Seq::empty();
    let mut k: usize = 0;
    while k < commits.len()
        invariant
            k <= commits@.len(),
            shown == node::shown(commits@),
            change == change_id@,
            places.len() == list@.len(),
            forall|i: int|
                0 <= i < list@.len() ==> 0 <= #[trigger] places[i] < k && list@[i]@
                    == shown[places[i]] && shown[places[i]].change_id == change && is_last(
                    shown,
                    places[i],
                ),
            forall|i: int, j: int|
                0 <= i < j < list@.len() ==> #[trigger] places[i] < #[trigger] places[j],
            forall|l: int|
                0 <= l < k && (#[trigger] shown[l]).change_id == change && is_last(shown, l)
                    ==> places.contains(l),
        decreases commits@.len() - k,
    {
        let commit = &commits[k];
        let ghost before = places;
        assert(shown[k as int] == commit@);
        if commit.change_id.same(change_id) && !is_repeated(commits, k) {
            list.push(commit.duplicate());
            proof {
                places = places.push(k as int);
                assert forall|l: int|
                    0 <= l < k + 1 && (#[trigger] shown[l]).change_id == change && is_last(
                        shown,
                        l,
                    ) implies places.contains(l) by {
                    if l < k {
                        let i = choose|i: int| 0 <= i < before.len() && before[i] == l;
                        assert(places[i] == l);
                    } else {
                        assert(places[before.len() as int] == l);
                    }
                }
            }
        }
        k = k + 1;
    }
    proof {
        assert forall|i: int, j: int|
            0 <= i < list@.len() && 0 <= j < list@.len() && i != j implies (
        #[trigger] list@[i]).id@ != (#[trigger] list@[j]).id@ by {
            let a = if i < j {
                i
            } else {
                j
            };
            let b = if i < j {
                j
            } else {
                i
            };
            assert(places[a] < places[b]);
            assert(list@[a]@ == shown[places[a]] && list@[b]@ == shown[places[b]]);
            if list@[i].id@ == list@[j].id@ {
                assert(shown[places[b]].id == shown[places[a]].id);
                assert(!is_last(shown, places[a]));
            }
        }
        let found = by_id(list@);
        let wanted = commits_of(shown, change);
        assert forall|id: Seq<u8>| found.contains_key(id) <==> wanted.contains_key(id) by {
            if found.contains_key(id) {
                let i = choose|i: int| 0 <= i < list@.len() && (#[trigger] list@[i]).id@ == id;
                assert(list@[i]@ == shown[places[i]]);
                assert(has_commit(shown, change, id));
            }
            if wanted.contains_key(id) {
                let l = lemma_some_last(shown, change, id);
                assert(places.contains(l));
                let i = choose|i: int| 0 <= i < places.len() && places[i] == l;
                assert(list@[i]@ == shown[places[i]]);
                assert(list@[i].id@ == id);
            }
        }
        assert forall|id: Seq<u8>| found.contains_key(id) implies found[id] == wanted[id] by {
            let i = choose|i: int| 0 <= i < list@.len() && (#[trigger] list@[i]).id@ == id;
            assert(list@[i]@ == shown[places[i]]);
            lemma_last_commit(shown, places[i]);
        }
        assert(found =~= wanted);
    }
    list
}

/// There is more than one commit of a change just if it is divergent.
proof fn lemma_divergent(commits: Seq<CommitView>, change: Seq<u8>, list: Seq<Commit>)
    requires
        have_distinct_ids(list),
        by_id(list) == commits_of(commits, change),
    ensures
        list.len() > 1 <==> is_divergent(commits, change),
{
    let found = by_id(list);
    if list.len() > 1 {
        let a = list[0].id@;
        let b = list[1].id@;
        assert(lists_id(list, a) && lists_id(list, b));
        assert(found.contains_key(a) && found.contains_key(b));
        assert(has_commit(commits, change, a) && has_commit(commits, change, b));
        let i = choose|i: int|
            0 <= i < commits.len() && (#[trigger] commits[i]).change_id == change && commits[i].id
                == a;
        let j = choose|j: int|
            0 <= j < commits.len() && (#[trigger] commits[j]).change_id == change && commits[j].id
                == b;
        assert(commits[i].id != commits[j].id);
    }
    if is_divergent(commits, change) {
        let (i, j) = choose|i: int, j: int|
            0 <= i < commits.len() && 0 <= j < commits.len() && (#[trigger] commits[i]).change_id
                == change && (#[trigger] commits[j]).change_id == change && commits[i].id
                != commits[j].id;
        assert(has_commit(commits, change, commits[i].id));
        assert(has_commit(commits, change, commits[j].id));
        assert(found.contains_key(commits[i].id) && found.contains_key(commits[j].id));
        let a = choose|a: int|
            0 <= a < list.len() && (#[trigger] list[a]).id@ == commits[i].id;
        let b = choose|b: int|
            0 <= b < list.len() && (#[trigger] list[b]).id@ == commits[j].id;
        assert(a != b);
    }
}

/// Returns those of the given commits that are divergent, in the sense that there are two or more
/// of them with the same change-id.
///
/// The commits are keyed by their change-id.
pub fn find_divergent_changes(commits: Vec<Commit>) -> (changes: CommitsByChangeId)
    ensures
        changes@ == divergent_changes(node::shown(commits@)),
{
    let ghost shown = node::shown(commits@);
    let mut groups: Vec<(ChangeId, Vec<Commit>)> = Vec::new();
    let mut k: usize = 0;
    while k < commits.len()
        invariant
            k <= commits@.len(),
            shown == node::shown(commits@),
            group_keys(groups@).no_duplicates(),
            forall|i: int|
                0 <= i < groups@.len() ==> have_distinct_ids((#[trigger] groups@[i]).1@) && by_id(
                    groups@[i].1@,
                ) == commits_of(shown, groups@[i].0@) && is_divergent(shown, groups@[i].0@),
            forall|l: int|
                0 <= l < k && is_divergent(shown, (#[trigger] shown[l]).change_id) ==> group_keys(
                    groups@,
                ).contains(shown[l].change_id),
        decreases commits@.len() - k,
    {
        let change_id = &commits[k].change_id;
        let ghost before = groups@;
        let ghost keys = group_keys(groups@);
        assert(shown[k as int] == commits@[k as int]@);
        let mut known = false;
        let mut i: usize = 0;
        while i < groups.len()
            invariant
                i <= groups@.len(),
                known ==> group_keys(groups@).contains(change_id@),
                !known ==> forall|j: int| 0 <= j < i ==> (#[trigger] groups@[j]).0@ != change_id@,
            decreases groups@.len() - i,
        {
            if groups[i].0.same(change_id) {
                assert(group_keys(groups@)[i as int] == change_id@);
                known = true;
            }
            i = i + 1;
        }
        if !known {
            // Only changes with multiple commits are divergent.
            let list = list_commits(&commits, change_id);
            proof {
                lemma_divergent(shown, change_id@, list@);
                if keys.contains(change_id@) {
                    let j = choose|j: int| 0 <= j < keys.len() && keys[j] == change_id@;
                    assert(groups@[j].0@ == change_id@);
                }
            }
            if list.len() > 1 {
                groups.push((change_id.duplicate(), list));
                proof {
                    assert(group_keys(groups@) =~= keys.push(change_id@));
                    assert forall|l: int|
                        0 <= l < k && is_divergent(
                            shown,
                            (#[trigger] shown[l]).change_id,
                        ) implies group_keys(groups@).contains(shown[l].change_id) by {
                        let j = choose|j: int|
                            0 <= j < keys.len() && keys[j] == shown[l].change_id;
                        assert(group_keys(groups@)[j] == shown[l].change_id);
                    }
                    assert(group_keys(groups@)[before.len() as int] == change_id@);
                }
            }
        }
        k = k + 1;
    }
    let changes = CommitsByChangeId { groups };
    proof {
        let wanted = divergent_changes(shown);
        let keys = group_keys(groups@);
        assert forall|c: Seq<u8>| changes@.contains_key(c) <==> wanted.contains_key(c) by {
            if keys.contains(c) {
                let i = choose|i: int| 0 <= i < keys.len() && keys[i] == c;
                assert(groups@[i].0@ == c);
            }
            if is_divergent(shown, c) {
                let (i, j) = choose|i: int, j: int|
                    0 <= i < shown.len() && 0 <= j < shown.len() && (
                    #[trigger] shown[i]).change_id == c && (#[trigger] shown[j]).change_id == c
                        && shown[i].id != shown[j].id;
                assert(is_divergent(shown, shown[i].change_id));
            }
        }
        assert forall|c: Seq<u8>| changes@.contains_key(c) implies changes@[c] == wanted[c] by {
            let i = choose|i: int| 0 <= i < keys.len() && keys[i] == c;
            assert(groups@[i].0@ == c);
            changes.lemma_group(i);
        }
        assert(changes@ =~= wanted);
    }
    changes
}

/// Prompts the user to choose a change-id to converge, if there are multiple divergent
/// change-ids.
pub fn choose_change<'a, U: ConvergeUI + ?Sized>(
    converge_ui: Option<&U>,
    divergent_changes: &'a CommitsByChangeId,
) -> (chosen: Result<Option<&'a ChangeId>, ConvergeError>)
    ensures
        divergent_changes@.dom().len() == 0 ==> chosen matches Ok(None),
        divergent_changes@.dom().len() == 1 ==> {
            &&& chosen matches Ok(Some(change_id))
            &&& divergent_changes@.dom() == set![change_id@]
        },
        divergent_changes@.dom().len() > 1 ==> match converge_ui {
            Some(converge_ui) => call_ensures(
                U::choose_change,
                (converge_ui, divergent_changes),
                chosen,
            ),
            None => chosen matches Ok(None),
        },
{
    let len: usize = divergent_changes.len();
    if len == 0 {
        return Ok(None);
    }
    if len == 1 {
        let keys = divergent_changes.keys();
        proof {
            let shown = node::shown(keys@);
            shown.unique_seq_to_set();
            assert(shown.len() == 1);
            assert(shown =~= seq![keys@[0]@]);
            assert(shown.to_set() =~= set![keys@[0]@]) by {
                assert forall|c: Seq<u8>| shown.contains(c) <==> c == keys@[0]@ by {
                    assert(shown[0] == keys@[0]@);
                }
            }
        }
        return Ok(Some(keys[0]));
    }
    match converge_ui {
        Some(converge_ui) => converge_ui.choose_change(divergent_changes),
        None => Ok(None),
    }
}

} // verus!
