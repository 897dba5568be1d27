//! What divergent changes are.
use vstd::prelude::*;

use crate::changes;
use crate::changes::CommitsByChangeId;
use crate::commit::Commit;
use crate::commit::CommitView;

verus! {

/// Any two commits of one change with different identifiers make the change divergent, and both
/// are found under it. Nothing else makes a change divergent.
pub proof fn lemma_two_commits_make_a_divergent_change(commits: Seq<CommitView>)
    ensures
        forall|i: int, j: int|
            0 <= i < commits.len() && 0 <= j < commits.len() && (#[trigger] commits[i]).change_id
                == (#[trigger] commits[j]).change_id && commits[i].id != commits[j].id ==> {
                let found = changes::divergent_changes(commits);
                &&& found.contains_key(commits[i].change_id)
                &&& found[commits[i].change_id].contains_key(commits[i].id)
                &&& found[commits[i].change_id].contains_key(commits[j].id)
            },
        forall|change: Seq<u8>| #[trigger]
            changes::divergent_changes(commits).contains_key(change) ==> exists|i: int, j: int|
                0 <= i < commits.len() && 0 <= j < commits.len() && (
                #[trigger] commits[i]).change_id == change && (#[trigger] commits[j]).change_id
                    == change && commits[i].id != commits[j].id,
{
    let found = changes::divergent_changes(commits);
    assert forall|i: int, j: int|
        0 <= i < commits.len() && 0 <= j < commits.len() && (#[trigger] commits[i]).change_id == (
        #[trigger] commits[j]).change_id && commits[i].id != commits[j].id implies {
        &&& found.contains_key(commits[i].change_id)
        &&& found[commits[i].change_id].contains_key(commits[i].id)
        &&& found[commits[i].change_id].contains_key(commits[j].id)
    } by {
        let change = commits[i].change_id;
        assert(changes::is_divergent(commits, change));
        assert(changes::has_commit(commits, change, commits[i].id));
        assert(changes::has_commit(commits, change, commits[j].id));
    }
}

/// Under a divergent change each of its commits is found by its identifier, and nothing else.
/// Where several have the same identifier, the last one is found.
pub proof fn lemma_commits_of_a_divergent_change(commits: Seq<CommitView>, change: Seq<u8>)
    requires
        changes::divergent_changes(commits).contains_key(change),
    ensures
        forall|id: Seq<u8>| #[trigger]
            changes::divergent_changes(commits)[change].contains_key(id) <==> exists|i: int|
                0 <= i < commits.len() && (#[trigger] commits[i]).change_id == change
                    && commits[i].id == id,
        forall|i: int|
            0 <= i < commits.len() && (#[trigger] commits[i]).change_id == change && (forall|j: int|
                i < j < commits.len() ==> (#[trigger] commits[j]).change_id != change
                    || commits[j].id != commits[i].id) ==> changes::divergent_changes(
                commits,
            )[change][commits[i].id] == commits[i],
{
    let found = changes::divergent_changes(commits)[change];
    assert forall|i: int|
        0 <= i < commits.len() && (#[trigger] commits[i]).change_id == change && (forall|j: int|
            i < j < commits.len() ==> (#[trigger] commits[j]).change_id != change || commits[j].id
                != commits[i].id) implies found[commits[i].id] == commits[i] by {
        assert(changes::has_commit(commits, change, commits[i].id));
        changes::lemma_last_commit(commits, i);
    }
}

/// More commits never take a divergent change or one of its commits away.
pub proof fn lemma_divergent_changes_grow(commits: Seq<CommitView>, more: Seq<CommitView>)
    ensures
        forall|change: Seq<u8>| #[trigger]
            changes::divergent_changes(commits).contains_key(change) ==> {
                &&& changes::divergent_changes(commits + more).contains_key(change)
                &&& forall|id: Seq<u8>| #[trigger]
                    changes::divergent_changes(commits)[change].contains_key(id)
                        ==> changes::divergent_changes(commits + more)[change].contains_key(id)
            },
{
    let all = commits + more;
    lemma_two_commits_make_a_divergent_change(commits);
    lemma_two_commits_make_a_divergent_change(all);
    assert forall|change: Seq<u8>| #[trigger]
        changes::divergent_changes(commits).contains_key(change) implies {
        &&& changes::divergent_changes(all).contains_key(change)
        &&& forall|id: Seq<u8>| #[trigger]
            changes::divergent_changes(commits)[change].contains_key(id)
                ==> changes::divergent_changes(all)[change].contains_key(id)
    } by {
        let (i, j) = choose|i: int, j: int|
            0 <= i < commits.len() && 0 <= j < commits.len() && (#[trigger] commits[i]).change_id
                == change && (#[trigger] commits[j]).change_id == change && commits[i].id
                != commits[j].id;
        assert(all[i] == commits[i] && all[j] == commits[j]);
        assert(changes::divergent_changes(all).contains_key(change));
        lemma_commits_of_a_divergent_change(commits, change);
        lemma_commits_of_a_divergent_change(all, change);
        assert forall|id: Seq<u8>| #[trigger]
            changes::divergent_changes(commits)[change].contains_key(
                id,
            ) implies changes::divergent_changes(all)[change].contains_key(id) by {
            let k = choose|k: int|
                0 <= k < commits.len() && (#[trigger] commits[k]).change_id == change
                    && commits[k].id == id;
            assert(all[k] == commits[k]);
        }
    }
}

/// Commits with different identifiers are found by their own, and nothing else is found.
pub proof fn lemma_commits_by_id(commits: Seq<Commit>)
    requires
        forall|i: int, j: int|
            0 <= i < commits.len() && 0 <= j < commits.len() && i != j ==> (
            #[trigger] commits[i]).id@ != (#[trigger] commits[j]).id@,
    ensures
        changes::have_distinct_ids(commits),
        forall|i: int|
            0 <= i < commits.len() ==> changes::by_id(commits).contains_key(
                (#[trigger] commits[i]).id@,
            ) && changes::by_id(commits)[commits[i].id@] == commits[i]@,
        forall|id: Seq<u8>| #[trigger]
            changes::by_id(commits).contains_key(id) ==> exists|i: int|
                0 <= i < commits.len() && (#[trigger] commits[i]).id@ == id,
{
    changes::lemma_by_id(commits);
}

/// Commits that the library lists for a change have different identifiers.
pub proof fn lemma_distinct_commits(commits: Seq<Commit>, i: int, j: int)
    requires
        changes::have_distinct_ids(commits),
        0 <= i < j < commits.len(),
    ensures
        commits[i].id@ != commits[j].id@,
{
}

/// Equal maps have the same changes, and under each of them the same commits.
pub proof fn lemma_equal_changes(a: &CommitsByChangeId, b: &CommitsByChangeId)
    ensures
        vstd::std_specs::cmp::PartialEqSpec::eq_spec(a, b) <==> {
            &&& forall|c: Seq<u8>| #[trigger] a@.contains_key(c) <==> b@.contains_key(c)
            &&& forall|c: Seq<u8>, id: Seq<u8>|
                a@.contains_key(c) ==> (#[trigger] a@[c].contains_key(id) <==> b@[c].contains_key(
                    id,
                ))
            &&& forall|c: Seq<u8>, id: Seq<u8>|
                a@.contains_key(c) && #[trigger] a@[c].contains_key(id) ==> a@[c][id] == b@[c][id]
        },
{
    if (forall|c: Seq<u8>| #[trigger] a@.contains_key(c) <==> b@.contains_key(c)) && (forall|
        c: Seq<u8>,
        id: Seq<u8>,
    |
        a@.contains_key(c) ==> (#[trigger] a@[c].contains_key(id) <==> b@[c].contains_key(id)))
        && (forall|c: Seq<u8>, id: Seq<u8>|
        a@.contains_key(c) && #[trigger] a@[c].contains_key(id) ==> a@[c][id] == b@[c][id]) {
        assert forall|c: Seq<u8>| a@.contains_key(c) implies a@[c] == b@[c] by {
            assert(a@[c] =~= b@[c]);
        }
        assert(a@ =~= b@);
    }
}

} // verus!
