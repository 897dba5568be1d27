//! Commits and what they evolved from.
use vstd::prelude::*;

use crate::ids::ChangeId;
use crate::ids::CommitId;
use crate::node;
use crate::node::Node;

verus! {

/// A point in time, with the offset of the time zone in which it was noted.
#[derive(Clone, Copy, PartialEq, Eq, Hash, Debug)]
pub struct Timestamp {
    /// Milliseconds since the Unix epoch.
    pub millis_since_epoch: i64,
    /// The offset of the time zone, in minutes.
    pub tz_offset: i32,
}

/// Who did something, and when.
#[derive(Clone, PartialEq, Eq, Hash, Debug)]
pub struct Signature {
    /// The name of the person.
    pub name: String,
    /// The email address of the person.
    pub email: String,
    /// When it was done.
    pub timestamp: Timestamp,
}

impl View for Signature {
    type V = (Seq<char>, Seq<char>, Timestamp);

    open spec fn view(&self) -> (Seq<char>, Seq<char>, Timestamp) {
        (self.name@, self.email@, self.timestamp)
    }
}

impl Node for Signature {
    fn same(&self, other: &Self) -> (same: bool) {
        self.name == other.name && self.email == other.email
            && self.timestamp.millis_since_epoch == other.timestamp.millis_since_epoch
            && self.timestamp.tz_offset == other.timestamp.tz_offset
    }

    fn duplicate(&self) -> (copy: Self) {
        Signature {
            name: self.name.clone(),
            email: self.email.clone(),
            timestamp: self.timestamp,
        }
    }
}

/// What a commit stands for.
#[verifier::ext_equal]
pub struct CommitView {
    pub id: Seq<u8>,
    pub change_id: Seq<u8>,
    pub author: (Seq<char>, Seq<char>, Timestamp),
    pub description: Seq<char>,
}

/// A commit, with what converging reads of it.
#[derive(Clone, PartialEq, Eq, Hash, Debug)]
pub struct Commit {
    /// Identifies the commit.
    pub id: CommitId,
    /// The change that the commit belongs to.
    pub change_id: ChangeId,
    /// The author.
    pub author: Signature,
    /// The description.
    pub description: String,
}

impl View for Commit {
    type V = CommitView;

    open spec fn view(&self) -> CommitView {
        CommitView {
            id: self.id@,
            change_id: self.change_id@,
            author: self.author@,
            description: self.description@,
        }
    }
}

impl Node for Commit {
    fn same(&self, other: &Self) -> (same: bool) {
        self.id.same(&other.id) && self.change_id.same(&other.change_id) && self.author.same(
            &other.author,
        ) && self.description == other.description
    }

    fn duplicate(&self) -> (copy: Self) {
        Commit {
            id: self.id.duplicate(),
            change_id: self.change_id.duplicate(),
            author: self.author.duplicate(),
            description: self.description.clone(),
        }
    }
}

/// A commit together with the commits that it evolved from.
#[derive(Clone, PartialEq, Eq, Hash, Debug)]
pub struct CommitEvolutionEntry {
    /// The commit.
    pub commit: Commit,
    /// The commits that it evolved from.
    pub predecessors: Vec<Commit>,
}

/// What an evolution entry stands for.
#[verifier::ext_equal]
pub struct EntryView {
    pub commit: CommitView,
    pub predecessors: Seq<CommitView>,
}

impl View for CommitEvolutionEntry {
    type V = EntryView;

    open spec fn view(&self) -> EntryView {
        EntryView {
            commit: self.commit@,
            predecessors: node::shown(self.predecessors@),
        }
    }
}

impl CommitEvolutionEntry {
    /// An entry with the same contents.
    pub fn duplicate(&self) -> (copy: Self)
        ensures
            copy@ == self@,
    {
        let mut predecessors: Vec<Commit> = Vec::new();
        let mut i: usize = 0;
        while i < self.predecessors.len()
            invariant
                i <= self.predecessors@.len(),
                predecessors@.len() == i,
                forall|j: int|
                    0 <= j < i ==> (#[trigger] predecessors@[j])@ == self.predecessors@[j]@,
            decreases self.predecessors@.len() - i,
        {
            predecessors.push(self.predecessors[i].duplicate());
            i = i + 1;
        }
        let copy = CommitEvolutionEntry { commit: self.commit.duplicate(), predecessors };
        assert(copy@.predecessors =~= self@.predecessors);
        copy
    }
}

} // verus!
