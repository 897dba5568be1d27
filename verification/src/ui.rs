//! What the user is asked while converging.
use vstd::prelude::*;

use crate::changes::CommitsByChangeId;
use crate::commit::Commit;
use crate::commit::Signature;
use crate::error::ConvergeError;
use crate::ids::ChangeId;
use crate::ids::CommitId;

verus! {

/// Interface for user interactions during converge. This is only available during interactive
/// converge, to communicate with the user whenever input is required.
pub trait ConvergeUI {
    /// Prompts the user to choose a change-id to converge.
    ///
    /// Converge returns immediately if this method returns `None`. This method is only invoked
    /// if there are multiple divergent change-ids.
    fn choose_change<'a>(&self, divergent_changes: &'a CommitsByChangeId) -> Result<
        Option<&'a ChangeId>,
        ConvergeError,
    >;

    /// Prompts the user to choose the author for the solution commit.
    fn choose_author(&self, divergent_commits: &[Commit], evolution_fork_point: &Commit) -> Result<
        Option<Signature>,
        ConvergeError,
    >;

    /// Prompts the user to choose the parents for the solution commit.
    fn choose_parents(&self, divergent_commits: &[Commit]) -> Result<
        Option<Vec<CommitId>>,
        ConvergeError,
    >;

    /// Prompts the user to merge the description.
    fn merge_description(
        &self,
        divergent_commits: &[Commit],
        evolution_fork_point: &Commit,
    ) -> Result<Option<String>, ConvergeError>;
}

} // verus!
