//! Solving divergence.
use vstd::prelude::*;
use vstd::string::StringExecFns;

use crate::commit::Commit;
use crate::commit::CommitEvolutionEntry;
use crate::commit::CommitView;
use crate::commit::Signature;
use crate::converge;
use crate::converge::Author;
use crate::converge::Description;
use crate::error;
use crate::error::ConvergeError;
use crate::evolution;
use crate::ids::ChangeId;
use crate::ids::CommitId;
use crate::ids::TreeId;
use crate::merge::Merge;
use crate::node;
use crate::node::Node;
use crate::truncated;
use crate::truncated::TruncatedEvolutionGraph;
use crate::ui::ConvergeUI;

verus! {

/// Encapsulates the solution to a problem, where the problem may be divergence as a whole, or
/// determining a specific aspect of the solution such as the author, description, parents or tree
/// of the converge commit.
#[derive(Debug, PartialEq, Eq, Clone)]
pub enum ConvergeResult<T> {
    /// The proposed solution.
    Solution(T),
    /// Need user input to find a solution, but there is no ConvergeUI available to provide that
    /// input.
    NeedUserInput(String),
    /// The user aborted the operation.
    Aborted,
}

/// The labels of the terms of a conflict.
#[derive(Debug, PartialEq, Eq, Clone)]
pub struct ConflictLabels {
    /// The labels, one for each term.
    pub labels: Merge<String>,
}

/// A tree, or a conflict between trees.
#[derive(Debug, PartialEq, Eq, Clone)]
pub struct MergedTree {
    /// The identifiers of the trees.
    pub tree_ids: Merge<TreeId>,
    /// Their labels.
    pub labels: ConflictLabels,
}

impl View for MergedTree {
    type V = (Seq<Seq<u8>>, Seq<Seq<char>>);

    open spec fn view(&self) -> (Seq<Seq<u8>>, Seq<Seq<char>>) {
        (self.tree_ids@, self.labels.labels@)
    }
}

impl Node for MergedTree {
    fn same(&self, other: &Self) -> (same: bool) {
        self.tree_ids.same(&other.tree_ids) && self.labels.labels.same(&other.labels.labels)
    }

    fn duplicate(&self) -> (copy: Self) {
        MergedTree {
            tree_ids: self.tree_ids.duplicate(),
            labels: ConflictLabels { labels: self.labels.labels.duplicate() },
        }
    }
}

/// The proposed solution for converging a change.
#[derive(Debug, PartialEq, Eq, Clone)]
pub struct ConvergeCommit {
    /// The change-id of the change being converged.
    pub change_id: ChangeId,
    /// The divergent commits that are being converged.
    pub divergent_commit_ids: Vec<CommitId>,
    /// The proposed author.
    pub author: Signature,
    /// The proposed description.
    pub description: String,
    /// The proposed parents.
    pub parents: Vec<CommitId>,
    /// The proposed tree IDs.
    pub tree_ids: Merge<TreeId>,
    /// Conflict labels.
    pub conflict_labels: ConflictLabels,
}

/// What follows from the answer of the user: the value that they chose, an error, or, if they
/// chose none, the end of the operation.
pub open spec fn follows_from<T>(
    outcome: Result<ConvergeResult<T>, ConvergeError>,
    answer: Result<Option<T>, ConvergeError>,
) -> bool {
    match answer {
        Ok(Some(value)) => outcome == Ok::<_, ConvergeError>(ConvergeResult::Solution(value)),
        Ok(None) => outcome == Ok::<_, ConvergeError>(ConvergeResult::<T>::Aborted),
        Err(err) => outcome == Err::<ConvergeResult<T>, _>(err),
    }
}

/// The attribute cannot be converged without asking the user, and there is nobody to ask.
pub open spec fn needs_input<T>(
    outcome: Result<ConvergeResult<T>, ConvergeError>,
    attribute: Seq<char>,
) -> bool {
    outcome matches Ok(ConvergeResult::NeedUserInput(message)) && message@
        == "cannot converge "@ + attribute + " automatically"@
}

/// Converges an attribute by the answer of the user, if there was anybody to ask.
pub fn converge_interactively<T>(
    answer: Option<Result<Option<T>, ConvergeError>>,
    attribute: &str,
) -> (outcome: Result<ConvergeResult<T>, ConvergeError>)
    ensures
        match answer {
            Some(answer) => follows_from(outcome, answer),
            None => needs_input(outcome, attribute@),
        },
{
    let answer = match answer {
        Some(answer) => answer,
        None => {
            let mut message = "cannot converge ".to_owned();
            message.append(attribute);
            message.append(" automatically");
            return Ok(ConvergeResult::NeedUserInput(message));
        },
    };
    match answer {
        Ok(Some(value)) => Ok(ConvergeResult::Solution(value)),
        Ok(None) => Ok(ConvergeResult::Aborted),
        Err(err) => Err(err),
    }
}

/// The commit that the graph starts with.
pub open spec fn fork_point(graph: TruncatedEvolutionGraph) -> CommitView {
    truncated::commit_of(graph.entries(), graph.flow_graph.start_node@)
}

/// The user is asked for the author, with the divergent commits and the fork point.
pub open spec fn asks_for_author<U: ConvergeUI + ?Sized>(
    converge_ui: &U,
    divergent_commits: &[Commit],
    fork_point: CommitView,
    answer: Result<Option<Signature>, ConvergeError>,
) -> bool {
    exists|commit: Commit|
        commit@ == fork_point && #[trigger] call_ensures(
            U::choose_author,
            (converge_ui, divergent_commits, &commit),
            answer,
        )
}

/// How the author is converged: the value that the divergent commits converge to, or else what
/// the user chose. It fails if there is no base to converge from.
pub open spec fn converges_author<U: ConvergeUI + ?Sized>(
    converge_ui: Option<&U>,
    divergent_commits: &[Commit],
    graph: TruncatedEvolutionGraph,
    outcome: Result<ConvergeResult<Signature>, ConvergeError>,
) -> bool {
    match converge::base_error::<Author>(graph, node::shown(divergent_commits@)) {
        Some(message) => error::is_other(outcome, message),
        None => match converge::converged::<Author>(graph, node::shown(divergent_commits@)) {
            Some(value) => outcome matches Ok(ConvergeResult::Solution(author)) && author@
                == value,
            None => match converge_ui {
                None => needs_input(outcome, "author"@),
                Some(converge_ui) => exists|answer: Result<Option<Signature>, ConvergeError>|
                    asks_for_author(converge_ui, divergent_commits, fork_point(graph), answer)
                        && #[trigger] follows_from(outcome, answer),
            },
        },
    }
}

/// Converges the author of the divergent commits.
pub fn converge_author<U: ConvergeUI + ?Sized>(
    converge_ui: Option<&U>,
    divergent_commits: &[Commit],
    graph: &TruncatedEvolutionGraph,
) -> (outcome: Result<ConvergeResult<Signature>, ConvergeError>)
    requires
        graph.wf(),
    ensures
        converges_author(converge_ui, divergent_commits, *graph, outcome),
{
    match converge::converge::<Author>(divergent_commits, graph) {
        Ok(Some(value)) => {
            return Ok(ConvergeResult::Solution(value));
        },
        Ok(None) => {},
        Err(err) => {
            return Err(err);
        },
    }
    match converge_ui {
        Some(converge_ui) => {
            let fork_point = graph.get_evolution_fork_point();
            let answer = converge_ui.choose_author(divergent_commits, fork_point);
            assert(asks_for_author(
                converge_ui,
                divergent_commits,
                self::fork_point(*graph),
                answer,
            ));
            converge_interactively(Some(answer), "author")
        },
        None => converge_interactively(None, "author"),
    }
}

/// The user is asked for the description, with the divergent commits and the fork point.
pub open spec fn asks_for_description<U: ConvergeUI + ?Sized>(
    converge_ui: &U,
    divergent_commits: &[Commit],
    fork_point: CommitView,
    answer: Result<Option<String>, ConvergeError>,
) -> bool {
    exists|commit: Commit|
        commit@ == fork_point && #[trigger] call_ensures(
            U::merge_description,
            (converge_ui, divergent_commits, &commit),
            answer,
        )
}

/// How the description is converged: the value that the divergent commits converge to, or else
/// what the user made of it. It fails if there is no base to converge from.
pub open spec fn converges_description<U: ConvergeUI + ?Sized>(
    converge_ui: Option<&U>,
    divergent_commits: &[Commit],
    graph: TruncatedEvolutionGraph,
    outcome: Result<ConvergeResult<String>, ConvergeError>,
) -> bool {
    match converge::base_error::<Description>(graph, node::shown(divergent_commits@)) {
        Some(message) => error::is_other(outcome, message),
        None => match converge::converged::<Description>(graph, node::shown(divergent_commits@)) {
            Some(value) => outcome matches Ok(ConvergeResult::Solution(description))
                && description@ == value,
            None => match converge_ui {
                None => needs_input(outcome, "description"@),
                Some(converge_ui) => exists|answer: Result<Option<String>, ConvergeError>|
                    asks_for_description(converge_ui, divergent_commits, fork_point(graph), answer)
                        && #[trigger] follows_from(outcome, answer),
            },
        },
    }
}

/// Converges the description of the divergent commits.
pub fn converge_description<U: ConvergeUI + ?Sized>(
    converge_ui: Option<&U>,
    divergent_commits: &[Commit],
    graph: &TruncatedEvolutionGraph,
) -> (outcome: Result<ConvergeResult<String>, ConvergeError>)
    requires
        graph.wf(),
    ensures
        converges_description(converge_ui, divergent_commits, *graph, outcome),
{
    match converge::converge::<Description>(divergent_commits, graph) {
        Ok(Some(value)) => {
            return Ok(ConvergeResult::Solution(value));
        },
        Ok(None) => {},
        Err(err) => {
            return Err(err);
        },
    }
    match converge_ui {
        Some(converge_ui) => {
            let fork_point = graph.get_evolution_fork_point();
            let answer = converge_ui.merge_description(divergent_commits, fork_point);
            assert(asks_for_description(
                converge_ui,
                divergent_commits,
                self::fork_point(*graph),
                answer,
            ));
            converge_interactively(Some(answer), "description")
        },
        None => converge_interactively(None, "description"),
    }
}

/// A solution whose author and description are settled.
pub struct SettledAttributes {
    /// The truncated evolution graph of the divergent commits.
    pub graph: TruncatedEvolutionGraph,
    /// The proposed author.
    pub author: Signature,
    /// The proposed description.
    pub description: String,
}

/// A solution of which only the tree is missing.
pub struct SettledParents {
    /// The attributes.
    pub attributes: Box<SettledAttributes>,
    /// The proposed parents.
    pub parents: Vec<CommitId>,
}

/// An aspect that has no solution, or an error, ends the search for the whole solution.
pub open spec fn ends_with<S, T>(
    outcome: Result<ConvergeResult<T>, ConvergeError>,
    aspect: Result<ConvergeResult<S>, ConvergeError>,
) -> bool {
    match aspect {
        Ok(ConvergeResult::Solution(_)) => false,
        Ok(ConvergeResult::NeedUserInput(message)) => outcome == Ok::<_, ConvergeError>(
            ConvergeResult::<T>::NeedUserInput(message),
        ),
        Ok(ConvergeResult::Aborted) => outcome == Ok::<_, ConvergeError>(
            ConvergeResult::<T>::Aborted,
        ),
        Err(err) => outcome == Err::<ConvergeResult<T>, _>(err),
    }
}

/// How the description is settled when the author is.
pub open spec fn settles_description<U: ConvergeUI + ?Sized>(
    converge_ui: Option<&U>,
    divergent_commits: &[Commit],
    graph: TruncatedEvolutionGraph,
    author: Signature,
    outcome: Result<ConvergeResult<Box<SettledAttributes>>, ConvergeError>,
) -> bool {
    exists|aspect: Result<ConvergeResult<String>, ConvergeError>| #[trigger]
        converges_description(converge_ui, divergent_commits, graph, aspect) && match aspect {
            Ok(ConvergeResult::Solution(description)) => {
                &&& outcome matches Ok(ConvergeResult::Solution(settled))
                &&& settled.graph == graph
                &&& settled.author == author
                &&& settled.description == description
            },
            _ => ends_with(outcome, aspect),
        }
}

/// How the author is settled, and then the description.
pub open spec fn settles_attributes<U: ConvergeUI + ?Sized>(
    converge_ui: Option<&U>,
    divergent_commits: &[Commit],
    graph: TruncatedEvolutionGraph,
    outcome: Result<ConvergeResult<Box<SettledAttributes>>, ConvergeError>,
) -> bool {
    exists|aspect: Result<ConvergeResult<Signature>, ConvergeError>| #[trigger]
        converges_author(converge_ui, divergent_commits, graph, aspect) && match aspect {
            Ok(ConvergeResult::Solution(author)) => settles_description(
                converge_ui,
                divergent_commits,
                graph,
                author,
                outcome,
            ),
            _ => ends_with(outcome, aspect),
        }
}

/// Converges the author and then the description of the divergent commits.
pub fn converge_attributes<U: ConvergeUI + ?Sized>(
    converge_ui: Option<&U>,
    divergent_commits: &[Commit],
    graph: TruncatedEvolutionGraph,
) -> (outcome: Result<ConvergeResult<Box<SettledAttributes>>, ConvergeError>)
    requires
        graph.wf(),
    ensures
        settles_attributes(converge_ui, divergent_commits, graph, outcome),
{
    let author = match converge_author(converge_ui, divergent_commits, &graph) {
        Ok(ConvergeResult::Solution(author)) => author,
        Ok(ConvergeResult::NeedUserInput(message)) => {
            return Ok(ConvergeResult::NeedUserInput(message));
        },
        Ok(ConvergeResult::Aborted) => {
            return Ok(ConvergeResult::Aborted);
        },
        Err(err) => {
            return Err(err);
        },
    };
    let description = match converge_description(converge_ui, divergent_commits, &graph) {
        Ok(ConvergeResult::Solution(description)) => description,
        Ok(ConvergeResult::NeedUserInput(message)) => {
            let outcome = Ok(ConvergeResult::NeedUserInput(message));
            assert(settles_description(converge_ui, divergent_commits, graph, author, outcome));
            return outcome;
        },
        Ok(ConvergeResult::Aborted) => {
            let outcome = Ok(ConvergeResult::Aborted);
            assert(settles_description(converge_ui, divergent_commits, graph, author, outcome));
            return outcome;
        },
        Err(err) => {
            let outcome = Err(err);
            assert(settles_description(converge_ui, divergent_commits, graph, author, outcome));
            return outcome;
        },
    };
    let ghost given = graph;
    let ghost chosen = author;
    let outcome = Ok(
        ConvergeResult::Solution(Box::new(SettledAttributes { graph, author, description })),
    );
    assert(settles_description(converge_ui, divergent_commits, given, chosen, outcome));
    outcome
}

/// Attempts to solve divergence in the given divergent commits, as far as their attributes go.
/// `evolution` lists the entries of the divergent commits and of the commits that they evolved
/// from, and `root` is the entry of the root commit of the repository.
///
/// `divergent_commits` is expected to have two or more commits, all with the same change-id,
/// otherwise an error is returned.
pub fn converge_change<U: ConvergeUI + ?Sized>(
    converge_ui: Option<&U>,
    divergent_commits: &[Commit],
    evolution: Vec<CommitEvolutionEntry>,
    root: CommitEvolutionEntry,
) -> (outcome: Result<ConvergeResult<Box<SettledAttributes>>, ConvergeError>)
    ensures
        ({
            let divergent = node::shown(divergent_commits@);
            let entries = node::shown(evolution@);
            if divergent.len() <= 1 {
                error::is_other(
                    outcome,
                    "Expected multiple divergent commits, got "@ + error::decimal(divergent.len()),
                )
            } else {
                let recorded = truncated::recorded_from(divergent, entries);
                let change = divergent[0].change_id;
                let ids = evolution::ids_of(divergent);
                match truncated::evolution_error(divergent, entries) {
                    Some(message) => error::is_other(outcome, message),
                    None => exists|graph: TruncatedEvolutionGraph|
                        graph.wf() && graph.shows(recorded, change, ids, root@) && (
                        truncated::all_evolved(recorded, change, ids, root@.commit.id)
                            ==> graph.has_fork_point()) && #[trigger] settles_attributes(
                            converge_ui,
                            divergent_commits,
                            graph,
                            outcome,
                        ),
                }
            }
        }),
{
    if divergent_commits.len() <= 1 {
        let mut message = "Expected multiple divergent commits, got ".to_owned();
        message.append(error::to_decimal(divergent_commits.len()).as_str());
        return Err(ConvergeError::Other(message));
    }
    let graph = match TruncatedEvolutionGraph::new(divergent_commits, evolution, root) {
        Ok(graph) => graph,
        Err(err) => {
            return Err(err);
        },
    };
    converge_attributes(converge_ui, divergent_commits, graph)
}

impl SettledAttributes {
    /// Goes on with the parents, if they have a solution.
    pub fn with_parents(self, parents: ConvergeResult<Vec<CommitId>>) -> (outcome: ConvergeResult<
        Box<SettledParents>,
    >)
        ensures
            match parents {
                ConvergeResult::Solution(parents) => {
                    &&& outcome matches ConvergeResult::Solution(settled)
                    &&& *settled.attributes == self
                    &&& settled.parents == parents
                },
                ConvergeResult::NeedUserInput(message) => outcome == ConvergeResult::<
                    Box<SettledParents>,
                >::NeedUserInput(message),
                ConvergeResult::Aborted => outcome is Aborted,
            },
    {
        match parents {
            ConvergeResult::Solution(parents) => ConvergeResult::Solution(
                Box::new(SettledParents { attributes: Box::new(self), parents }),
            ),
            ConvergeResult::NeedUserInput(message) => ConvergeResult::NeedUserInput(message),
            ConvergeResult::Aborted => ConvergeResult::Aborted,
        }
    }
}

impl SettledParents {
    /// Completes the solution with its tree.
    pub fn with_tree(self, tree: MergedTree) -> (solution: Box<ConvergeCommit>)
        ensures
            solution.change_id == self.attributes.graph.divergent_change_id,
            solution.divergent_commit_ids == self.attributes.graph.divergent_commit_ids,
            solution.author == self.attributes.author,
            solution.description == self.attributes.description,
            solution.parents == self.parents,
            solution.tree_ids == tree.tree_ids,
            solution.conflict_labels == tree.labels,
    {
        let attributes = *self.attributes;
        Box::new(
            ConvergeCommit {
                change_id: attributes.graph.divergent_change_id,
                divergent_commit_ids: attributes.graph.divergent_commit_ids,
                author: attributes.author,
                description: attributes.description,
                parents: self.parents,
                tree_ids: tree.tree_ids,
                conflict_labels: tree.labels,
            },
        )
    }
}

/// A commit to be written.
#[derive(Debug, PartialEq, Eq, Clone)]
pub struct NewCommit {
    /// The parents.
    pub parents: Vec<CommitId>,
    /// The tree.
    pub tree: MergedTree,
    /// The description.
    pub description: String,
    /// The author.
    pub author: Signature,
    /// The commits that it evolved from.
    pub predecessors: Vec<CommitId>,
    /// The change that it belongs to, or `None` for a new one.
    pub change_id: Option<ChangeId>,
}

/// What is to be done to a repository for a solution.
#[derive(Debug, PartialEq, Eq, Clone)]
pub struct SolutionPlan {
    /// The commit to be written.
    pub new_commit: NewCommit,
    /// The commits to be replaced with the new one. Their descendants are to be rebased on top
    /// of it.
    pub rewritten_commit_ids: Vec<CommitId>,
}

/// Adds a new commit for the proposed solution, as a successor of the divergent commits.
///
/// If `rewrite_divergent_commits` is true, the divergent commits are rewritten and their
/// descendants are rebased on top of it. Otherwise the new commit gets a new change-id, and the
/// divergent commits are left unchanged.
pub fn apply_solution(solution: Box<ConvergeCommit>, rewrite_divergent_commits: bool) -> (plan:
    SolutionPlan)
    ensures
        plan.new_commit.parents == solution.parents,
        plan.new_commit.tree.tree_ids == solution.tree_ids,
        plan.new_commit.tree.labels == solution.conflict_labels,
        plan.new_commit.description == solution.description,
        plan.new_commit.author == solution.author,
        plan.new_commit.predecessors == solution.divergent_commit_ids,
        plan.new_commit.change_id == if rewrite_divergent_commits {
            Some(solution.change_id)
        } else {
            None
        },
        node::shown(plan.rewritten_commit_ids@) == if rewrite_divergent_commits {
            node::shown(solution.divergent_commit_ids@)
        } else {
            Seq::empty()
        },
{
    let solution = *solution;
    let rewritten_commit_ids = if rewrite_divergent_commits {
        truncated::copy_ids(&solution.divergent_commit_ids)
    } else {
        let none: Vec<CommitId> = Vec::new();
        assert(node::shown(none@) =~= Seq::<Seq<u8>>::empty());
        none
    };
    let change_id = if rewrite_divergent_commits {
        Some(solution.change_id)
    } else {
        None
    };
    SolutionPlan {
        new_commit: NewCommit {
            parents: solution.parents,
            tree: MergedTree { tree_ids: solution.tree_ids, labels: solution.conflict_labels },
            description: solution.description,
            author: solution.author,
            predecessors: solution.divergent_commit_ids,
            change_id,
        },
        rewritten_commit_ids,
    }
}

} // verus!
