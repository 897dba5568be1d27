//! What calls of the operations that converge a change give back.
use vstd::prelude::*;

use crate::commit::Commit;
use crate::commit::CommitEvolutionEntry;
use crate::commit::EntryView;
use crate::commit::Signature;
use crate::converge;
use crate::converge::Attribute;
use crate::converge::Author;
use crate::converge::Description;
use crate::error;
use crate::error::ConvergeError;
use crate::evolution;
use crate::evolution::EvolutionWalk;
use crate::ids;
use crate::ids::ChangeId;
use crate::ids::CommitId;
use crate::laws::converging;
use crate::laws::evolution as walks;
use crate::laws::histories;
use crate::laws::solutions;
use crate::model;
use crate::node;
use crate::node::Node;
use crate::paths;
use crate::solution;
use crate::solution::ConvergeCommit;
use crate::solution::ConvergeResult;
use crate::solution::MergedTree;
use crate::solution::SettledAttributes;
use crate::solution::SettledParents;
use crate::solution::SolutionPlan;
use crate::truncated;
use crate::truncated::TruncatedEvolutionGraph;
use crate::ui::ConvergeUI;
use crate::values;

verus! {

/// The base of an attribute: the closest value that all steps of the attribute, from its value in
/// the fork point to those in the divergent commits, lead through. There is one just if every node
/// has an entry, there are divergent commits, all of them are in the graph, and steps lead from the
/// value in the fork point to every value.
pub proof fn lemma_base<A: Attribute>(
    graph: &TruncatedEvolutionGraph,
    divergent_commits: &[Commit],
    base: Result<A::Value, ConvergeError>,
    edges: Set<(<A::Value as View>::V, <A::Value as View>::V)>,
    start: int,
    shown: Seq<<A::Value as View>::V>,
)
    requires
        graph.wf(),
        0 <= start < graph.entries().len(),
        graph.entries()[start].commit.id == graph.flow_graph.start_node@,
        converging::are_steps_of::<A>(*graph, edges),
        converging::are_values_in::<A>(*graph, node::shown(divergent_commits@), shown),
        call_ensures(converge::find_dominator_value::<A>, (graph, divergent_commits), base),
    ensures
        base is Ok <==> {
            &&& converging::has_all_entries(*graph)
            &&& divergent_commits@.len() > 0
            &&& forall|t: int|
                0 <= t < divergent_commits@.len() ==> walks::has_entry_for(
                    graph.entries(),
                    (#[trigger] divergent_commits@[t])@.id,
                )
            &&& forall|e: int|
                0 <= e < graph.entries().len() ==> paths::reaches(
                    edges,
                    A::shown(graph.entries()[start].commit),
                    A::shown((#[trigger] graph.entries()[e]).commit),
                )
        },
        base matches Ok(base) ==> paths::is_closest_common_dominator(
            edges,
            A::shown(graph.entries()[start].commit),
            base@,
            shown,
        ),
{
    let commits = node::shown(divergent_commits@);
    assert(commits.len() == divergent_commits@.len());
    assert(forall|i: int|
        0 <= i < commits.len() ==> commits[i] == (#[trigger] divergent_commits@[i])@);
    converging::lemma_base_error::<A>(*graph, commits, edges, start);
    if base is Ok {
        converging::lemma_base_value::<A>(*graph, commits, base->Ok_0@, edges, start, shown);
        assert forall|t: int| 0 <= t < divergent_commits@.len() implies walks::has_entry_for(
            graph.entries(),
            (#[trigger] divergent_commits@[t])@.id,
        ) by {
            assert(walks::has_entry_for(graph.entries(), commits[t].id));
        }
    } else {
        if forall|t: int|
            0 <= t < divergent_commits@.len() ==> walks::has_entry_for(
                graph.entries(),
                (#[trigger] divergent_commits@[t])@.id,
            ) {
            assert forall|t: int| 0 <= t < commits.len() implies walks::has_entry_for(
                graph.entries(),
                (#[trigger] commits[t]).id,
            ) by {
                assert(walks::has_entry_for(graph.entries(), divergent_commits@[t]@.id));
            }
        }
    }
}

/// What the divergent commits converge to: a value that one of them has, where each of them has
/// the base or that value. There is none just if two of them differ from the base and from each
/// other. Without a base it fails, with the error of the search for it.
pub proof fn lemma_convergence<A: Attribute>(
    divergent_commits: &[Commit],
    graph: &TruncatedEvolutionGraph,
    base: Result<A::Value, ConvergeError>,
    value: Result<Option<A::Value>, ConvergeError>,
)
    requires
        graph.wf(),
        call_ensures(converge::find_dominator_value::<A>, (graph, divergent_commits), base),
        call_ensures(converge::converge::<A>, (divergent_commits, graph), value),
    ensures
        match base {
            Err(err) => {
                &&& err matches ConvergeError::Other(reason)
                &&& value matches Err(ConvergeError::Other(text))
                &&& text@ == reason@
            },
            Ok(base) => value is Ok && match value->Ok_0 {
                Some(value) => {
                    &&& exists|i: int|
                        0 <= i < divergent_commits@.len() && A::shown(
                            (#[trigger] divergent_commits@[i])@,
                        ) == value@
                    &&& forall|i: int|
                        0 <= i < divergent_commits@.len() ==> A::shown(
                            (#[trigger] divergent_commits@[i])@,
                        ) == base@ || A::shown(divergent_commits@[i]@) == value@
                },
                None => exists|i: int, j: int|
                    0 <= i < divergent_commits@.len() && 0 <= j < divergent_commits@.len()
                        && A::shown((#[trigger] divergent_commits@[i])@) != A::shown(
                        (#[trigger] divergent_commits@[j])@,
                    ) && A::shown(divergent_commits@[i]@) != base@ && A::shown(
                        divergent_commits@[j]@,
                    ) != base@,
            },
        },
{
    let commits = node::shown(divergent_commits@);
    assert(commits.len() == divergent_commits@.len());
    assert(forall|i: int|
        0 <= i < commits.len() ==> commits[i] == (#[trigger] divergent_commits@[i])@);
    if let Ok(base) = base {
        converging::lemma_converged::<A>(*graph, commits, base@);
        match value->Ok_0 {
            Some(value) => {
                let i = choose|i: int|
                    0 <= i < commits.len() && A::shown(#[trigger] commits[i]) == value@;
                assert(A::shown(divergent_commits@[i]@) == value@);
                assert forall|i: int| 0 <= i < divergent_commits@.len() implies A::shown(
                    (#[trigger] divergent_commits@[i])@,
                ) == base@ || A::shown(divergent_commits@[i]@) == value@ by {
                    assert(A::shown(commits[i]) == base@ || A::shown(commits[i]) == value@);
                }
            },
            None => {
                let (i, j) = choose|i: int, j: int|
                    0 <= i < commits.len() && 0 <= j < commits.len() && A::shown(
                        #[trigger] commits[i],
                    ) != A::shown(#[trigger] commits[j]) && A::shown(commits[i]) != base@
                        && A::shown(commits[j]) != base@;
                assert(divergent_commits@[i]@ == commits[i]);
                assert(divergent_commits@[j]@ == commits[j]);
            },
        }
    }
}

/// Whether there is a user or not, an author that the commits agree on is the solution. If they
/// differ, the user decides, and without a user there is no solution. The user is not asked
/// otherwise.
pub proof fn lemma_author<U: ConvergeUI + ?Sized>(
    converge_ui: Option<&U>,
    divergent_commits: &[Commit],
    graph: &TruncatedEvolutionGraph,
    base: Signature,
    outcome: Result<ConvergeResult<Signature>, ConvergeError>,
)
    requires
        graph.wf(),
        call_ensures(converge::find_dominator_value::<Author>, (graph, divergent_commits), Ok(base)),
        call_ensures(
            solution::converge_author::<U>,
            (converge_ui, divergent_commits, graph),
            outcome,
        ),
    ensures
        forall|value: <Signature as View>::V| #[trigger]
            solutions::agree_on_author(divergent_commits@, base@, value) ==> (outcome matches Ok(
                ConvergeResult::Solution(author),
            ) && author@ == value),
        !solutions::differ_on_author(divergent_commits@, base@) ==> (outcome matches Ok(
            ConvergeResult::Solution(author),
        ) && solutions::agree_on_author(divergent_commits@, base@, author@)),
        solutions::differ_on_author(divergent_commits@, base@) ==> match outcome {
            Ok(ConvergeResult::Solution(author)) => solutions::user_chose_author(
                converge_ui,
                divergent_commits,
                *graph,
                Ok(Some(author)),
            ),
            Ok(ConvergeResult::NeedUserInput(message)) => converge_ui is None && message@
                == "cannot converge author automatically"@,
            Ok(ConvergeResult::Aborted) => solutions::user_chose_author(
                converge_ui,
                divergent_commits,
                *graph,
                Ok(None),
            ),
            Err(err) => solutions::user_chose_author(
                converge_ui,
                divergent_commits,
                *graph,
                Err(err),
            ),
        },
{
    solutions::lemma_author(converge_ui, divergent_commits, *graph, outcome, base@);
}

/// Whether there is a user or not, a description that the commits agree on is the solution. If
/// they differ, the user decides, and without a user there is no solution. The user is not asked
/// otherwise.
pub proof fn lemma_description<U: ConvergeUI + ?Sized>(
    converge_ui: Option<&U>,
    divergent_commits: &[Commit],
    graph: &TruncatedEvolutionGraph,
    base: String,
    outcome: Result<ConvergeResult<String>, ConvergeError>,
)
    requires
        graph.wf(),
        call_ensures(
            converge::find_dominator_value::<Description>,
            (graph, divergent_commits),
            Ok(base),
        ),
        call_ensures(
            solution::converge_description::<U>,
            (converge_ui, divergent_commits, graph),
            outcome,
        ),
    ensures
        forall|value: Seq<char>| #[trigger]
            solutions::agree_on_description(divergent_commits@, base@, value) ==> (
            outcome matches Ok(ConvergeResult::Solution(description)) && description@ == value),
        !solutions::differ_on_description(divergent_commits@, base@) ==> (outcome matches Ok(
            ConvergeResult::Solution(description),
        ) && solutions::agree_on_description(divergent_commits@, base@, description@)),
        solutions::differ_on_description(divergent_commits@, base@) ==> match outcome {
            Ok(ConvergeResult::Solution(description)) => solutions::user_merged_description(
                converge_ui,
                divergent_commits,
                *graph,
                Ok(Some(description)),
            ),
            Ok(ConvergeResult::NeedUserInput(message)) => converge_ui is None && message@
                == "cannot converge description automatically"@,
            Ok(ConvergeResult::Aborted) => solutions::user_merged_description(
                converge_ui,
                divergent_commits,
                *graph,
                Ok(None),
            ),
            Err(err) => solutions::user_merged_description(
                converge_ui,
                divergent_commits,
                *graph,
                Err(err),
            ),
        },
{
    solutions::lemma_description(converge_ui, divergent_commits, *graph, outcome, base@);
}

/// Without a base neither the author nor the description is converged: it fails, with the error of
/// the search for the base.
pub proof fn lemma_without_base<U: ConvergeUI + ?Sized>(
    converge_ui: Option<&U>,
    divergent_commits: &[Commit],
    graph: &TruncatedEvolutionGraph,
    author_error: ConvergeError,
    description_error: ConvergeError,
    by_author: Result<ConvergeResult<Signature>, ConvergeError>,
    by_description: Result<ConvergeResult<String>, ConvergeError>,
)
    requires
        call_ensures(
            converge::find_dominator_value::<Author>,
            (graph, divergent_commits),
            Err(author_error),
        ),
        call_ensures(
            converge::find_dominator_value::<Description>,
            (graph, divergent_commits),
            Err(description_error),
        ),
        call_ensures(
            solution::converge_author::<U>,
            (converge_ui, divergent_commits, graph),
            by_author,
        ),
        call_ensures(
            solution::converge_description::<U>,
            (converge_ui, divergent_commits, graph),
            by_description,
        ),
    ensures
        author_error matches ConvergeError::Other(reason) && (by_author matches Err(
            ConvergeError::Other(text),
        ) && text@ == reason@),
        description_error matches ConvergeError::Other(reason) && (by_description matches Err(
            ConvergeError::Other(text),
        ) && text@ == reason@),
{
}

/// What is settled of a solution. It has the author and the description that the commits agree on,
/// or, where they differ, those that the user gave. Without a user the first of the two on which
/// they differ is what input is needed for. With one, they end the search by giving none.
pub proof fn lemma_attributes<U: ConvergeUI + ?Sized>(
    converge_ui: Option<&U>,
    divergent_commits: &[Commit],
    graph: TruncatedEvolutionGraph,
    author_base: Signature,
    description_base: String,
    outcome: Result<ConvergeResult<Box<SettledAttributes>>, ConvergeError>,
)
    requires
        graph.wf(),
        call_ensures(
            converge::find_dominator_value::<Author>,
            (&graph, divergent_commits),
            Ok(author_base),
        ),
        call_ensures(
            converge::find_dominator_value::<Description>,
            (&graph, divergent_commits),
            Ok(description_base),
        ),
        call_ensures(
            solution::converge_attributes::<U>,
            (converge_ui, divergent_commits, graph),
            outcome,
        ),
    ensures
        ({
            let commits = divergent_commits@;
            let author_differs = solutions::differ_on_author(commits, author_base@);
            let description_differs = solutions::differ_on_description(
                commits,
                description_base@,
            );
            match outcome {
                Ok(ConvergeResult::Solution(settled)) => {
                    &&& settled.graph == graph
                    &&& if author_differs {
                        solutions::user_chose_author(
                            converge_ui,
                            divergent_commits,
                            graph,
                            Ok(Some(settled.author)),
                        )
                    } else {
                        solutions::agree_on_author(commits, author_base@, settled.author@)
                    }
                    &&& if description_differs {
                        solutions::user_merged_description(
                            converge_ui,
                            divergent_commits,
                            graph,
                            Ok(Some(settled.description)),
                        )
                    } else {
                        solutions::agree_on_description(
                            commits,
                            description_base@,
                            settled.description@,
                        )
                    }
                },
                Ok(ConvergeResult::NeedUserInput(message)) => {
                    &&& converge_ui is None
                    &&& if author_differs {
                        message@ == "cannot converge author automatically"@
                    } else {
                        description_differs && message@
                            == "cannot converge description automatically"@
                    }
                },
                Ok(ConvergeResult::Aborted) => {
                    ||| author_differs && solutions::user_chose_author(
                        converge_ui,
                        divergent_commits,
                        graph,
                        Ok(None),
                    )
                    ||| description_differs && solutions::user_merged_description(
                        converge_ui,
                        divergent_commits,
                        graph,
                        Ok(None),
                    )
                },
                Err(err) => {
                    ||| author_differs && solutions::user_chose_author(
                        converge_ui,
                        divergent_commits,
                        graph,
                        Err(err),
                    )
                    ||| description_differs && solutions::user_merged_description(
                        converge_ui,
                        divergent_commits,
                        graph,
                        Err(err),
                    )
                },
            }
        }),
{
    solutions::lemma_attributes(
        converge_ui,
        divergent_commits,
        graph,
        outcome,
        author_base@,
        description_base@,
    );
}

/// Fewer than two commits are no divergence, and commits of several changes have no common
/// solution.
pub proof fn lemma_no_divergence<U: ConvergeUI + ?Sized>(
    converge_ui: Option<&U>,
    divergent_commits: &[Commit],
    entries: Vec<CommitEvolutionEntry>,
    root: CommitEvolutionEntry,
    outcome: Result<ConvergeResult<Box<SettledAttributes>>, ConvergeError>,
)
    requires
        call_ensures(
            solution::converge_change::<U>,
            (converge_ui, divergent_commits, entries, root),
            outcome,
        ),
    ensures
        divergent_commits@.len() <= 1 ==> (outcome matches Err(ConvergeError::Other(text)) && text@
            == "Expected multiple divergent commits, got "@ + error::decimal(
            divergent_commits@.len(),
        )),
        divergent_commits@.len() > 1 && (exists|i: int, j: int|
            0 <= i < divergent_commits@.len() && 0 <= j < divergent_commits@.len() && (
            #[trigger] divergent_commits@[i])@.change_id != (
            #[trigger] divergent_commits@[j])@.change_id) ==> (outcome matches Err(
            ConvergeError::Other(text),
        ) && text@ == "all divergent commits must have the same change-id"@),
{
    let commits = node::shown(divergent_commits@);
    assert(commits.len() == divergent_commits@.len());
    assert(forall|i: int|
        0 <= i < commits.len() ==> commits[i] == (#[trigger] divergent_commits@[i])@);
    histories::lemma_no_graph(commits, node::shown(entries@));
    if divergent_commits@.len() > 1 && exists|i: int, j: int|
        0 <= i < divergent_commits@.len() && 0 <= j < divergent_commits@.len() && (
        #[trigger] divergent_commits@[i])@.change_id != (
        #[trigger] divergent_commits@[j])@.change_id {
        let (i, j) = choose|i: int, j: int|
            0 <= i < divergent_commits@.len() && 0 <= j < divergent_commits@.len() && (
            #[trigger] divergent_commits@[i])@.change_id != (
            #[trigger] divergent_commits@[j])@.change_id;
        assert(commits[i].change_id != commits[j].change_id);
    }
}

/// Commits that evolved from where the change began, and that have the same author and the same
/// description, converge to these, whether there is a user or not.
pub proof fn lemma_agreement<U: ConvergeUI + ?Sized>(
    converge_ui: Option<&U>,
    divergent_commits: &[Commit],
    entries: Vec<CommitEvolutionEntry>,
    root: CommitEvolutionEntry,
    outcome: Result<ConvergeResult<Box<SettledAttributes>>, ConvergeError>,
    recorded: Seq<EntryView>,
    change: Seq<u8>,
    begin: Seq<u8>,
    author: <Signature as View>::V,
    description: Seq<char>,
)
    requires
        call_ensures(
            solution::converge_change::<U>,
            (converge_ui, divergent_commits, entries, root),
            outcome,
        ),
        divergent_commits@.len() > 1,
        recorded == evolution::walked(
            evolution::at_start(node::shown(divergent_commits@)),
            change,
            node::shown(entries@),
        ).recorded,
        histories::is_beginning(recorded, change, root@.commit.id, begin),
        exists|i: int| #[trigger] histories::begins_at(recorded, change, i),
        forall|i: int|
            0 <= i < divergent_commits@.len() ==> {
                &&& (#[trigger] divergent_commits@[i])@.change_id == change
                &&& divergent_commits@[i]@.author == author
                &&& divergent_commits@[i]@.description == description
                &&& paths::reaches(
                    histories::steps(recorded, change, root@.commit.id),
                    begin,
                    divergent_commits@[i]@.id,
                )
            },
    ensures
        outcome is Ok,
        outcome->Ok_0 is Solution,
        ({
            let settled = outcome->Ok_0->Solution_0;
            &&& settled.author@ == author
            &&& settled.description@ == description
            &&& settled.graph.divergent_change_id@ == change
            &&& settled.graph.divergent() == evolution::ids_of(node::shown(divergent_commits@))
            &&& settled.graph.has_fork_point()
        }),
{
    let commits = node::shown(divergent_commits@);
    let all = node::shown(entries@);
    let wanted = evolution::ids_of(commits);
    let root_id = root@.commit.id;
    assert(commits.len() == divergent_commits@.len());
    assert(forall|i: int|
        0 <= i < commits.len() ==> #[trigger] commits[i] == divergent_commits@[i]@);
    assert(divergent_commits@[0]@.change_id == change);
    assert(commits[0].change_id == change);
    histories::lemma_no_graph(commits, all);
    assert forall|i: int, j: int| 0 <= i < commits.len() && 0 <= j < commits.len() implies (
    #[trigger] commits[i]).change_id == (#[trigger] commits[j]).change_id by {
        assert(divergent_commits@[i]@.change_id == change);
        assert(divergent_commits@[j]@.change_id == change);
    }
    assert(truncated::evolution_error(commits, all) is None);
    walks::lemma_start_of_walk(commits);
    evolution::lemma_walked(evolution::at_start(commits), change, all);
    histories::lemma_edges_are_steps(recorded, change, root_id);
    histories::lemma_beginning(recorded, change, root_id, begin);
    assert forall|i: int| 0 <= i < wanted.len() implies paths::reaches(
        model::edge_set(truncated::evolution_graph(recorded, change, root_id)),
        truncated::evolution_start(recorded, change, root_id),
        #[trigger] wanted[i],
    ) by {
        assert(wanted[i] == divergent_commits@[i]@.id);
    }
    assert(truncated::all_evolved(recorded, change, wanted, root_id));
    let graph = choose|graph: TruncatedEvolutionGraph|
        graph.wf() && graph.shows(recorded, change, wanted, root@) && (truncated::all_evolved(
            recorded,
            change,
            wanted,
            root_id,
        ) ==> graph.has_fork_point()) && #[trigger] solution::settles_attributes(
            converge_ui,
            divergent_commits,
            graph,
            outcome,
        );
    assert(converge::are_in_graph(graph, commits)) by {
        assert forall|i: int| 0 <= i < commits.len() implies model::has_node(
            graph.flow_graph.graph@,
            (#[trigger] commits[i]).id,
        ) by {
            assert(wanted[i] == commits[i].id);
            assert(model::has_node(graph.flow_graph.graph@, graph.divergent()[i]));
        }
    }
    converge::lemma_base_value_exists::<Author>(graph, commits);
    converge::lemma_base_value_exists::<Description>(graph, commits);
    solutions::lemma_settled_by_the_same(
        converge_ui,
        divergent_commits,
        graph,
        outcome,
        author,
        description,
    );
}

/// A graph is built just if there are divergent commits, they belong to one change, and some
/// recorded commit is a beginning. Its edges are the steps of the evolution: those from the fork
/// point on, if all divergent commits evolved from the beginning, or else all of them.
pub proof fn lemma_graph(
    divergent_commits: &[Commit],
    entries: Vec<CommitEvolutionEntry>,
    root: CommitEvolutionEntry,
    graph: Result<TruncatedEvolutionGraph, ConvergeError>,
    recorded: Seq<EntryView>,
    change: Seq<u8>,
    begin: Seq<u8>,
)
    requires
        call_ensures(TruncatedEvolutionGraph::new, (divergent_commits, entries, root), graph),
        divergent_commits@.len() > 0,
        divergent_commits@[0]@.change_id == change,
        recorded == evolution::walked(
            evolution::at_start(node::shown(divergent_commits@)),
            change,
            node::shown(entries@),
        ).recorded,
        histories::is_beginning(recorded, change, root@.commit.id, begin),
    ensures
        graph is Ok <==> {
            &&& forall|i: int|
                0 <= i < divergent_commits@.len() ==> (#[trigger] divergent_commits@[i])@.change_id
                    == change
            &&& exists|i: int| #[trigger] histories::begins_at(recorded, change, i)
        },
        graph matches Ok(graph) ==> {
            let all = histories::steps(recorded, change, root@.commit.id);
            let flow = graph.flow_graph.graph@;
            let start = graph.flow_graph.start_node@;
            let wanted = evolution::ids_of(node::shown(divergent_commits@));
            &&& graph.wf()
            &&& graph.divergent() == wanted
            &&& graph.divergent_change_id@ == change
            &&& if forall|i: int|
                0 <= i < divergent_commits@.len() ==> paths::reaches(
                    all,
                    begin,
                    (#[trigger] divergent_commits@[i])@.id,
                ) {
                &&& graph.has_fork_point()
                &&& paths::is_closest_common_dominator(all, begin, start, wanted)
                &&& forall|x: Seq<u8>, k: Seq<u8>| #[trigger]
                    model::has_edge(flow, x, k) <==> paths::reaches(all, start, x) && all.contains(
                        (x, k),
                    )
            } else {
                &&& start == begin
                &&& forall|x: Seq<u8>, k: Seq<u8>| #[trigger]
                    model::has_edge(flow, x, k) <==> all.contains((x, k))
            }
        },
{
    let commits = node::shown(divergent_commits@);
    let all_entries = node::shown(entries@);
    let wanted = evolution::ids_of(commits);
    let root_id = root@.commit.id;
    let all = histories::steps(recorded, change, root_id);
    assert(commits.len() == divergent_commits@.len());
    assert(forall|i: int|
        0 <= i < commits.len() ==> commits[i] == (#[trigger] divergent_commits@[i])@);
    assert(commits[0].change_id == change);
    histories::lemma_no_graph(commits, all_entries);
    if forall|i: int|
        0 <= i < divergent_commits@.len() ==> (#[trigger] divergent_commits@[i])@.change_id
            == change {
        assert forall|i: int, j: int| 0 <= i < commits.len() && 0 <= j < commits.len() implies (
        #[trigger] commits[i]).change_id == (#[trigger] commits[j]).change_id by {
            assert(divergent_commits@[i]@.change_id == change);
            assert(divergent_commits@[j]@.change_id == change);
        }
    }
    if graph is Ok {
        assert forall|i: int| 0 <= i < divergent_commits@.len() implies (
        #[trigger] divergent_commits@[i])@.change_id == change by {
            assert(commits[i].change_id == commits[0].change_id);
        }
        let graph = graph->Ok_0;
        walks::lemma_start_of_walk(commits);
        evolution::lemma_walked(evolution::at_start(commits), change, all_entries);
        histories::lemma_graph_shows_evolution(&graph, recorded, change, wanted, root@, begin);
        histories::lemma_edges_are_steps(recorded, change, root_id);
        histories::lemma_beginning(recorded, change, root_id, begin);
        assert(wanted.len() == commits.len());
        if forall|i: int|
            0 <= i < divergent_commits@.len() ==> paths::reaches(
                all,
                begin,
                (#[trigger] divergent_commits@[i])@.id,
            ) {
            assert forall|i: int| 0 <= i < wanted.len() implies paths::reaches(
                all,
                begin,
                #[trigger] wanted[i],
            ) by {
                assert(wanted[i] == divergent_commits@[i]@.id);
            }
            assert(truncated::all_evolved(recorded, change, wanted, root_id));
        } else {
            let i = choose|i: int|
                0 <= i < divergent_commits@.len() && !paths::reaches(
                    all,
                    begin,
                    (#[trigger] divergent_commits@[i])@.id,
                );
            assert(!paths::reaches(all, begin, wanted[i]));
        }
    }
}

/// A commit is found just if it has an entry, and is the one in that entry. The fork point is the
/// commit that the start node stands for.
pub proof fn lemma_found_commit<'a>(
    graph: &'a TruncatedEvolutionGraph,
    commit_id: &CommitId,
    found: Result<&'a Commit, ConvergeError>,
    fork_point: &'a Commit,
)
    requires
        graph.wf(),
        call_ensures(TruncatedEvolutionGraph::get_commit, (graph, commit_id), found),
        call_ensures(TruncatedEvolutionGraph::get_evolution_fork_point, (graph,), fork_point),
    ensures
        match found {
            Ok(commit) => exists|e: int|
                0 <= e < graph.entries().len() && (#[trigger] graph.entries()[e]).commit == commit@
                    && commit@.id == commit_id@,
            Err(err) => {
                &&& !walks::has_entry_for(graph.entries(), commit_id@)
                &&& err matches ConvergeError::Other(text)
                &&& text@ == "Unexpected commit id: "@ + ids::hex_digits(commit_id@)
            },
        },
        commit_id@ == graph.flow_graph.start_node@ ==> (found matches Ok(commit) && commit@
            == fork_point@),
        solutions::is_fork_point(*graph, *fork_point),
{
    let entries = graph.entries();
    let start = graph.flow_graph.start_node@;
    let s = choose|s: int| 0 <= s < entries.len() && (#[trigger] entries[s]).commit.id == start;
    histories::lemma_commit_of(entries, s);
    assert(fork_point@ == entries[s].commit);
    assert(evolution::is_recorded(entries, commit_id@) <==> walks::has_entry_for(
        entries,
        commit_id@,
    ));
    if found is Ok {
        let e = choose|e: int|
            0 <= e < entries.len() && (#[trigger] entries[e]).commit.id == commit_id@;
        histories::lemma_commit_of(entries, e);
        assert(entries[e].commit == found->Ok_0@);
    }
}

/// What the user answers decides: the value that they chose, the end of the operation if they chose
/// none, or their error. If there is nobody to ask, their input is needed.
pub proof fn lemma_answer<T>(
    answer: Option<Result<Option<T>, ConvergeError>>,
    attribute: &str,
    outcome: Result<ConvergeResult<T>, ConvergeError>,
)
    requires
        call_ensures(solution::converge_interactively::<T>, (answer, attribute), outcome),
    ensures
        match outcome {
            Ok(ConvergeResult::Solution(value)) => answer == Some(
                Ok::<Option<T>, ConvergeError>(Some(value)),
            ),
            Ok(ConvergeResult::Aborted) => answer == Some(Ok::<Option<T>, ConvergeError>(None)),
            Ok(ConvergeResult::NeedUserInput(message)) => answer is None && message@
                == "cannot converge "@ + attribute@ + " automatically"@,
            Err(err) => answer == Some(Err::<Option<T>, ConvergeError>(err)),
        },
{
}

/// A solution is written as it was found: the author, the description and the divergent commits of
/// the settled attributes, the given parents and the given tree. The new commit takes the place of
/// the divergent ones and keeps their change-id just if they are to be rewritten.
pub proof fn lemma_solution_written(
    settled: SettledAttributes,
    parents: Vec<CommitId>,
    tree: MergedTree,
    rewrite_divergent_commits: bool,
    next: ConvergeResult<Box<SettledParents>>,
    found: Box<ConvergeCommit>,
    plan: SolutionPlan,
)
    requires
        call_ensures(
            SettledAttributes::with_parents,
            (settled, ConvergeResult::Solution(parents)),
            next,
        ),
        next is Solution ==> call_ensures(
            SettledParents::with_tree,
            (*next->Solution_0, tree),
            found,
        ),
        call_ensures(solution::apply_solution, (found, rewrite_divergent_commits), plan),
    ensures
        next is Solution,
        plan.new_commit.author == settled.author,
        plan.new_commit.description == settled.description,
        plan.new_commit.parents == parents,
        plan.new_commit.tree == tree,
        plan.new_commit.predecessors == settled.graph.divergent_commit_ids,
        plan.new_commit.change_id is Some <==> rewrite_divergent_commits,
        rewrite_divergent_commits ==> {
            &&& plan.new_commit.change_id == Some(settled.graph.divergent_change_id)
            &&& plan.rewritten_commit_ids@.len() == settled.graph.divergent_commit_ids@.len()
            &&& forall|i: int|
                0 <= i < plan.rewritten_commit_ids@.len() ==> (
                #[trigger] plan.rewritten_commit_ids@[i])@
                    == settled.graph.divergent_commit_ids@[i]@
        },
        !rewrite_divergent_commits ==> plan.rewritten_commit_ids@.len() == 0,
{
    let rewritten = node::shown(plan.rewritten_commit_ids@);
    let divergent = node::shown(settled.graph.divergent_commit_ids@);
    assert(rewritten.len() == plan.rewritten_commit_ids@.len());
    assert(divergent.len() == settled.graph.divergent_commit_ids@.len());
    if rewrite_divergent_commits {
        assert forall|i: int| 0 <= i < plan.rewritten_commit_ids@.len() implies (
        #[trigger] plan.rewritten_commit_ids@[i])@
            == settled.graph.divergent_commit_ids@[i]@ by {
            assert(rewritten[i] == divergent[i]);
        }
    }
}

/// Without parents there is no solution, and the reason stays the same.
pub proof fn lemma_no_parents(
    settled: SettledAttributes,
    parents: ConvergeResult<Vec<CommitId>>,
    next: ConvergeResult<Box<SettledParents>>,
)
    requires
        call_ensures(SettledAttributes::with_parents, (settled, parents), next),
    ensures
        next is Solution <==> parents is Solution,
        next is Aborted <==> parents is Aborted,
        parents matches ConvergeResult::NeedUserInput(message) ==> (
        next matches ConvergeResult::NeedUserInput(text) && text == message),
{
}

/// The trees are merged from the first commit in the graph whose value is the dominator value.
pub proof fn lemma_tree_base<'a, T: Node>(
    graph: &'a TruncatedEvolutionGraph,
    divergent_commits: &[Commit],
    node_values: &Vec<T>,
    value: T::V,
    base: Result<&'a Commit, ConvergeError>,
)
    requires
        graph.wf(),
        converging::has_all_entries(*graph),
        node_values@.len() == graph.flow_graph.graph@.len(),
        converge::dominator_error(
            *graph,
            node::shown(node_values@),
            node::shown(divergent_commits@),
        ) is None,
        values::is_dominator_value(
            graph.flow_graph.graph@,
            graph.flow_graph.start_node@,
            node::shown(node_values@),
            evolution::ids_of(node::shown(divergent_commits@)),
            value,
        ),
        call_ensures(converge::find_tree_base::<T>, (graph, divergent_commits, node_values), base),
    ensures
        base is Ok,
        exists|i: int, e: int|
            0 <= i < node_values@.len() && 0 <= e < graph.entries().len() && (
            #[trigger] node_values@[i])@ == value && (forall|j: int|
                0 <= j < i ==> (#[trigger] node_values@[j])@ != value) && (
            #[trigger] graph.entries()[e]).commit == base->Ok_0@ && base->Ok_0@.id
                == graph.flow_graph.graph@[i].0,
{
    let flow = graph.flow_graph.graph@;
    let entries = graph.entries();
    let shown = node::shown(node_values@);
    let commits = node::shown(divergent_commits@);
    assert(shown.len() == node_values@.len());
    assert(forall|i: int|
        0 <= i < node_values@.len() ==> shown[i] == (#[trigger] node_values@[i])@);
    let i = choose|i: int| #[trigger]
        converge::is_first_dominator(*graph, shown, commits, i) && {
            let id = flow[i].0;
            if evolution::is_recorded(entries, id) {
                base matches Ok(base) && base@ == truncated::commit_of(entries, id)
            } else {
                error::is_other(base, "Unexpected commit id: "@ + ids::hex_digits(id))
            }
        };
    converging::lemma_first_dominator(*graph, shown, commits, value, i);
    assert(walks::has_entry_for(entries, flow[i].0));
    let e = choose|e: int| 0 <= e < entries.len() && (#[trigger] entries[e]).commit.id == flow[i].0;
    histories::lemma_commit_of(entries, e);
    assert(evolution::is_recorded(entries, flow[i].0));
    assert(node_values@[i]@ == value);
    assert forall|j: int| 0 <= j < i implies (#[trigger] node_values@[j])@ != value by {
        assert(shown[j] != value);
    }
    assert(entries[e].commit == base->Ok_0@);
}

/// A walk wants the entry of a commit just if the commit belongs to its change and none of the
/// recorded entries is for it.
pub proof fn lemma_wanted(walk: &EvolutionWalk, commit: &Commit, wanted: bool)
    requires
        call_ensures(EvolutionWalk::wants, (walk, commit), wanted),
    ensures
        wanted <==> commit@.change_id == walk.change() && forall|i: int|
            0 <= i < walk@.recorded.len() ==> (#[trigger] walk@.recorded[i]).commit.id
                != commit@.id,
{
    walks::lemma_wanted(walk@, walk.change(), commit@);
}

/// The change-id of a graph is that of its divergent commits.
pub proof fn lemma_change_of_graph<'a>(
    divergent_commits: &[Commit],
    entries: Vec<CommitEvolutionEntry>,
    root: CommitEvolutionEntry,
    graph: TruncatedEvolutionGraph,
    change_id: &'a ChangeId,
)
    requires
        call_ensures(TruncatedEvolutionGraph::new, (divergent_commits, entries, root), Ok(graph)),
        call_ensures(TruncatedEvolutionGraph::change_id, (&graph,), change_id),
    ensures
        forall|i: int|
            0 <= i < divergent_commits@.len() ==> (#[trigger] divergent_commits@[i])@.change_id
                == change_id@,
{
    let commits = node::shown(divergent_commits@);
    assert(commits.len() == divergent_commits@.len());
    histories::lemma_no_graph(commits, node::shown(entries@));
    assert forall|i: int| 0 <= i < divergent_commits@.len() implies (
    #[trigger] divergent_commits@[i])@.change_id == change_id@ by {
        assert(commits[i] == divergent_commits@[i]@);
        assert(commits[i].change_id == commits[0].change_id);
    }
}

/// A walk starts just if there are divergent commits and they belong to one change. At first it
/// wants the entries of all commits of that change and of no other ones.
pub proof fn lemma_walk(
    divergent_commits: &[Commit],
    walk: Result<EvolutionWalk, ConvergeError>,
    commit: &Commit,
    wanted: bool,
)
    requires
        call_ensures(EvolutionWalk::start, (divergent_commits,), walk),
        walk is Ok ==> call_ensures(EvolutionWalk::wants, (&walk->Ok_0, commit), wanted),
    ensures
        walk is Ok <==> divergent_commits@.len() > 0 && forall|i: int|
            0 <= i < divergent_commits@.len() ==> (#[trigger] divergent_commits@[i])@.change_id
                == divergent_commits@[0]@.change_id,
        walk is Ok ==> (wanted <==> commit@.change_id == divergent_commits@[0]@.change_id),
{
    let commits = node::shown(divergent_commits@);
    assert(commits.len() == divergent_commits@.len());
    assert(forall|i: int|
        0 <= i < commits.len() ==> commits[i] == (#[trigger] divergent_commits@[i])@);
    if divergent_commits@.len() > 0 {
        assert(commits[0] == divergent_commits@[0]@);
        if walk is Ok {
            assert forall|i: int| 0 <= i < divergent_commits@.len() implies (
            #[trigger] divergent_commits@[i])@.change_id
                == divergent_commits@[0]@.change_id by {
                assert(commits[i].change_id == commits[0].change_id);
            }
            walks::lemma_start_of_walk(commits);
            walks::lemma_wanted(walk->Ok_0@, walk->Ok_0.change(), commit@);
        } else if forall|i: int|
            0 <= i < divergent_commits@.len() ==> (#[trigger] divergent_commits@[i])@.change_id
                == divergent_commits@[0]@.change_id {
            assert(evolution::all_belong_to(commits, commits[0].change_id));
        }
    }
}

} // verus!
