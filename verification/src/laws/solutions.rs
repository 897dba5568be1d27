//! What the solution of divergence is.
use vstd::prelude::*;

use crate::commit::Commit;
use crate::commit::Signature;
use crate::converge;
use crate::converge::Author;
use crate::converge::Description;
use crate::error::ConvergeError;
use crate::laws::converging;
use crate::laws::histories;
use crate::node;
use crate::solution;
use crate::solution::ConvergeResult;
use crate::solution::SettledAttributes;
use crate::truncated::TruncatedEvolutionGraph;
use crate::ui::ConvergeUI;

verus! {

/// Every commit has the author `base` or the author `value`, and one has the author `value`.
pub open spec fn agree_on_author(
    commits: Seq<Commit>,
    base: <Signature as View>::V,
    value: <Signature as View>::V,
) -> bool {
    &&& exists|i: int| 0 <= i < commits.len() && (#[trigger] commits[i])@.author == value
    &&& forall|i: int|
        0 <= i < commits.len() ==> (#[trigger] commits[i])@.author == base || commits[i]@.author
            == value
}

/// Two commits have authors that differ from `base` and from each other.
pub open spec fn differ_on_author(commits: Seq<Commit>, base: <Signature as View>::V) -> bool {
    exists|i: int, j: int|
        0 <= i < commits.len() && 0 <= j < commits.len() && (#[trigger] commits[i])@.author != base
            && (#[trigger] commits[j])@.author != base && commits[i]@.author != commits[j]@.author
}

/// Every commit has the description `base` or the description `value`, and one has the
/// description `value`.
pub open spec fn agree_on_description(
    commits: Seq<Commit>,
    base: Seq<char>,
    value: Seq<char>,
) -> bool {
    &&& exists|i: int| 0 <= i < commits.len() && (#[trigger] commits[i])@.description == value
    &&& forall|i: int|
        0 <= i < commits.len() ==> (#[trigger] commits[i])@.description == base
            || commits[i]@.description == value
}

/// Two commits have descriptions that differ from `base` and from each other.
pub open spec fn differ_on_description(commits: Seq<Commit>, base: Seq<char>) -> bool {
    exists|i: int, j: int|
        0 <= i < commits.len() && 0 <= j < commits.len() && (#[trigger] commits[i])@.description
            != base && (#[trigger] commits[j])@.description != base && commits[i]@.description
            != commits[j]@.description
}

/// The commit is the one in the entry of the start node.
pub open spec fn is_fork_point(graph: TruncatedEvolutionGraph, commit: Commit) -> bool {
    exists|e: int|
        0 <= e < graph.entries().len() && commit@ == (#[trigger] graph.entries()[e]).commit
            && commit@.id == graph.flow_graph.start_node@
}

/// There is a user, who was shown the divergent commits and the fork point and gave this answer
/// when asked for the author.
pub open spec fn user_chose_author<U: ConvergeUI + ?Sized>(
    converge_ui: Option<&U>,
    divergent_commits: &[Commit],
    graph: TruncatedEvolutionGraph,
    answer: Result<Option<Signature>, ConvergeError>,
) -> bool {
    converge_ui is Some && exists|commit: Commit| #[trigger]
        is_fork_point(graph, commit) && call_ensures(
            U::choose_author,
            (converge_ui->Some_0, divergent_commits, &commit),
            answer,
        )
}

/// There is a user, who was shown the divergent commits and the fork point and gave this answer
/// when asked for the description.
pub open spec fn user_merged_description<U: ConvergeUI + ?Sized>(
    converge_ui: Option<&U>,
    divergent_commits: &[Commit],
    graph: TruncatedEvolutionGraph,
    answer: Result<Option<String>, ConvergeError>,
) -> bool {
    converge_ui is Some && exists|commit: Commit| #[trigger]
        is_fork_point(graph, commit) && call_ensures(
            U::merge_description,
            (converge_ui->Some_0, divergent_commits, &commit),
            answer,
        )
}

/// The fork point that the user is shown is the commit in the entry of the start node.
proof fn lemma_fork_point_shown(graph: TruncatedEvolutionGraph, commit: Commit)
    requires
        graph.wf(),
        commit@ == solution::fork_point(graph),
    ensures
        is_fork_point(graph, commit),
{
    let entries = graph.entries();
    let start = graph.flow_graph.start_node@;
    let e = choose|e: int| 0 <= e < entries.len() && (#[trigger] entries[e]).commit.id == start;
    histories::lemma_commit_of(entries, e);
    assert(commit@ == entries[e].commit);
}

/// Either there is one author that the commits agree on, or they differ.
proof fn lemma_authors(
    divergent_commits: &[Commit],
    graph: TruncatedEvolutionGraph,
    base: <Signature as View>::V,
)
    requires
        graph.wf(),
        converge::base_error::<Author>(graph, node::shown(divergent_commits@)) is None,
        converge::is_base_value::<Author>(graph, node::shown(divergent_commits@), base),
    ensures
        match converge::converged::<Author>(graph, node::shown(divergent_commits@)) {
            Some(value) => agree_on_author(divergent_commits@, base, value) && !differ_on_author(
                divergent_commits@,
                base,
            ),
            None => differ_on_author(divergent_commits@, base),
        },
        forall|value: <Signature as View>::V| #[trigger]
            agree_on_author(divergent_commits@, base, value) ==> converge::converged::<Author>(
                graph,
                node::shown(divergent_commits@),
            ) == Some(value),
{
    let commits = divergent_commits@;
    let shown = node::shown(commits);
    converging::lemma_converged::<Author>(graph, shown, base);
    assert(shown.len() == commits.len());
    assert(forall|i: int| 0 <= i < commits.len() ==> #[trigger] shown[i] == commits[i]@);
    match converge::converged::<Author>(graph, shown) {
        Some(value) => {
            let i = choose|i: int| 0 <= i < shown.len() && (#[trigger] shown[i]).author == value;
            assert(commits[i]@.author == value);
            assert forall|i: int| 0 <= i < commits.len() implies (#[trigger] commits[i])@.author
                == base || commits[i]@.author == value by {
                assert(shown[i].author == base || shown[i].author == value);
            }
        },
        None => {
            let (i, j) = choose|i: int, j: int|
                0 <= i < shown.len() && 0 <= j < shown.len() && (#[trigger] shown[i]).author != (
                #[trigger] shown[j]).author && shown[i].author != base && shown[j].author != base;
            assert(commits[i]@.author == shown[i].author);
            assert(commits[j]@.author == shown[j].author);
        },
    }
    assert forall|value: <Signature as View>::V| #[trigger]
        agree_on_author(commits, base, value) implies converge::converged::<Author>(graph, shown)
        == Some(value) by {
        let i = choose|i: int| 0 <= i < commits.len() && (#[trigger] commits[i])@.author == value;
        assert(shown[i].author == value);
        assert forall|i: int| 0 <= i < shown.len() implies (#[trigger] shown[i]).author == base
            || shown[i].author == value by {
            assert(commits[i]@.author == base || commits[i]@.author == value);
        }
        converging::lemma_converges_to::<Author>(graph, shown, base, value);
    }
}

/// Either there is one description that the commits agree on, or they differ.
proof fn lemma_descriptions(
    divergent_commits: &[Commit],
    graph: TruncatedEvolutionGraph,
    base: Seq<char>,
)
    requires
        graph.wf(),
        converge::base_error::<Description>(graph, node::shown(divergent_commits@)) is None,
        converge::is_base_value::<Description>(graph, node::shown(divergent_commits@), base),
    ensures
        match converge::converged::<Description>(graph, node::shown(divergent_commits@)) {
            Some(value) => agree_on_description(divergent_commits@, base, value)
                && !differ_on_description(divergent_commits@, base),
            None => differ_on_description(divergent_commits@, base),
        },
        forall|value: Seq<char>| #[trigger]
            agree_on_description(divergent_commits@, base, value) ==> converge::converged::<
                Description,
            >(graph, node::shown(divergent_commits@)) == Some(value),
{
    let commits = divergent_commits@;
    let shown = node::shown(commits);
    converging::lemma_converged::<Description>(graph, shown, base);
    assert(shown.len() == commits.len());
    assert(forall|i: int| 0 <= i < commits.len() ==> #[trigger] shown[i] == commits[i]@);
    match converge::converged::<Description>(graph, shown) {
        Some(value) => {
            let i = choose|i: int|
                0 <= i < shown.len() && (#[trigger] shown[i]).description == value;
            assert(commits[i]@.description == value);
            assert forall|i: int| 0 <= i < commits.len() implies (
            #[trigger] commits[i])@.description == base || commits[i]@.description == value by {
                assert(shown[i].description == base || shown[i].description == value);
            }
        },
        None => {
            let (i, j) = choose|i: int, j: int|
                0 <= i < shown.len() && 0 <= j < shown.len() && (#[trigger] shown[i]).description
                    != (#[trigger] shown[j]).description && shown[i].description != base
                    && shown[j].description != base;
            assert(commits[i]@.description == shown[i].description);
            assert(commits[j]@.description == shown[j].description);
        },
    }
    assert forall|value: Seq<char>| #[trigger]
        agree_on_description(commits, base, value) implies converge::converged::<Description>(
        graph,
        shown,
    ) == Some(value) by {
        let i = choose|i: int|
            0 <= i < commits.len() && (#[trigger] commits[i])@.description == value;
        assert(shown[i].description == value);
        assert forall|i: int| 0 <= i < shown.len() implies (#[trigger] shown[i]).description
            == base || shown[i].description == value by {
            assert(commits[i]@.description == base || commits[i]@.description == value);
        }
        converging::lemma_converges_to::<Description>(graph, shown, base, value);
    }
}

/// Whether there is a user or not, an author that the commits agree on is the solution. If they
/// differ, the user decides, and without a user there is no solution.
pub proof fn lemma_author<U: ConvergeUI + ?Sized>(
    converge_ui: Option<&U>,
    divergent_commits: &[Commit],
    graph: TruncatedEvolutionGraph,
    outcome: Result<ConvergeResult<Signature>, ConvergeError>,
    base: <Signature as View>::V,
)
    requires
        graph.wf(),
        converge::base_error::<Author>(graph, node::shown(divergent_commits@)) is None,
        converge::is_base_value::<Author>(graph, node::shown(divergent_commits@), base),
        solution::converges_author(converge_ui, divergent_commits, graph, outcome),
    ensures
        forall|value: <Signature as View>::V| #[trigger]
            agree_on_author(divergent_commits@, base, value) ==> (outcome matches Ok(
                ConvergeResult::Solution(author),
            ) && author@ == value),
        !differ_on_author(divergent_commits@, base) ==> (outcome matches Ok(
            ConvergeResult::Solution(author),
        ) && agree_on_author(divergent_commits@, base, author@)),
        differ_on_author(divergent_commits@, base) ==> match outcome {
            Ok(ConvergeResult::Solution(author)) => user_chose_author(
                converge_ui,
                divergent_commits,
                graph,
                Ok(Some(author)),
            ),
            Ok(ConvergeResult::NeedUserInput(message)) => converge_ui is None && message@
                == "cannot converge author automatically"@,
            Ok(ConvergeResult::Aborted) => user_chose_author(
                converge_ui,
                divergent_commits,
                graph,
                Ok(None),
            ),
            Err(err) => user_chose_author(converge_ui, divergent_commits, graph, Err(err)),
        },
{
    lemma_authors(divergent_commits, graph, base);
    reveal_strlit("cannot converge ");
    reveal_strlit("author");
    reveal_strlit(" automatically");
    reveal_strlit("cannot converge author automatically");
    assert("cannot converge "@ + "author"@ + " automatically"@
        =~= "cannot converge author automatically"@);
    if differ_on_author(divergent_commits@, base) && converge_ui is Some {
        let answer = choose|answer: Result<Option<Signature>, ConvergeError>|
            solution::asks_for_author(
                converge_ui->Some_0,
                divergent_commits,
                solution::fork_point(graph),
                answer,
            ) && #[trigger] solution::follows_from(outcome, answer);
        let commit = choose|commit: Commit|
            commit@ == solution::fork_point(graph) && #[trigger] call_ensures(
                U::choose_author,
                (converge_ui->Some_0, divergent_commits, &commit),
                answer,
            );
        lemma_fork_point_shown(graph, commit);
        assert(user_chose_author(converge_ui, divergent_commits, graph, answer));
    }
}

/// Whether there is a user or not, a description that the commits agree on is the solution. If
/// they differ, the user decides, and without a user there is no solution.
pub proof fn lemma_description<U: ConvergeUI + ?Sized>(
    converge_ui: Option<&U>,
    divergent_commits: &[Commit],
    graph: TruncatedEvolutionGraph,
    outcome: Result<ConvergeResult<String>, ConvergeError>,
    base: Seq<char>,
)
    requires
        graph.wf(),
        converge::base_error::<Description>(graph, node::shown(divergent_commits@)) is None,
        converge::is_base_value::<Description>(graph, node::shown(divergent_commits@), base),
        solution::converges_description(converge_ui, divergent_commits, graph, outcome),
    ensures
        forall|value: Seq<char>| #[trigger]
            agree_on_description(divergent_commits@, base, value) ==> (outcome matches Ok(
                ConvergeResult::Solution(description),
            ) && description@ == value),
        !differ_on_description(divergent_commits@, base) ==> (outcome matches Ok(
            ConvergeResult::Solution(description),
        ) && agree_on_description(divergent_commits@, base, description@)),
        differ_on_description(divergent_commits@, base) ==> match outcome {
            Ok(ConvergeResult::Solution(description)) => user_merged_description(
                converge_ui,
                divergent_commits,
                graph,
                Ok(Some(description)),
            ),
            Ok(ConvergeResult::NeedUserInput(message)) => converge_ui is None && message@
                == "cannot converge description automatically"@,
            Ok(ConvergeResult::Aborted) => user_merged_description(
                converge_ui,
                divergent_commits,
                graph,
                Ok(None),
            ),
            Err(err) => user_merged_description(converge_ui, divergent_commits, graph, Err(err)),
        },
{
    lemma_descriptions(divergent_commits, graph, base);
    reveal_strlit("cannot converge ");
    reveal_strlit("description");
    reveal_strlit(" automatically");
    reveal_strlit("cannot converge description automatically");
    assert("cannot converge "@ + "description"@ + " automatically"@
        =~= "cannot converge description automatically"@);
    if differ_on_description(divergent_commits@, base) && converge_ui is Some {
        let answer = choose|answer: Result<Option<String>, ConvergeError>|
            solution::asks_for_description(
                converge_ui->Some_0,
                divergent_commits,
                solution::fork_point(graph),
                answer,
            ) && #[trigger] solution::follows_from(outcome, answer);
        let commit = choose|commit: Commit|
            commit@ == solution::fork_point(graph) && #[trigger] call_ensures(
                U::merge_description,
                (converge_ui->Some_0, divergent_commits, &commit),
                answer,
            );
        lemma_fork_point_shown(graph, commit);
        assert(user_merged_description(converge_ui, divergent_commits, graph, answer));
    }
}

/// Commits with the same author keep it, and commits with the same description keep that, whatever
/// their history is and whether there is a user or not.
pub proof fn lemma_same_is_kept<U: ConvergeUI + ?Sized>(
    converge_ui: Option<&U>,
    divergent_commits: &[Commit],
    graph: TruncatedEvolutionGraph,
    by_author: Result<ConvergeResult<Signature>, ConvergeError>,
    by_description: Result<ConvergeResult<String>, ConvergeError>,
    author: <Signature as View>::V,
    description: Seq<char>,
)
    requires
        divergent_commits@.len() > 0,
        solution::converges_author(converge_ui, divergent_commits, graph, by_author),
        solution::converges_description(converge_ui, divergent_commits, graph, by_description),
    ensures
        converge::base_error::<Author>(graph, node::shown(divergent_commits@)) is None && (forall|
            i: int,
        |
            0 <= i < divergent_commits@.len() ==> (#[trigger] divergent_commits@[i])@.author
                == author) ==> (by_author matches Ok(ConvergeResult::Solution(chosen)) && chosen@
            == author),
        converge::base_error::<Description>(graph, node::shown(divergent_commits@)) is None && (
        forall|i: int|
            0 <= i < divergent_commits@.len() ==> (#[trigger] divergent_commits@[i])@.description
                == description) ==> (by_description matches Ok(ConvergeResult::Solution(chosen))
            && chosen@ == description),
{
    let commits = divergent_commits@;
    let shown = node::shown(commits);
    assert(shown.len() == commits.len());
    if forall|i: int| 0 <= i < commits.len() ==> (#[trigger] commits[i])@.author == author {
        assert forall|i: int| 0 <= i < shown.len() implies (#[trigger] shown[i]).author
            == author by {
            assert(shown[i] == commits[i]@);
        }
        converging::lemma_agreeing_commits_converge::<Author>(graph, shown, author);
    }
    if forall|i: int|
        0 <= i < commits.len() ==> (#[trigger] commits[i])@.description == description {
        assert forall|i: int| 0 <= i < shown.len() implies (#[trigger] shown[i]).description
            == description by {
            assert(shown[i] == commits[i]@);
        }
        converging::lemma_agreeing_commits_converge::<Description>(graph, shown, description);
    }
}

/// What is settled of a solution. It has the author and the description that the commits agree on,
/// or, where they differ, those that the user gave. Without a user the first of the two on which
/// they differ is what input is needed for. With one, they end the search by giving none.
pub proof fn lemma_attributes<U: ConvergeUI + ?Sized>(
    converge_ui: Option<&U>,
    divergent_commits: &[Commit],
    graph: TruncatedEvolutionGraph,
    outcome: Result<ConvergeResult<Box<SettledAttributes>>, ConvergeError>,
    author_base: <Signature as View>::V,
    description_base: Seq<char>,
)
    requires
        graph.wf(),
        converge::base_error::<Author>(graph, node::shown(divergent_commits@)) is None,
        converge::is_base_value::<Author>(graph, node::shown(divergent_commits@), author_base),
        converge::base_error::<Description>(graph, node::shown(divergent_commits@)) is None,
        converge::is_base_value::<Description>(
            graph,
            node::shown(divergent_commits@),
            description_base,
        ),
        solution::settles_attributes(converge_ui, divergent_commits, graph, outcome),
    ensures
        ({
            let commits = divergent_commits@;
            let author_differs = differ_on_author(commits, author_base);
            let description_differs = differ_on_description(commits, description_base);
            match outcome {
                Ok(ConvergeResult::Solution(settled)) => {
                    &&& settled.graph == graph
                    &&& if author_differs {
                        user_chose_author(
                            converge_ui,
                            divergent_commits,
                            graph,
                            Ok(Some(settled.author)),
                        )
                    } else {
                        agree_on_author(commits, author_base, settled.author@)
                    }
                    &&& if description_differs {
                        user_merged_description(
                            converge_ui,
                            divergent_commits,
                            graph,
                            Ok(Some(settled.description)),
                        )
                    } else {
                        agree_on_description(commits, description_base, settled.description@)
                    }
                },
                Ok(ConvergeResult::NeedUserInput(message)) => {
                    &&& converge_ui is None
                    &&& if author_differs {
                        message@ == "cannot converge author automatically"@
                    } else {
                        description_differs && message@
                            == "cannot converge description automatically"@
                    }
                },
                Ok(ConvergeResult::Aborted) => {
                    ||| author_differs && user_chose_author(
                        converge_ui,
                        divergent_commits,
                        graph,
                        Ok(None),
                    )
                    ||| description_differs && user_merged_description(
                        converge_ui,
                        divergent_commits,
                        graph,
                        Ok(None),
                    ) && (author_differs ==> exists|author: Signature| #[trigger]
                        user_chose_author(converge_ui, divergent_commits, graph, Ok(Some(author))))
                },
                Err(err) => {
                    ||| author_differs && user_chose_author(
                        converge_ui,
                        divergent_commits,
                        graph,
                        Err(err),
                    )
                    ||| description_differs && user_merged_description(
                        converge_ui,
                        divergent_commits,
                        graph,
                        Err(err),
                    ) && (author_differs ==> exists|author: Signature| #[trigger]
                        user_chose_author(converge_ui, divergent_commits, graph, Ok(Some(author))))
                },
            }
        }),
{
    let by_author = choose|aspect: Result<ConvergeResult<Signature>, ConvergeError>| #[trigger]
        solution::converges_author(converge_ui, divergent_commits, graph, aspect) && match aspect {
            Ok(ConvergeResult::Solution(author)) => solution::settles_description(
                converge_ui,
                divergent_commits,
                graph,
                author,
                outcome,
            ),
            _ => solution::ends_with(outcome, aspect),
        };
    lemma_author(converge_ui, divergent_commits, graph, by_author, author_base);
    match by_author {
        Ok(ConvergeResult::Solution(author)) => {
            let by_description = choose|aspect: Result<ConvergeResult<String>, ConvergeError>|
                #[trigger]
                solution::converges_description(converge_ui, divergent_commits, graph, aspect)
                    && match aspect {
                    Ok(ConvergeResult::Solution(description)) => {
                        &&& outcome matches Ok(ConvergeResult::Solution(settled))
                        &&& settled.graph == graph
                        &&& settled.author == author
                        &&& settled.description == description
                    },
                    _ => solution::ends_with(outcome, aspect),
                };
            lemma_description(
                converge_ui,
                divergent_commits,
                graph,
                by_description,
                description_base,
            );
        },
        _ => {},
    }
}

/// Where the commits agree on both, that is what is settled, whether there is a user or not.
pub proof fn lemma_settled_by_agreement<U: ConvergeUI + ?Sized>(
    converge_ui: Option<&U>,
    divergent_commits: &[Commit],
    graph: TruncatedEvolutionGraph,
    outcome: Result<ConvergeResult<Box<SettledAttributes>>, ConvergeError>,
    author_base: <Signature as View>::V,
    description_base: Seq<char>,
    author: <Signature as View>::V,
    description: Seq<char>,
)
    requires
        graph.wf(),
        converge::base_error::<Author>(graph, node::shown(divergent_commits@)) is None,
        converge::is_base_value::<Author>(graph, node::shown(divergent_commits@), author_base),
        converge::base_error::<Description>(graph, node::shown(divergent_commits@)) is None,
        converge::is_base_value::<Description>(
            graph,
            node::shown(divergent_commits@),
            description_base,
        ),
        solution::settles_attributes(converge_ui, divergent_commits, graph, outcome),
        agree_on_author(divergent_commits@, author_base, author),
        agree_on_description(divergent_commits@, description_base, description),
    ensures
        outcome matches Ok(ConvergeResult::Solution(settled)) && settled.graph == graph
            && settled.author@ == author && settled.description@ == description,
{
    lemma_attributes(
        converge_ui,
        divergent_commits,
        graph,
        outcome,
        author_base,
        description_base,
    );
    lemma_authors(divergent_commits, graph, author_base);
    lemma_descriptions(divergent_commits, graph, description_base);
}

/// Where all commits have the same author and the same description, that is what is settled.
pub proof fn lemma_settled_by_the_same<U: ConvergeUI + ?Sized>(
    converge_ui: Option<&U>,
    divergent_commits: &[Commit],
    graph: TruncatedEvolutionGraph,
    outcome: Result<ConvergeResult<Box<SettledAttributes>>, ConvergeError>,
    author: <Signature as View>::V,
    description: Seq<char>,
)
    requires
        divergent_commits@.len() > 0,
        converge::base_error::<Author>(graph, node::shown(divergent_commits@)) is None,
        converge::base_error::<Description>(graph, node::shown(divergent_commits@)) is None,
        solution::settles_attributes(converge_ui, divergent_commits, graph, outcome),
        forall|i: int|
            0 <= i < divergent_commits@.len() ==> (#[trigger] divergent_commits@[i])@.author
                == author && divergent_commits@[i]@.description == description,
    ensures
        outcome matches Ok(ConvergeResult::Solution(settled)) && settled.graph == graph
            && settled.author@ == author && settled.description@ == description,
{
    let by_author = choose|aspect: Result<ConvergeResult<Signature>, ConvergeError>| #[trigger]
        solution::converges_author(converge_ui, divergent_commits, graph, aspect) && match aspect {
            Ok(ConvergeResult::Solution(author)) => solution::settles_description(
                converge_ui,
                divergent_commits,
                graph,
                author,
                outcome,
            ),
            _ => solution::ends_with(outcome, aspect),
        };
    let commits = node::shown(divergent_commits@);
    assert(commits.len() == divergent_commits@.len());
    assert forall|i: int| 0 <= i < commits.len() implies (#[trigger] commits[i]).author == author
        && commits[i].description == description by {
        assert(commits[i] == divergent_commits@[i]@);
    }
    converging::lemma_agreeing_commits_converge::<Author>(graph, commits, author);
    converging::lemma_agreeing_commits_converge::<Description>(graph, commits, description);
    assert(by_author is Ok && by_author->Ok_0 is Solution);
    assert(solution::settles_description(
        converge_ui,
        divergent_commits,
        graph,
        by_author->Ok_0->Solution_0,
        outcome,
    ));
}

/// Without a user there is a solution just if the commits differ on neither.
pub proof fn lemma_settled_without_user<U: ConvergeUI + ?Sized>(
    divergent_commits: &[Commit],
    graph: TruncatedEvolutionGraph,
    outcome: Result<ConvergeResult<Box<SettledAttributes>>, ConvergeError>,
    author_base: <Signature as View>::V,
    description_base: Seq<char>,
)
    requires
        graph.wf(),
        converge::base_error::<Author>(graph, node::shown(divergent_commits@)) is None,
        converge::is_base_value::<Author>(graph, node::shown(divergent_commits@), author_base),
        converge::base_error::<Description>(graph, node::shown(divergent_commits@)) is None,
        converge::is_base_value::<Description>(
            graph,
            node::shown(divergent_commits@),
            description_base,
        ),
        solution::settles_attributes(None::<&U>, divergent_commits, graph, outcome),
    ensures
        outcome matches Ok(ConvergeResult::Solution(_)) <==> !differ_on_author(
            divergent_commits@,
            author_base,
        ) && !differ_on_description(divergent_commits@, description_base),
        outcome matches Ok(ConvergeResult::NeedUserInput(_)) <==> differ_on_author(
            divergent_commits@,
            author_base,
        ) || differ_on_description(divergent_commits@, description_base),
{
    lemma_attributes(
        None::<&U>,
        divergent_commits,
        graph,
        outcome,
        author_base,
        description_base,
    );
}

/// Without a base there is no solution: it fails, and the error says why.
pub proof fn lemma_without_base<U: ConvergeUI + ?Sized>(
    converge_ui: Option<&U>,
    divergent_commits: &[Commit],
    graph: TruncatedEvolutionGraph,
    outcome: Result<ConvergeResult<Box<SettledAttributes>>, ConvergeError>,
)
    requires
        solution::settles_attributes(converge_ui, divergent_commits, graph, outcome),
    ensures
        converge::base_error::<Author>(graph, node::shown(divergent_commits@)) matches Some(message)
            ==> (outcome matches Err(ConvergeError::Other(text)) && text@ == message),
        converge::base_error::<Description>(graph, node::shown(divergent_commits@)) is Some
            ==> !(outcome matches Ok(ConvergeResult::Solution(_))),
        converge::base_error::<Description>(graph, node::shown(divergent_commits@)) is Some
            && converge_ui is None && converge::base_error::<Author>(
            graph,
            node::shown(divergent_commits@),
        ) is None ==> {
            ||| outcome matches Ok(ConvergeResult::NeedUserInput(message)) && message@
                == "cannot converge author automatically"@
            ||| outcome matches Err(ConvergeError::Other(text)) && Some(text@)
                == converge::base_error::<Description>(graph, node::shown(divergent_commits@))
        },
{
    reveal_strlit("cannot converge ");
    reveal_strlit("author");
    reveal_strlit(" automatically");
    reveal_strlit("cannot converge author automatically");
    assert("cannot converge "@ + "author"@ + " automatically"@
        =~= "cannot converge author automatically"@);
}

} // verus!
