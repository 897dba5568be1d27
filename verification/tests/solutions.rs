use std::collections::HashMap;

use converge::changes::CommitsByChangeId;
use converge::commit::Commit;
use converge::commit::CommitEvolutionEntry;
use converge::commit::Signature;
use converge::commit::Timestamp;
use converge::converge as converging;
use converge::converge::Author;
use converge::converge::Description;
use converge::error;
use converge::error::ConvergeError;
use converge::evolution::EvolutionWalk;
use converge::ids::ChangeId;
use converge::ids::CommitId;
use converge::ids::TreeId;
use converge::merge::Merge;
use converge::node::Node;
use converge::solution::apply_solution;
use converge::solution::converge_author;
use converge::solution::converge_change;
use converge::solution::converge_description;
use converge::solution::converge_interactively;
use converge::solution::ConflictLabels;
use converge::solution::ConvergeResult;
use converge::solution::MergedTree;
use converge::truncated::TruncatedEvolutionGraph;
use converge::ui::ConvergeUI;

/// A user who gives the same answers every time.
struct Answers {
    author: Result<Option<Signature>, ConvergeError>,
    description: Result<Option<String>, ConvergeError>,
}

impl ConvergeUI for Answers {
    fn choose_change<'a>(
        &self,
        _divergent_changes: &'a CommitsByChangeId,
    ) -> Result<Option<&'a ChangeId>, ConvergeError> {
        Ok(None)
    }

    fn choose_author(
        &self,
        _divergent_commits: &[Commit],
        _evolution_fork_point: &Commit,
    ) -> Result<Option<Signature>, ConvergeError> {
        self.author.clone()
    }

    fn choose_parents(
        &self,
        _divergent_commits: &[Commit],
    ) -> Result<Option<Vec<CommitId>>, ConvergeError> {
        Ok(None)
    }

    fn merge_description(
        &self,
        divergent_commits: &[Commit],
        evolution_fork_point: &Commit,
    ) -> Result<Option<String>, ConvergeError> {
        match &self.description {
            Ok(Some(text)) => Ok(Some(format!(
                "{text}: {} of {}",
                evolution_fork_point.description,
                divergent_commits.len()
            ))),
            other => other.clone(),
        }
    }
}

fn nobody() -> Option<&'static Answers> {
    None
}

fn id(byte: u8) -> CommitId {
    CommitId::new(vec![byte; 2])
}

fn signature(name: &str) -> Signature {
    Signature {
        name: name.to_string(),
        email: format!("{name}@example.com"),
        timestamp: Timestamp {
            millis_since_epoch: 5,
            tz_offset: -30,
        },
    }
}

fn commit_of(change: u8, byte: u8, author: &str, description: &str) -> Commit {
    Commit {
        id: id(byte),
        change_id: ChangeId::new(vec![change]),
        author: signature(author),
        description: description.to_string(),
    }
}

fn commit(byte: u8, author: &str, description: &str) -> Commit {
    commit_of(1, byte, author, description)
}

fn entry(commit: &Commit, predecessors: &[&Commit]) -> CommitEvolutionEntry {
    CommitEvolutionEntry {
        commit: commit.clone(),
        predecessors: predecessors.iter().map(|c| (*c).clone()).collect(),
    }
}

fn root() -> CommitEvolutionEntry {
    entry(&commit_of(0, 0, "", ""), &[])
}

fn other<T>(message: &str) -> Result<T, ConvergeError> {
    Err(ConvergeError::Other(message.to_string()))
}

/// 1 -> 2 -> 3 and 2 -> 4: the commits 3 and 4 are divergent.
struct Fork {
    commits: Vec<Commit>,
}

impl Fork {
    fn new(authors: [&str; 4], descriptions: [&str; 4]) -> Self {
        let commits = (0..4)
            .map(|i| commit(i as u8 + 1, authors[i], descriptions[i]))
            .collect();
        Fork { commits }
    }

    fn plain() -> Self {
        Fork::new(["a", "a", "a", "a"], ["d", "d", "d", "d"])
    }

    fn divergent(&self) -> Vec<Commit> {
        vec![self.commits[2].clone(), self.commits[3].clone()]
    }

    fn evolution(&self) -> Vec<CommitEvolutionEntry> {
        let c = &self.commits;
        vec![
            entry(&c[2], &[&c[1]]),
            entry(&c[3], &[&c[1]]),
            entry(&c[1], &[&c[0]]),
            entry(&c[0], &[]),
        ]
    }

    fn graph(&self) -> TruncatedEvolutionGraph {
        TruncatedEvolutionGraph::new(&self.divergent(), self.evolution(), root())
            .ok()
            .unwrap()
    }
}

fn node_ids(graph: &TruncatedEvolutionGraph) -> Vec<CommitId> {
    graph
        .flow_graph
        .graph
        .nodes()
        .into_iter()
        .cloned()
        .collect()
}

fn edge_ids(graph: &TruncatedEvolutionGraph) -> Vec<(CommitId, CommitId)> {
    graph
        .flow_graph
        .graph
        .edges()
        .into_iter()
        .map(|(u, v)| (u.clone(), v.clone()))
        .collect()
}

#[test]
fn an_evolution_graph_is_truncated_at_the_fork_point() {
    let fork = Fork::plain();
    let graph = fork.graph();
    assert_eq!(graph.divergent_commit_ids, vec![id(3), id(4)]);
    assert_eq!(graph.change_id(), &ChangeId::new(vec![1]));
    assert_eq!(graph.get_evolution_fork_point(), &fork.commits[1]);
    assert_eq!(graph.flow_graph.start_node, id(2));
    // The first commit is before the fork point.
    let mut nodes = node_ids(&graph);
    nodes.sort_by_key(|id| id.as_bytes().clone());
    assert_eq!(nodes, vec![id(2), id(3), id(4)]);
    assert_eq!(edge_ids(&graph), vec![(id(2), id(3)), (id(2), id(4))]);
    assert_eq!(graph.commits.len(), 3);
    assert_eq!(graph.get_commit(&id(3)), Ok(&fork.commits[2]));
    assert_eq!(graph.get_commit(&id(1)), other("Unexpected commit id: 0101"));
}

#[test]
fn commits_of_other_changes_are_passed_over() {
    let fork = Fork::plain();
    let c = &fork.commits;
    let foreign = commit_of(9, 9, "x", "y");
    let evolution = vec![
        entry(&c[2], &[&foreign, &c[1]]),
        entry(&foreign, &[]),
        entry(&c[3], &[&c[1], &foreign, &c[1]]),
        entry(&c[1], &[&foreign]),
        entry(&c[1], &[&c[0]]),
    ];
    let graph = TruncatedEvolutionGraph::new(&fork.divergent(), evolution, root())
        .ok()
        .unwrap();
    assert_eq!(graph.flow_graph.start_node, id(2));
    assert_eq!(graph.commits.len(), 3);
    assert_eq!(
        graph.get_commit(&id(9)),
        other("Unexpected commit id: 0909")
    );
}

#[test]
fn the_root_commit_stands_in_for_several_first_commits() {
    let a = commit(1, "a", "x");
    let b = commit(2, "b", "y");
    let divergent = vec![a.clone(), b.clone()];
    let evolution = vec![entry(&a, &[]), entry(&b, &[])];
    let graph = TruncatedEvolutionGraph::new(&divergent, evolution, root())
        .ok()
        .unwrap();
    assert_eq!(graph.get_evolution_fork_point(), &root().commit);
    assert_eq!(graph.commits.len(), 3);
    // The change is still that of the divergent commits.
    assert_eq!(graph.change_id(), &ChangeId::new(vec![1]));
    let mut edges = edge_ids(&graph);
    edges.sort_by_key(|(_, id)| id.as_bytes().clone());
    assert_eq!(edges, vec![(id(0), id(1)), (id(0), id(2))]);
}

#[test]
fn a_single_divergent_commit_is_its_own_fork_point() {
    let fork = Fork::plain();
    let divergent = vec![fork.commits[2].clone()];
    let graph = TruncatedEvolutionGraph::new(&divergent, fork.evolution(), root())
        .ok()
        .unwrap();
    assert_eq!(graph.get_evolution_fork_point(), &fork.commits[2]);
    assert_eq!(node_ids(&graph), vec![id(3)]);
}

#[test]
fn evolutions_that_are_not_accepted() {
    let fork = Fork::plain();
    let c = &fork.commits;
    let new = |divergent: &[Commit], evolution: Vec<CommitEvolutionEntry>| {
        TruncatedEvolutionGraph::new(divergent, evolution, root()).map(|graph| graph.commits)
    };
    assert_eq!(
        new(&[], fork.evolution()),
        other("divergent_commits must not be empty")
    );
    assert_eq!(
        new(&[c[2].clone(), commit_of(2, 4, "a", "d")], fork.evolution()),
        other("all divergent commits must have the same change-id")
    );
    assert_eq!(
        new(&fork.divergent(), vec![]),
        other("Unexpected error: initial_nodes should not be empty")
    );
}

#[test]
fn an_evolution_without_a_fork_point_is_left_whole() {
    let fork = Fork::plain();
    let c = &fork.commits;
    let new = |evolution: Vec<CommitEvolutionEntry>| {
        TruncatedEvolutionGraph::new(&fork.divergent(), evolution, root())
            .ok()
            .unwrap()
    };
    let target = "Target set is empty or has nodes not present in the flow graph";

    // 4 is not listed. The graph starts at the first commit.
    let graph = new(vec![entry(&c[2], &[&c[1]]), entry(&c[1], &[])]);
    assert_eq!(graph.divergent_commit_ids, vec![id(3), id(4)]);
    assert_eq!(graph.flow_graph.start_node, id(2));
    assert_eq!(graph.get_evolution_fork_point(), &c[1]);
    assert_eq!(edge_ids(&graph), vec![(id(2), id(3))]);
    assert_eq!(graph.commits.len(), 2);
    assert_eq!(graph.get_commit(&id(4)), other("Unexpected commit id: 0404"));
    assert_eq!(converge_author(nobody(), &fork.divergent(), &graph), other(target));

    // The predecessor of 4 is not listed, and nothing else leads to 4.
    let graph = new(vec![entry(&c[2], &[]), entry(&c[3], &[&c[1]])]);
    assert_eq!(graph.flow_graph.start_node, id(3));
    assert_eq!(edge_ids(&graph), vec![(id(2), id(4))]);
    assert_eq!(node_ids(&graph).len(), 3);
    assert_eq!(graph.commits.len(), 2);
    assert_eq!(
        converge_description(nobody(), &fork.divergent(), &graph),
        other("Unexpected commit id: 0202")
    );

    // 4 and 2 evolved from each other. The value of the start may still lead to theirs.
    let cycle = |c: &[Commit]| {
        vec![entry(&c[2], &[]), entry(&c[3], &[&c[1]]), entry(&c[1], &[&c[3]])]
    };
    let graph = new(cycle(c));
    assert_eq!(graph.flow_graph.start_node, id(3));
    assert_eq!(graph.commits.len(), 3);
    assert_eq!(
        converge_author(nobody(), &fork.divergent(), &graph),
        Ok(ConvergeResult::Solution(signature("a")))
    );
    let changed = Fork::new(["a", "c", "a", "b"], ["d", "d", "d", "d"]);
    let outcome = converge_change(nobody(), &changed.divergent(), cycle(&changed.commits), root());
    assert_eq!(
        outcome.err(),
        other::<()>("Invalid flow graph: some nodes are unreachable from the start node").err()
    );
}

#[test]
fn what_the_start_does_not_lead_to_is_cut_off_at_the_fork_point() {
    // 4 has a second predecessor, which is not listed.
    let fork = Fork::plain();
    let c = &fork.commits;
    let unknown = commit(8, "a", "d");
    let evolution = vec![
        entry(&c[2], &[&c[1]]),
        entry(&c[3], &[&c[1], &unknown]),
        entry(&c[1], &[]),
    ];
    let graph = TruncatedEvolutionGraph::new(&fork.divergent(), evolution, root())
        .ok()
        .unwrap();
    assert_eq!(graph.flow_graph.start_node, id(2));
    assert_eq!(edge_ids(&graph), vec![(id(2), id(3)), (id(2), id(4))]);
    assert_eq!(graph.commits.len(), 3);
}

#[test]
fn a_walk_takes_one_entry_at_a_time() {
    let fork = Fork::plain();
    let mut walk = EvolutionWalk::start(&fork.divergent()).ok().unwrap();
    assert!(walk.wants(&fork.commits[2]));
    assert!(!walk.wants(&commit_of(2, 3, "a", "d")));
    let mut steps = Vec::new();
    for entry in fork.evolution() {
        steps.push(walk.visit(entry));
    }
    assert_eq!(steps, vec![false, false, false, true]);
    assert!(!walk.wants(&fork.commits[2]));
    let graph = TruncatedEvolutionGraph::from_walk(walk, root()).ok().unwrap();
    let whole = fork.graph();
    assert!(graph.flow_graph == whole.flow_graph);
    assert_eq!(graph.commits, whole.commits);
}

#[test]
fn a_walk_goes_on_while_something_is_pending() {
    let a = commit(1, "a", "x");
    let b = commit(2, "b", "y");
    let mut walk = EvolutionWalk::start(&[a.clone(), b.clone()]).ok().unwrap();
    assert!(!walk.visit(entry(&a, &[])));
    assert!(!walk.visit(entry(&a, &[&b])));
    assert!(walk.visit(entry(&b, &[])));
}

#[test]
fn an_unchanged_attribute_converges_to_itself() {
    let graph = Fork::plain();
    let (divergent, graph) = (graph.divergent(), graph.graph());
    assert_eq!(
        converge_author(nobody(), &divergent, &graph),
        Ok(ConvergeResult::Solution(signature("a")))
    );
    assert_eq!(
        converge_description(nobody(), &divergent, &graph),
        Ok(ConvergeResult::Solution("d".to_string()))
    );
}

#[test]
fn one_change_converges_to_the_changed_value() {
    let fork = Fork::new(["a", "a", "b", "a"], ["d", "e", "e", "f"]);
    let (divergent, graph) = (fork.divergent(), fork.graph());
    assert_eq!(
        converging::converge::<Author>(&divergent, &graph),
        Ok(Some(signature("b")))
    );
    assert_eq!(
        converging::converge::<Description>(&divergent, &graph),
        Ok(Some("f".to_string()))
    );
    assert_eq!(
        converging::find_dominator_value::<Author>(&graph, &divergent),
        Ok(signature("a"))
    );
    assert_eq!(
        converging::find_dominator_value::<Description>(&graph, &divergent),
        Ok("e".to_string())
    );
}

#[test]
fn the_same_change_on_both_sides_converges() {
    let fork = Fork::new(["a", "a", "b", "b"], ["d", "d", "e", "e"]);
    let (divergent, graph) = (fork.divergent(), fork.graph());
    assert_eq!(
        converge_author(nobody(), &divergent, &graph),
        Ok(ConvergeResult::Solution(signature("b")))
    );
    assert_eq!(
        converge_description(nobody(), &divergent, &graph),
        Ok(ConvergeResult::Solution("e".to_string()))
    );
}

#[test]
fn different_changes_need_the_user() {
    let fork = Fork::new(["a", "a", "b", "c"], ["d", "d", "e", "f"]);
    let (divergent, graph) = (fork.divergent(), fork.graph());
    assert_eq!(converging::converge::<Author>(&divergent, &graph), Ok(None));
    assert_eq!(
        converge_author(nobody(), &divergent, &graph),
        Ok(ConvergeResult::NeedUserInput(
            "cannot converge author automatically".to_string()
        ))
    );
    assert_eq!(
        converge_description(nobody(), &divergent, &graph),
        Ok(ConvergeResult::NeedUserInput(
            "cannot converge description automatically".to_string()
        ))
    );
    let user = Answers {
        author: Ok(Some(signature("c"))),
        description: Ok(Some("merged".to_string())),
    };
    assert_eq!(
        converge_author(Some(&user), &divergent, &graph),
        Ok(ConvergeResult::Solution(signature("c")))
    );
    assert_eq!(
        converge_description(Some(&user), &divergent, &graph),
        Ok(ConvergeResult::Solution("merged: d of 2".to_string()))
    );
    let user = Answers {
        author: Ok(None),
        description: Err(ConvergeError::IO("gone".to_string())),
    };
    assert_eq!(
        converge_author(Some(&user), &divergent, &graph),
        Ok(ConvergeResult::Aborted)
    );
    assert_eq!(
        converge_description(Some(&user), &divergent, &graph),
        Err(ConvergeError::IO("gone".to_string()))
    );
}

#[test]
fn answers_are_taken_as_they_come() {
    assert_eq!(
        converge_interactively(Some(Ok(Some(7))), "x"),
        Ok(ConvergeResult::Solution(7))
    );
    assert_eq!(
        converge_interactively::<u64>(Some(Ok(None)), "x"),
        Ok(ConvergeResult::Aborted)
    );
    assert_eq!(
        converge_interactively::<u64>(None, "x"),
        Ok(ConvergeResult::NeedUserInput(
            "cannot converge x automatically".to_string()
        ))
    );
    assert_eq!(
        converge_interactively::<u64>(Some(Err(ConvergeError::Backend("b".to_string()))), "x"),
        Err(ConvergeError::Backend("b".to_string()))
    );
}

fn tree(byte: u8, label: &str) -> MergedTree {
    MergedTree {
        tree_ids: Merge::resolved(TreeId::new(vec![byte])),
        labels: ConflictLabels {
            labels: Merge::resolved(label.to_string()),
        },
    }
}

#[test]
fn a_change_is_converged_step_by_step() {
    let fork = Fork::new(["a", "a", "b", "a"], ["d", "d", "d", "e"]);
    let outcome = converge_change(nobody(), &fork.divergent(), fork.evolution(), root());
    let Ok(ConvergeResult::Solution(attributes)) = outcome else {
        panic!("no solution");
    };
    assert_eq!(attributes.author, signature("b"));
    assert_eq!(attributes.description, "e");
    let ConvergeResult::Solution(parents) =
        attributes.with_parents(ConvergeResult::Solution(vec![id(7)]))
    else {
        panic!("no parents");
    };
    let solution = parents.with_tree(tree(5, "t"));
    assert_eq!(solution.change_id, ChangeId::new(vec![1]));
    assert_eq!(solution.divergent_commit_ids, vec![id(3), id(4)]);
    assert_eq!(solution.author, signature("b"));
    assert_eq!(solution.description, "e");
    assert_eq!(solution.parents, vec![id(7)]);
    assert_eq!(solution.tree_ids, tree(5, "t").tree_ids);
    assert_eq!(solution.conflict_labels, tree(5, "t").labels);

    // The divergent commits are rewritten only if asked for.
    let plan = apply_solution(solution.clone(), true);
    assert_eq!(plan.new_commit.change_id, Some(ChangeId::new(vec![1])));
    assert_eq!(plan.rewritten_commit_ids, vec![id(3), id(4)]);
    assert_eq!(plan.new_commit.predecessors, vec![id(3), id(4)]);
    assert_eq!(plan.new_commit.parents, vec![id(7)]);
    assert_eq!(plan.new_commit.tree, tree(5, "t"));
    assert_eq!(plan.new_commit.author, signature("b"));
    assert_eq!(plan.new_commit.description, "e");
    let plan = apply_solution(solution, false);
    assert_eq!(plan.new_commit.change_id, None);
    assert_eq!(plan.rewritten_commit_ids, vec![]);
    assert_eq!(plan.new_commit.predecessors, vec![id(3), id(4)]);
}

#[test]
fn an_aspect_without_a_solution_ends_the_search() {
    let fork = Fork::plain();
    let settled = |parents| {
        let outcome = converge_change(nobody(), &fork.divergent(), fork.evolution(), root());
        let Ok(ConvergeResult::Solution(attributes)) = outcome else {
            panic!("no solution");
        };
        attributes.with_parents(parents)
    };
    assert!(matches!(
        settled(ConvergeResult::Aborted),
        ConvergeResult::Aborted
    ));
    assert!(matches!(
        settled(ConvergeResult::NeedUserInput("p".to_string())),
        ConvergeResult::NeedUserInput(message) if message == "p"
    ));

    let fork = Fork::new(["a", "a", "b", "c"], ["d", "d", "e", "f"]);
    let change = |user: Option<&Answers>| {
        match converge_change(user, &fork.divergent(), fork.evolution(), root()) {
            Ok(ConvergeResult::Solution(settled)) => {
                Ok(ConvergeResult::Solution((settled.author, settled.description)))
            }
            Ok(ConvergeResult::NeedUserInput(message)) => {
                Ok(ConvergeResult::NeedUserInput(message))
            }
            Ok(ConvergeResult::Aborted) => Ok(ConvergeResult::Aborted),
            Err(err) => Err(err),
        }
    };
    assert_eq!(
        change(None),
        Ok(ConvergeResult::NeedUserInput(
            "cannot converge author automatically".to_string()
        ))
    );
    let answers = |author, description| Answers {
        author,
        description,
    };
    let author = || Ok(Some(signature("c")));
    let err = || ConvergeError::WalkPredecessors("w".to_string());
    assert_eq!(
        change(Some(&answers(Ok(None), Ok(None)))),
        Ok(ConvergeResult::Aborted)
    );
    assert_eq!(change(Some(&answers(Err(err()), Ok(None)))), Err(err()));
    assert_eq!(
        change(Some(&answers(author(), Ok(None)))),
        Ok(ConvergeResult::Aborted)
    );
    assert_eq!(change(Some(&answers(author(), Err(err())))), Err(err()));
    assert_eq!(
        change(Some(&answers(author(), Ok(Some("m".to_string()))))),
        Ok(ConvergeResult::Solution((
            signature("c"),
            "m: d of 2".to_string()
        )))
    );
}

#[test]
fn a_change_needs_two_commits_to_be_converged() {
    let fork = Fork::plain();
    let change = |divergent: &[Commit]| {
        converge_change(nobody(), divergent, fork.evolution(), root()).err()
    };
    assert_eq!(
        change(&[]),
        Some(ConvergeError::Other(
            "Expected multiple divergent commits, got 0".to_string()
        ))
    );
    assert_eq!(
        change(&fork.commits[2..3]),
        Some(ConvergeError::Other(
            "Expected multiple divergent commits, got 1".to_string()
        ))
    );
    assert_eq!(
        change(&[fork.commits[2].clone(), commit_of(2, 4, "a", "d")]),
        Some(ConvergeError::Other(
            "all divergent commits must have the same change-id".to_string()
        ))
    );
}

#[test]
fn trees_are_merged_from_the_first_commit_with_the_dominator_value() {
    let fork = Fork::plain();
    let (divergent, graph) = (fork.divergent(), fork.graph());
    let trees = HashMap::from([(id(2), tree(1, "")), (id(3), tree(2, "")), (id(4), tree(1, ""))]);
    let values: Vec<Merge<TreeId>> = node_ids(&graph)
        .iter()
        .map(|id| trees[id].tree_ids.clone())
        .collect();
    let base = converging::find_tree_base(&graph, &divergent, &values).unwrap();
    assert_eq!(trees[&base.id], tree(1, ""));
    let first = node_ids(&graph)
        .into_iter()
        .find(|id| trees[id] == tree(1, ""))
        .unwrap();
    assert_eq!(base.id, first);
    assert_eq!(
        converging::find_tree_base(&graph, &[], &values),
        other("Target set is empty or has nodes not present in the flow graph")
    );
    let merge = converging::merge_sides(&tree(1, "f"), vec![tree(2, "a"), tree(3, "b")]);
    assert_eq!(
        merge.values(),
        &vec![tree(1, "f"), tree(1, "f"), tree(2, "a"), tree(1, "f"), tree(3, "b")]
    );
}

#[test]
fn merges_resolve_without_looking_into_values() {
    let resolve = |values: Vec<u64>| Merge::from_values(values).unwrap().resolve_trivial().copied();
    assert_eq!(resolve(vec![1]), Some(1));
    assert_eq!(resolve(vec![1, 1, 2]), Some(2));
    assert_eq!(resolve(vec![2, 1, 1]), Some(2));
    assert_eq!(resolve(vec![2, 1, 2]), Some(2));
    assert_eq!(resolve(vec![2, 1, 3]), None);
    assert_eq!(resolve(vec![1, 1, 2, 1, 2]), Some(2));
    assert_eq!(resolve(vec![1, 1, 2, 1, 3]), None);
    assert_eq!(resolve(vec![1, 1, 1, 1, 3]), Some(3));
    assert_eq!(resolve(vec![4, 1, 4, 2, 4]), None);
    assert_eq!(Merge::from_values(vec![1u64, 2]), None);
    assert_eq!(Merge::<u64>::from_values(vec![]), None);
    let mut merge = Merge::resolved(1u64);
    merge.add_change(2, 3);
    assert_eq!(merge.values(), &vec![1, 2, 3]);
    assert!(merge.same(&merge.duplicate()));
    assert!(!merge.same(&Merge::resolved(1)));
    assert!(!merge.same(&Merge::from_values(vec![1, 2, 4]).unwrap()));
}

#[test]
fn identifiers_and_attributes_are_compared_by_contents() {
    assert_eq!(CommitId::new(vec![0x0f, 0xa9]).hex(), "0fa9");
    assert_eq!(CommitId::new(vec![]).hex(), "");
    assert_eq!(id(3).as_bytes(), &vec![3, 3]);
    assert!(id(3).same(&id(3)) && !id(3).same(&id(4)));
    assert!(!id(3).same(&CommitId::new(vec![3])));
    assert_eq!(id(3).duplicate(), id(3));
    let change = ChangeId::new(vec![4]);
    assert!(change.same(&change.duplicate()) && !change.same(&ChangeId::new(vec![5])));
    assert_eq!(change.as_bytes(), &vec![4]);
    let tree_id = TreeId::new(vec![4]);
    assert!(tree_id.same(&tree_id.duplicate()) && !tree_id.same(&TreeId::new(vec![5])));
    assert_eq!(tree_id.as_bytes(), &vec![4]);
    assert!(tree(1, "a").same(&tree(1, "a").duplicate()) && !tree(1, "a").same(&tree(1, "b")));
    let author = signature("a");
    assert!(author.same(&author.duplicate()) && !author.same(&signature("b")));
    let later = Signature {
        timestamp: Timestamp {
            millis_since_epoch: 6,
            tz_offset: -30,
        },
        ..signature("a")
    };
    assert!(!author.same(&later));
}

#[test]
fn validating_fails_with_the_message() {
    assert_eq!(error::validate(true, "m"), Ok(()));
    assert_eq!(error::validate(false, "m"), other("m"));
}
