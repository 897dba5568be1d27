//! Converging the attributes of a divergent change.
use vstd::prelude::*;

use crate::commit::Commit;
use crate::commit::CommitView;
use crate::commit::EntryView;
use crate::commit::Signature;
use crate::dominators;
use crate::error;
use crate::error::ConvergeError;
use crate::evolution;
use crate::ids;
use crate::ids::CommitId;
use crate::merge;
use crate::merge::Merge;
use crate::model;
use crate::node;
use crate::node::Node;
use crate::paths;
use crate::truncated;
use crate::truncated::TruncatedEvolutionGraph;
use crate::values;

verus! {

/// Something that every commit has a value of.
pub trait Attribute {
    /// The values.
    type Value: Node;

    /// What the value of a commit stands for.
    spec fn shown(commit: CommitView) -> <Self::Value as View>::V;

    /// The value of a commit.
    fn of(commit: &Commit) -> (value: Self::Value)
        ensures
            value@ == Self::shown(commit@),
    ;
}

/// The author of a commit.
pub struct Author;

impl Attribute for Author {
    type Value = Signature;

    open spec fn shown(commit: CommitView) -> <Signature as View>::V {
        commit.author
    }

    fn of(commit: &Commit) -> (value: Signature) {
        commit.author.duplicate()
    }
}

/// The description of a commit.
pub struct Description;

impl Attribute for Description {
    type Value = String;

    open spec fn shown(commit: CommitView) -> <String as View>::V {
        commit.description
    }

    fn of(commit: &Commit) -> (value: String) {
        commit.description.clone()
    }
}

/// All values are the base or `value`, and some value is `value`: nobody changed the base, or
/// everybody who did made the same change.
pub open spec fn is_converged<V>(base: V, sides: Seq<V>, value: V) -> bool {
    &&& sides.contains(value)
    &&& forall|i: int| 0 <= i < sides.len() ==> (#[trigger] sides[i]) == base || sides[i] == value
}

/// There is at most one value that the sides converge to.
pub proof fn lemma_converged_unique<V>(base: V, sides: Seq<V>, a: V, b: V)
    requires
        is_converged(base, sides, a),
        is_converged(base, sides, b),
    ensures
        a == b,
{
    let i = choose|i: int| 0 <= i < sides.len() && sides[i] == a;
    let j = choose|j: int| 0 <= j < sides.len() && sides[j] == b;
    assert(sides[i] == base || sides[i] == b);
    assert(sides[j] == base || sides[j] == a);
}

/// Sides that agree converge to the value that they agree on.
pub proof fn lemma_equal_sides_converge<V>(base: V, sides: Seq<V>, value: V)
    requires
        sides.len() > 0,
        forall|i: int| 0 <= i < sides.len() ==> (#[trigger] sides[i]) == value,
    ensures
        is_converged(base, sides, value),
{
    assert(sides[0] == value);
}

/// If one side changed the base and the others did not, they converge to the changed value.
pub proof fn lemma_single_change_converges<V>(base: V, sides: Seq<V>, changed: int)
    requires
        0 <= changed < sides.len(),
        forall|i: int| 0 <= i < sides.len() && i != changed ==> (#[trigger] sides[i]) == base,
    ensures
        is_converged(base, sides, sides[changed]),
{
}

/// The terms of the merge that converges the sides: first the base, then each side with the base
/// that it changed.
pub open spec fn merge_terms<V>(base: V, sides: Seq<V>) -> Seq<V>
    decreases sides.len(),
{
    if sides.len() == 0 {
        seq![base]
    } else {
        merge_terms(base, sides.drop_last()).push(base).push(sides.last())
    }
}

/// How often a value occurs.
spec fn times<V>(sides: Seq<V>, value: V) -> int
    decreases sides.len(),
{
    if sides.len() == 0 {
        0
    } else {
        times(sides.drop_last(), value) + if sides.last() == value {
            1int
        } else {
            0int
        }
    }
}

/// A value occurs at most as often as there are sides, and more than zero times just if it
/// occurs.
proof fn lemma_times<V>(sides: Seq<V>, value: V)
    ensures
        0 <= times(sides, value) <= sides.len(),
        times(sides, value) > 0 <==> sides.contains(value),
        times(sides, value) == sides.len() <==> forall|i: int|
            0 <= i < sides.len() ==> (#[trigger] sides[i]) == value,
    decreases sides.len(),
{
    if sides.len() > 0 {
        let init = sides.drop_last();
        let last = sides.len() - 1;
        lemma_times(init, value);
        assert(sides[last] == sides.last());
        if init.contains(value) {
            let i = choose|i: int| 0 <= i < init.len() && init[i] == value;
            assert(sides[i] == value);
        }
        if sides.contains(value) {
            let i = choose|i: int| 0 <= i < sides.len() && sides[i] == value;
            if i < last {
                assert(init[i] == value);
            }
        }
        if forall|i: int| 0 <= i < sides.len() ==> (#[trigger] sides[i]) == value {
            assert forall|i: int| 0 <= i < init.len() implies (#[trigger] init[i]) == value by {
                assert(sides[i] == init[i]);
            }
        }
        if times(sides, value) == sides.len() {
            assert forall|i: int| 0 <= i < sides.len() implies (#[trigger] sides[i]) == value by {
                if i < last {
                    assert(init[i] == sides[i]);
                }
            }
        }
    }
}

/// Where there are only two values, together they occur as often as there are sides.
proof fn lemma_times_of_two<V>(sides: Seq<V>, a: V, b: V)
    requires
        a != b,
        forall|i: int| 0 <= i < sides.len() ==> (#[trigger] sides[i]) == a || sides[i] == b,
    ensures
        times(sides, a) + times(sides, b) == sides.len(),
    decreases sides.len(),
{
    if sides.len() > 0 {
        let init = sides.drop_last();
        assert forall|i: int| 0 <= i < init.len() implies (#[trigger] init[i]) == a || init[i]
            == b by {
            assert(sides[i] == init[i]);
        }
        lemma_times_of_two(init, a, b);
        assert(sides[sides.len() - 1] == sides.last());
    }
}

/// On balance each side is added, and the base is removed once less than there are sides.
proof fn lemma_balance<V>(base: V, sides: Seq<V>, value: V)
    ensures
        merge_terms(base, sides).len() == 2 * sides.len() + 1,
        merge::balance(merge_terms(base, sides), value) == times(sides, value) + if value == base {
            1 - sides.len()
        } else {
            0
        },
    decreases sides.len(),
{
    if sides.len() == 0 {
        let terms = seq![base];
        assert(terms.drop_last() =~= Seq::<V>::empty());
        assert(terms.last() == base);
        assert(merge::balance(terms.drop_last(), value) == 0);
    } else {
        let init = sides.drop_last();
        lemma_balance(base, init, value);
        let inner = merge_terms(base, init);
        let middle = inner.push(base);
        let terms = middle.push(sides.last());
        assert(terms.drop_last() =~= middle);
        assert(middle.drop_last() =~= inner);
        assert(terms.last() == sides.last());
        assert(middle.last() == base);
        assert(merge::balance(middle, value) == merge::balance(inner, value) - if value == base {
            1int
        } else {
            0int
        });
        assert(merge::balance(terms, value) == merge::balance(middle, value) + if value
            == sides.last() {
            1int
        } else {
            0int
        });
    }
}

/// The merge of the sides resolves to the value that they converge to.
pub proof fn lemma_merge_converges<V>(base: V, sides: Seq<V>, value: V)
    requires
        sides.len() > 0,
    ensures
        merge::resolves_to(merge_terms(base, sides), value) <==> is_converged(base, sides, value),
{
    let terms = merge_terms(base, sides);
    lemma_balance(base, sides, value);
    lemma_balance(base, sides, base);
    lemma_times(sides, value);
    lemma_times(sides, base);
    if is_converged(base, sides, value) {
        if value != base {
            lemma_times_of_two(sides, base, value);
        }
        assert forall|v: V| v != value && v != base implies #[trigger] merge::balance(terms, v)
            == 0 by {
            lemma_balance(base, sides, v);
            lemma_times(sides, v);
        }
        if value == base {
            assert(forall|i: int| 0 <= i < sides.len() ==> (#[trigger] sides[i]) == base);
        }
    }
    if merge::resolves_to(terms, value) {
        if value == base {
            assert(times(sides, base) == sides.len());
            assert(sides[0] == base);
        } else {
            assert forall|i: int| 0 <= i < sides.len() implies (#[trigger] sides[i]) == base
                || sides[i] == value by {
                let v = sides[i];
                if v != base {
                    assert(sides.contains(v));
                    lemma_times(sides, v);
                    lemma_balance(base, sides, v);
                    assert(merge::balance(terms, v) > 0);
                }
            }
        }
    }
}

/// The values of the nodes of a graph, in order.
pub open spec fn node_values<A: Attribute>(
    graph: Seq<(Seq<u8>, Seq<Seq<u8>>)>,
    entries: Seq<EntryView>,
) -> Seq<<A::Value as View>::V> {
    model::nodes(graph).map_values(|id: Seq<u8>| A::shown(truncated::commit_of(entries, id)))
}

/// The values of some commits.
pub open spec fn sides_of<A: Attribute>(commits: Seq<CommitView>) -> Seq<<A::Value as View>::V> {
    commits.map_values(|commit: CommitView| A::shown(commit))
}

/// `base` is the dominator value of the commits: the closest common dominator of their values in
/// the history of the values.
pub open spec fn is_base_value<A: Attribute>(
    graph: TruncatedEvolutionGraph,
    commits: Seq<CommitView>,
    base: <A::Value as View>::V,
) -> bool {
    values::is_dominator_value(
        graph.flow_graph.graph@,
        graph.flow_graph.start_node@,
        node_values::<A>(graph.flow_graph.graph@, graph.entries()),
        evolution::ids_of(commits),
        base,
    )
}

/// The dominator value of the commits.
pub open spec fn base_value<A: Attribute>(
    graph: TruncatedEvolutionGraph,
    commits: Seq<CommitView>,
) -> <A::Value as View>::V {
    choose|base: <A::Value as View>::V| is_base_value::<A>(graph, commits, base)
}

/// The value that the commits converge to, if there is one.
pub open spec fn converged<A: Attribute>(
    graph: TruncatedEvolutionGraph,
    commits: Seq<CommitView>,
) -> Option<<A::Value as View>::V> {
    let base = base_value::<A>(graph, commits);
    let sides = sides_of::<A>(commits);
    if exists|value: <A::Value as View>::V| is_converged(base, sides, value) {
        Some(choose|value: <A::Value as View>::V| is_converged(base, sides, value))
    } else {
        None
    }
}

/// There are some commits, and all of them are in the graph.
pub open spec fn are_in_graph(graph: TruncatedEvolutionGraph, commits: Seq<CommitView>) -> bool {
    &&& commits.len() > 0
    &&& forall|i: int|
        0 <= i < commits.len() ==> model::has_node(
            graph.flow_graph.graph@,
            (#[trigger] commits[i]).id,
        )
}

/// The first node in the graph that has no entry stands at `i`.
pub open spec fn is_first_unlisted(graph: TruncatedEvolutionGraph, i: int) -> bool {
    let flow = graph.flow_graph.graph@;
    &&& 0 <= i < flow.len()
    &&& !evolution::is_recorded(graph.entries(), flow[i].0)
    &&& forall|j: int|
        0 <= j < i ==> evolution::is_recorded(graph.entries(), (#[trigger] flow[j]).0)
}

/// Why the commits have no dominator value, where the nodes of the graph have the given values,
/// if so.
pub open spec fn dominator_error<V>(
    graph: TruncatedEvolutionGraph,
    node_values: Seq<V>,
    commits: Seq<CommitView>,
) -> Option<Seq<char>> {
    let flow = graph.flow_graph.graph@;
    if !are_in_graph(graph, commits) {
        Some("Target set is empty or has nodes not present in the flow graph"@)
    } else if !dominators::is_valid_flow_graph(
        values::value_graph(flow, node_values),
        values::value_of(flow, node_values, graph.flow_graph.start_node@),
    ) {
        Some("Invalid flow graph: some nodes are unreachable from the start node"@)
    } else {
        None
    }
}

/// Why an attribute of the commits has no dominator value, if so.
pub open spec fn base_error<A: Attribute>(
    graph: TruncatedEvolutionGraph,
    commits: Seq<CommitView>,
) -> Option<Seq<char>> {
    let flow = graph.flow_graph.graph@;
    if exists|i: int| is_first_unlisted(graph, i) {
        let i = choose|i: int| is_first_unlisted(graph, i);
        Some("Unexpected commit id: "@ + ids::hex_digits(flow[i].0))
    } else {
        dominator_error(graph, node_values::<A>(flow, graph.entries()), commits)
    }
}

/// Commits in a graph with a fork point always have a dominator value.
pub proof fn lemma_base_value_exists<A: Attribute>(
    graph: TruncatedEvolutionGraph,
    commits: Seq<CommitView>,
)
    requires
        graph.has_fork_point(),
        are_in_graph(graph, commits),
    ensures
        base_error::<A>(graph, commits) is None,
{
    let flow = graph.flow_graph.graph@;
    assert forall|i: int| !is_first_unlisted(graph, i) by {
        if is_first_unlisted(graph, i) {
            assert(model::has_node(flow, flow[i].0));
        }
    }
    values::lemma_value_graph_valid(
        flow,
        graph.flow_graph.start_node@,
        node_values::<A>(flow, graph.entries()),
    );
}

/// The commits have at most one dominator value.
pub proof fn lemma_base_value_unique<A: Attribute>(
    graph: TruncatedEvolutionGraph,
    commits: Seq<CommitView>,
    a: <A::Value as View>::V,
    b: <A::Value as View>::V,
)
    requires
        graph.wf(),
        base_error::<A>(graph, commits) is None,
        is_base_value::<A>(graph, commits, a),
        is_base_value::<A>(graph, commits, b),
    ensures
        a == b,
{
    let flow = graph.flow_graph.graph@;
    let start = graph.flow_graph.start_node@;
    let shown = node_values::<A>(flow, graph.entries());
    let ids = evolution::ids_of(commits);
    values::lemma_value_graph(flow, shown);
    let targets = values::values_of(flow, shown, ids);
    assert(ids[0] == commits[0].id);
    assert(targets[0] == values::value_of(flow, shown, ids[0]));
    assert(shown[model::position(flow, ids[0])] == targets[0]);
    assert(shown.contains(targets[0]));
    assert(model::has_node(values::value_graph(flow, shown), targets[0]));
    paths::lemma_closest_common_dominator_unique(
        model::edge_set(values::value_graph(flow, shown)),
        values::value_of(flow, shown, start),
        a,
        b,
        targets,
    );
}

/// The identifiers of some commits.
fn list_ids(commits: &[Commit]) -> (ids: Vec<CommitId>)
    ensures
        node::shown(ids@) == evolution::ids_of(node::shown(commits@)),
{
    let ghost shown = node::shown(commits@);
    let mut ids: Vec<CommitId> = Vec::new();
    let mut i: usize = 0;
    while i < commits.len()
        invariant
            i <= commits@.len(),
            shown == node::shown(commits@),
            ids@.len() == i,
            forall|j: int| 0 <= j < i ==> (#[trigger] ids@[j])@ == shown[j].id,
        decreases commits@.len() - i,
    {
        assert(shown[i as int] == commits@[i as int]@);
        ids.push(commits[i].id.duplicate());
        i = i + 1;
    }
    assert(node::shown(ids@) =~= evolution::ids_of(shown));
    ids
}

/// Finds the dominator value of the given commits, where `node_values` holds a value for each
/// commit in the graph.
fn find_dominator<T: Node>(
    graph: &TruncatedEvolutionGraph,
    divergent_commits: &[Commit],
    node_values: &Vec<T>,
) -> (base: Result<T, ConvergeError>)
    requires
        graph.wf(),
        node_values@.len() == graph.flow_graph.graph@.len(),
    ensures
        match dominator_error(*graph, node::shown(node_values@), node::shown(divergent_commits@)) {
            Some(message) => error::is_other(base, message),
            None => base is Ok && values::is_dominator_value(
                graph.flow_graph.graph@,
                graph.flow_graph.start_node@,
                node::shown(node_values@),
                evolution::ids_of(node::shown(divergent_commits@)),
                base->Ok_0@,
            ),
        },
{
    let ghost flow = graph.flow_graph.graph@;
    let ghost commits = node::shown(divergent_commits@);
    let ghost wanted = evolution::ids_of(commits);
    let divergent_commit_ids = list_ids(divergent_commits);
    proof {
        assert(divergent_commit_ids@.len() == node::shown(divergent_commit_ids@).len());
        assert forall|j: int| 0 <= j < commits.len() implies (#[trigger] commits[j]).id
            == divergent_commit_ids@[j]@ by {
            assert(node::shown(divergent_commit_ids@)[j] == divergent_commit_ids@[j]@);
            assert(wanted[j] == commits[j].id);
        }
        assert(model::has_node(flow, graph.flow_graph.start_node@));
    }
    let mut missing = divergent_commit_ids.len() == 0;
    let mut i: usize = 0;
    while i < divergent_commit_ids.len()
        invariant
            i <= divergent_commit_ids@.len(),
            flow == graph.flow_graph.graph@,
            !missing <==> divergent_commit_ids@.len() > 0 && forall|j: int|
                0 <= j < i ==> model::has_node(flow, #[trigger] divergent_commit_ids@[j]@),
        decreases divergent_commit_ids@.len() - i,
    {
        if !graph.flow_graph.graph.contains_node(&divergent_commit_ids[i]) {
            assert(!model::has_node(flow, divergent_commit_ids@[i as int]@));
            missing = true;
        }
        i = i + 1;
    }
    proof {
        if !missing {
            assert forall|j: int| 0 <= j < commits.len() implies model::has_node(
                flow,
                (#[trigger] commits[j]).id,
            ) by {
                assert(model::has_node(flow, divergent_commit_ids@[j]@));
            }
        }
        if are_in_graph(*graph, commits) {
            assert forall|j: int| 0 <= j < divergent_commit_ids@.len() implies model::has_node(
                flow,
                #[trigger] divergent_commit_ids@[j]@,
            ) by {
                assert(model::has_node(flow, commits[j].id));
            }
        }
    }
    if missing {
        return Err(
            ConvergeError::Other(
                "Target set is empty or has nodes not present in the flow graph".to_owned(),
            ),
        );
    }
    match graph.flow_graph.find_dominator_value(&divergent_commit_ids, node_values) {
        Some(value) => Ok(value),
        None => Err(
            ConvergeError::Other(
                "Invalid flow graph: some nodes are unreachable from the start node".to_owned(),
            ),
        ),
    }
}

/// Finds the dominator value of the given commits. There is always one if the graph has a fork
/// point and the commits are in it.
pub fn find_dominator_value<A: Attribute>(
    graph: &TruncatedEvolutionGraph,
    divergent_commits: &[Commit],
) -> (base: Result<A::Value, ConvergeError>)
    requires
        graph.wf(),
    ensures
        match base_error::<A>(*graph, node::shown(divergent_commits@)) {
            Some(message) => error::is_other(base, message),
            None => base is Ok && is_base_value::<A>(
                *graph,
                node::shown(divergent_commits@),
                base->Ok_0@,
            ),
        },
{
    let ghost flow = graph.flow_graph.graph@;
    let ghost wanted = node_values::<A>(flow, graph.entries());
    let nodes = graph.flow_graph.graph.nodes();
    let ghost shown_nodes = node::shown(nodes@);
    assert(shown_nodes.len() == nodes@.len());
    let mut node_values: Vec<A::Value> = Vec::new();
    let mut i: usize = 0;
    while i < nodes.len()
        invariant
            i <= nodes@.len(),
            graph.wf(),
            flow == graph.flow_graph.graph@,
            shown_nodes == node::shown(nodes@),
            shown_nodes == model::nodes(flow),
            shown_nodes.len() == flow.len(),
            wanted == self::node_values::<A>(flow, graph.entries()),
            node_values@.len() == i,
            forall|j: int| 0 <= j < i ==> (#[trigger] node_values@[j])@ == wanted[j],
            forall|j: int|
                0 <= j < i ==> evolution::is_recorded(graph.entries(), (#[trigger] flow[j]).0),
        decreases nodes@.len() - i,
    {
        proof {
            assert(shown_nodes[i as int] == nodes@[i as int]@);
            assert(model::nodes(flow)[i as int] == flow[i as int].0);
        }
        match graph.get_commit(nodes[i]) {
            Ok(commit) => {
                node_values.push(A::of(commit));
            },
            Err(err) => {
                proof {
                    assert(is_first_unlisted(*graph, i as int));
                    let k = choose|k: int| is_first_unlisted(*graph, k);
                    assert(k == i) by {
                        if k < i {
                            assert(evolution::is_recorded(graph.entries(), flow[k].0));
                        }
                        if i < k {
                            assert(evolution::is_recorded(graph.entries(), flow[i as int].0));
                        }
                    }
                }
                return Err(err);
            },
        }
        i = i + 1;
    }
    proof {
        assert(node::shown(node_values@) =~= wanted);
        assert forall|k: int| !is_first_unlisted(*graph, k) by {
            if 0 <= k < flow.len() {
                assert(evolution::is_recorded(graph.entries(), flow[k].0));
            }
        }
    }
    find_dominator(graph, divergent_commits, &node_values)
}

/// The value at `i` is the dominator value of the commits, and no value before it.
pub open spec fn is_first_dominator<V>(
    graph: TruncatedEvolutionGraph,
    node_values: Seq<V>,
    commits: Seq<CommitView>,
    i: int,
) -> bool {
    &&& 0 <= i < node_values.len()
    &&& values::is_dominator_value(
        graph.flow_graph.graph@,
        graph.flow_graph.start_node@,
        node_values,
        evolution::ids_of(commits),
        node_values[i],
    )
    &&& forall|j: int| 0 <= j < i ==> (#[trigger] node_values[j]) != node_values[i]
}

/// Finds the commit to start from when the trees of the divergent commits are merged: the first
/// one in the graph whose value is the dominator value, where `node_values` holds a value for
/// each commit in the graph.
pub fn find_tree_base<'a, T: Node>(
    graph: &'a TruncatedEvolutionGraph,
    divergent_commits: &[Commit],
    node_values: &Vec<T>,
) -> (base: Result<&'a Commit, ConvergeError>)
    requires
        graph.wf(),
        node_values@.len() == graph.flow_graph.graph@.len(),
    ensures
        match dominator_error(*graph, node::shown(node_values@), node::shown(divergent_commits@)) {
            Some(message) => error::is_other(base, message),
            None => exists|i: int| #[trigger]
                is_first_dominator(
                    *graph,
                    node::shown(node_values@),
                    node::shown(divergent_commits@),
                    i,
                ) && {
                    let id = graph.flow_graph.graph@[i].0;
                    if evolution::is_recorded(graph.entries(), id) {
                        base matches Ok(base) && base@ == truncated::commit_of(graph.entries(), id)
                    } else {
                        error::is_other(base, "Unexpected commit id: "@ + ids::hex_digits(id))
                    }
                },
        },
{
    let ghost flow = graph.flow_graph.graph@;
    let ghost start = graph.flow_graph.start_node@;
    let ghost commits = node::shown(divergent_commits@);
    let ghost shown_values = node::shown(node_values@);
    let dominator_value = match find_dominator(graph, divergent_commits, node_values) {
        Ok(value) => value,
        Err(err) => {
            return Err(err);
        },
    };
    proof {
        let wanted = evolution::ids_of(commits);
        assert(wanted[0] == commits[0].id);
        values::lemma_dominator_value_occurs(flow, start, shown_values, wanted, dominator_value@);
    }
    let nodes = graph.flow_graph.graph.nodes();
    let ghost shown_nodes = node::shown(nodes@);
    assert(shown_nodes.len() == nodes@.len());
    let mut i: usize = 0;
    while i < node_values.len() && !node_values[i].same(&dominator_value)
        invariant
            i <= node_values@.len(),
            shown_values == node::shown(node_values@),
            forall|j: int| 0 <= j < i ==> (#[trigger] shown_values[j]) != dominator_value@,
        decreases node_values@.len() - i,
    {
        assert(shown_values[i as int] == node_values@[i as int]@);
        i = i + 1;
    }
    proof {
        let k = choose|k: int| 0 <= k < shown_values.len() && shown_values[k] == dominator_value@;
        assert(shown_values[k] == dominator_value@);
        assert(i < node_values@.len());
        assert(shown_values[i as int] == node_values@[i as int]@);
        assert(is_first_dominator(*graph, shown_values, commits, i as int));
        assert(shown_nodes[i as int] == nodes@[i as int]@);
        assert(model::nodes(flow)[i as int] == flow[i as int].0);
    }
    graph.get_commit(nodes[i])
}

/// The merge of some values, each with the base that it changed.
pub fn merge_sides<T: Node>(base: &T, sides: Vec<T>) -> (merge: Merge<T>)
    ensures
        merge.wf(),
        merge@ == merge_terms(base@, node::shown(sides@)),
{
    let ghost shown = node::shown(sides@);
    let mut merge = Merge::resolved(base.duplicate());
    let mut i: usize = 0;
    proof {
        assert(shown.take(0) =~= Seq::<T::V>::empty());
        assert(merge@ =~= merge_terms(base@, shown.take(0)));
    }
    while i < sides.len()
        invariant
            i <= sides@.len(),
            shown == node::shown(sides@),
            merge.wf(),
            merge@ == merge_terms(base@, shown.take(i as int)),
        decreases sides@.len() - i,
    {
        merge.add_change(base.duplicate(), sides[i].duplicate());
        proof {
            assert(shown.take(i + 1).drop_last() =~= shown.take(i as int));
            assert(shown.take(i + 1).last() == sides@[i as int]@);
        }
        i = i + 1;
    }
    assert(shown.take(i as int) =~= shown);
    merge
}

/// Converges an attribute of the given commits, if all sides that changed it made the same
/// change. The base is the dominator value of the commits.
pub fn converge<A: Attribute>(
    divergent_commits: &[Commit],
    graph: &TruncatedEvolutionGraph,
) -> (value: Result<Option<A::Value>, ConvergeError>)
    requires
        graph.wf(),
    ensures
        match base_error::<A>(*graph, node::shown(divergent_commits@)) {
            Some(message) => error::is_other(value, message),
            None => {
                &&& is_base_value::<A>(
                    *graph,
                    node::shown(divergent_commits@),
                    base_value::<A>(*graph, node::shown(divergent_commits@)),
                )
                &&& value is Ok
                &&& match value->Ok_0 {
                    Some(value) => converged::<A>(*graph, node::shown(divergent_commits@))
                        == Some(value@),
                    None => converged::<A>(*graph, node::shown(divergent_commits@)) is None,
                }
            },
        },
{
    let ghost shown = node::shown(divergent_commits@);
    let ghost wanted = sides_of::<A>(shown);
    let dominator_value = match find_dominator_value::<A>(graph, divergent_commits) {
        Ok(value) => value,
        Err(err) => {
            return Err(err);
        },
    };
    let ghost base = dominator_value@;
    proof {
        lemma_base_value_unique::<A>(*graph, shown, base, base_value::<A>(*graph, shown));
    }
    // Merge the values of the divergent commits, with the dominator value as their base.
    let mut sides: Vec<A::Value> = Vec::new();
    let mut i: usize = 0;
    while i < divergent_commits.len()
        invariant
            i <= divergent_commits@.len(),
            shown == node::shown(divergent_commits@),
            wanted == sides_of::<A>(shown),
            sides@.len() == i,
            forall|j: int| 0 <= j < i ==> (#[trigger] sides@[j])@ == wanted[j],
        decreases divergent_commits@.len() - i,
    {
        assert(shown[i as int] == divergent_commits@[i as int]@);
        sides.push(A::of(&divergent_commits[i]));
        i = i + 1;
    }
    assert(node::shown(sides@) =~= wanted);
    let merge = merge_sides(&dominator_value, sides);
    proof {
        assert forall|v: <A::Value as View>::V| #[trigger] is_converged(base, wanted, v)
            <==> merge::resolves_to(merge@, v) by {
            lemma_merge_converges(base, wanted, v);
        }
    }
    match merge.resolve_trivial() {
        Some(value) => {
            proof {
                lemma_merge_converges(base, wanted, value@);
                let v = choose|v: <A::Value as View>::V| is_converged(base, wanted, v);
                lemma_converged_unique(base, wanted, value@, v);
            }
            Ok(Some(value.duplicate()))
        },
        None => {
            proof {
                assert forall|v: <A::Value as View>::V| !is_converged(base, wanted, v) by {
                    lemma_merge_converges(base, wanted, v);
                }
            }
            Ok(None)
        },
    }
}

} // verus!
