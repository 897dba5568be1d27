//! What the values of divergent commits converge to.
use vstd::prelude::*;

use crate::commit::CommitView;
use crate::commit::EntryView;
use crate::converge;
use crate::converge::Attribute;
use crate::converge::Author;
use crate::converge::Description;
use crate::evolution;
use crate::ids;
use crate::laws::evolution as walks;
use crate::laws::histories;
use crate::laws::values as laws_of_values;
use crate::model;
use crate::paths;
use crate::truncated::TruncatedEvolutionGraph;
use crate::values;

verus! {

/// The attributes of a commit.
pub proof fn lemma_attributes(commit: CommitView)
    ensures
        <Author as Attribute>::shown(commit) == commit.author,
        <Description as Attribute>::shown(commit) == commit.description,
{
}

/// Every commit has its say, in the place where it stands.
pub proof fn lemma_sides<A: Attribute>(commits: Seq<CommitView>)
    ensures
        converge::sides_of::<A>(commits).len() == commits.len(),
        forall|i: int|
            0 <= i < commits.len() ==> (#[trigger] converge::sides_of::<A>(commits)[i])
                == A::shown(commits[i]),
{
}

/// Two sides stand against each other if both changed the base, and not to the same value. There
/// is a value to converge to just if there are sides and no two of them stand against each other.
pub proof fn lemma_when_sides_converge<V>(base: V, sides: Seq<V>)
    ensures
        (exists|value: V| #[trigger] converge::is_converged(base, sides, value)) <==> {
            &&& sides.len() > 0
            &&& forall|i: int, j: int|
                0 <= i < sides.len() && 0 <= j < sides.len() ==> #[trigger] sides[i] == base
                    || #[trigger] sides[j] == base || sides[i] == sides[j]
        },
{
    if exists|value: V| #[trigger] converge::is_converged(base, sides, value) {
        let value = choose|value: V| #[trigger] converge::is_converged(base, sides, value);
        let i = choose|i: int| 0 <= i < sides.len() && sides[i] == value;
        assert(sides[i] == value);
    }
    if sides.len() > 0 && forall|i: int, j: int|
        0 <= i < sides.len() && 0 <= j < sides.len() ==> #[trigger] sides[i] == base
            || #[trigger] sides[j] == base || sides[i] == sides[j] {
        if exists|i: int| 0 <= i < sides.len() && #[trigger] sides[i] != base {
            let i = choose|i: int| 0 <= i < sides.len() && #[trigger] sides[i] != base;
            assert(converge::is_converged(base, sides, sides[i]));
        } else {
            assert(sides[0] == base);
            assert(converge::is_converged(base, sides, base));
        }
    }
}

/// What the sides converge to: a value among them that all sides that changed the base changed it
/// to.
pub proof fn lemma_converged_value<V>(base: V, sides: Seq<V>, value: V)
    ensures
        converge::is_converged(base, sides, value) <==> {
            &&& exists|i: int| 0 <= i < sides.len() && #[trigger] sides[i] == value
            &&& forall|i: int|
                0 <= i < sides.len() && #[trigger] sides[i] != base ==> sides[i] == value
        },
{
    if exists|i: int| 0 <= i < sides.len() && #[trigger] sides[i] == value {
        let i = choose|i: int| 0 <= i < sides.len() && #[trigger] sides[i] == value;
        assert(sides.contains(value));
    }
}

/// Neither the order of the sides nor how often they repeat each other matters.
pub proof fn lemma_converged_by_set<V>(base: V, a: Seq<V>, b: Seq<V>, value: V)
    requires
        forall|v: V| #[trigger] a.contains(v) <==> b.contains(v),
    ensures
        converge::is_converged(base, a, value) <==> converge::is_converged(base, b, value),
{
    if converge::is_converged(base, a, value) {
        assert forall|i: int| 0 <= i < b.len() implies (#[trigger] b[i]) == base || b[i]
            == value by {
            assert(a.contains(b[i]) <==> b.contains(b[i]));
            let j = choose|j: int| 0 <= j < a.len() && a[j] == b[i];
            assert(a[j] == base || a[j] == value);
        }
    }
    if converge::is_converged(base, b, value) {
        assert forall|i: int| 0 <= i < a.len() implies (#[trigger] a[i]) == base || a[i]
            == value by {
            assert(a.contains(a[i]) <==> b.contains(a[i]));
            let j = choose|j: int| 0 <= j < b.len() && b[j] == a[i];
            assert(b[j] == base || b[j] == value);
        }
    }
}

/// If the commits converge to a value, every one of them has the base or that value, and one of
/// them has it. If they do not, two of them changed the base to different values.
pub proof fn lemma_converged<A: Attribute>(
    graph: TruncatedEvolutionGraph,
    commits: Seq<CommitView>,
    base: <A::Value as View>::V,
)
    requires
        graph.wf(),
        converge::base_error::<A>(graph, commits) is None,
        converge::is_base_value::<A>(graph, commits, base),
    ensures
        match converge::converged::<A>(graph, commits) {
            Some(value) => {
                &&& exists|i: int| 0 <= i < commits.len() && A::shown(#[trigger] commits[i]) == value
                &&& forall|i: int|
                    0 <= i < commits.len() ==> A::shown(#[trigger] commits[i]) == base || A::shown(
                        commits[i],
                    ) == value
            },
            None => exists|i: int, j: int|
                0 <= i < commits.len() && 0 <= j < commits.len() && A::shown(#[trigger] commits[i])
                    != A::shown(#[trigger] commits[j]) && A::shown(commits[i]) != base && A::shown(
                    commits[j],
                ) != base,
        },
{
    let sides = converge::sides_of::<A>(commits);
    lemma_sides::<A>(commits);
    converge::lemma_base_value_unique::<A>(
        graph,
        commits,
        base,
        converge::base_value::<A>(graph, commits),
    );
    match converge::converged::<A>(graph, commits) {
        Some(value) => {
            assert(converge::is_converged(base, sides, value));
            let i = choose|i: int| 0 <= i < sides.len() && sides[i] == value;
            assert(A::shown(commits[i]) == value);
            assert forall|i: int| 0 <= i < commits.len() implies A::shown(#[trigger] commits[i])
                == base || A::shown(commits[i]) == value by {
                assert(sides[i] == base || sides[i] == value);
            }
        },
        None => {
            lemma_when_sides_converge(base, sides);
            let (i, j) = choose|i: int, j: int|
                0 <= i < sides.len() && 0 <= j < sides.len() && !(#[trigger] sides[i] == base
                    || #[trigger] sides[j] == base || sides[i] == sides[j]);
            assert(A::shown(commits[i]) == sides[i]);
            assert(A::shown(commits[j]) == sides[j]);
        },
    }
}

/// If every commit has the base or the value, and one of them has the value, the commits converge
/// to it.
pub proof fn lemma_converges_to<A: Attribute>(
    graph: TruncatedEvolutionGraph,
    commits: Seq<CommitView>,
    base: <A::Value as View>::V,
    value: <A::Value as View>::V,
)
    requires
        graph.wf(),
        converge::base_error::<A>(graph, commits) is None,
        converge::is_base_value::<A>(graph, commits, base),
        exists|i: int| 0 <= i < commits.len() && A::shown(#[trigger] commits[i]) == value,
        forall|i: int|
            0 <= i < commits.len() ==> A::shown(#[trigger] commits[i]) == base || A::shown(
                commits[i],
            ) == value,
    ensures
        converge::converged::<A>(graph, commits) == Some(value),
{
    lemma_converged::<A>(graph, commits, base);
    let i = choose|i: int| 0 <= i < commits.len() && A::shown(#[trigger] commits[i]) == value;
    assert(A::shown(commits[i]) == value);
}

/// Two commits that changed the base to different values keep the commits from converging.
pub proof fn lemma_does_not_converge<A: Attribute>(
    graph: TruncatedEvolutionGraph,
    commits: Seq<CommitView>,
    base: <A::Value as View>::V,
    i: int,
    j: int,
)
    requires
        graph.wf(),
        converge::base_error::<A>(graph, commits) is None,
        converge::is_base_value::<A>(graph, commits, base),
        0 <= i < commits.len(),
        0 <= j < commits.len(),
        A::shown(commits[i]) != base,
        A::shown(commits[j]) != base,
        A::shown(commits[i]) != A::shown(commits[j]),
    ensures
        converge::converged::<A>(graph, commits) is None,
{
    lemma_converged::<A>(graph, commits, base);
}

/// Commits with the same value converge to it, whatever their history is.
pub proof fn lemma_agreeing_commits_converge<A: Attribute>(
    graph: TruncatedEvolutionGraph,
    commits: Seq<CommitView>,
    value: <A::Value as View>::V,
)
    requires
        commits.len() > 0,
        forall|i: int| 0 <= i < commits.len() ==> A::shown(#[trigger] commits[i]) == value,
    ensures
        converge::converged::<A>(graph, commits) == Some(value),
{
    let base = converge::base_value::<A>(graph, commits);
    let sides = converge::sides_of::<A>(commits);
    assert forall|i: int| 0 <= i < sides.len() implies (#[trigger] sides[i]) == value by {
        assert(A::shown(commits[i]) == value);
    }
    converge::lemma_equal_sides_converge(base, sides, value);
    let other = choose|other: <A::Value as View>::V| converge::is_converged(base, sides, other);
    converge::lemma_converged_unique(base, sides, value, other);
}

/// The node values are those of the commits in the entries, each in the place of its node.
pub proof fn lemma_node_values<A: Attribute>(
    graph: Seq<(Seq<u8>, Seq<Seq<u8>>)>,
    entries: Seq<EntryView>,
)
    requires
        evolution::has_distinct_ids(entries),
    ensures
        converge::node_values::<A>(graph, entries).len() == graph.len(),
        forall|i: int, e: int|
            0 <= i < graph.len() && 0 <= e < entries.len() && (#[trigger] graph[i]).0 == (
            #[trigger] entries[e]).commit.id ==> converge::node_values::<A>(graph, entries)[i]
                == A::shown(entries[e].commit),
{
    let shown = converge::node_values::<A>(graph, entries);
    assert forall|i: int, e: int|
        0 <= i < graph.len() && 0 <= e < entries.len() && (#[trigger] graph[i]).0 == (
        #[trigger] entries[e]).commit.id implies shown[i] == A::shown(entries[e].commit) by {
        histories::lemma_commit_of(entries, e);
        assert(model::nodes(graph)[i] == graph[i].0);
    }
}

/// `edges` are the steps that the attribute took: one for every edge between commits with these
/// values.
pub open spec fn are_steps_of<A: Attribute>(
    graph: TruncatedEvolutionGraph,
    edges: Set<(<A::Value as View>::V, <A::Value as View>::V)>,
) -> bool {
    forall|v: <A::Value as View>::V, w: <A::Value as View>::V| #[trigger]
        edges.contains((v, w)) <==> exists|a: int, b: int|
            0 <= a < graph.entries().len() && 0 <= b < graph.entries().len()
                && #[trigger] model::has_edge(
                graph.flow_graph.graph@,
                graph.entries()[a].commit.id,
                graph.entries()[b].commit.id,
            ) && A::shown(graph.entries()[a].commit) == v && A::shown(graph.entries()[b].commit)
                == w
}

/// `shown` are the values that the commits have in the entries of the graph.
pub open spec fn are_values_in<A: Attribute>(
    graph: TruncatedEvolutionGraph,
    commits: Seq<CommitView>,
    shown: Seq<<A::Value as View>::V>,
) -> bool {
    &&& shown.len() == commits.len()
    &&& forall|t: int, e: int|
        0 <= t < commits.len() && 0 <= e < graph.entries().len() && (
        #[trigger] graph.entries()[e]).commit.id == (#[trigger] commits[t]).id ==> shown[t]
            == A::shown(graph.entries()[e].commit)
}

/// Every node of the graph has an entry.
pub open spec fn has_all_entries(graph: TruncatedEvolutionGraph) -> bool {
    forall|i: int|
        0 <= i < graph.flow_graph.graph@.len() ==> walks::has_entry_for(
            graph.entries(),
            (#[trigger] graph.flow_graph.graph@[i]).0,
        )
}

/// The steps that the attribute took are those between the values of the nodes.
proof fn lemma_steps_between_values<A: Attribute>(
    graph: TruncatedEvolutionGraph,
    edges: Set<(<A::Value as View>::V, <A::Value as View>::V)>,
)
    requires
        graph.wf(),
        has_all_entries(graph),
        are_steps_of::<A>(graph, edges),
    ensures
        laws_of_values::are_value_steps(
            graph.flow_graph.graph@,
            converge::node_values::<A>(graph.flow_graph.graph@, graph.entries()),
            edges,
        ),
{
    let flow = graph.flow_graph.graph@;
    let entries = graph.entries();
    let shown = converge::node_values::<A>(flow, entries);
    lemma_node_values::<A>(flow, entries);
    assert forall|v: <A::Value as View>::V, w: <A::Value as View>::V| #[trigger]
        edges.contains((v, w)) <==> exists|i: int, j: int|
            0 <= i < flow.len() && 0 <= j < flow.len() && #[trigger] model::has_edge(
                flow,
                flow[i].0,
                flow[j].0,
            ) && shown[i] == v && shown[j] == w by {
        if edges.contains((v, w)) {
            let (a, b) = choose|a: int, b: int|
                0 <= a < entries.len() && 0 <= b < entries.len() && #[trigger] model::has_edge(
                    flow,
                    entries[a].commit.id,
                    entries[b].commit.id,
                ) && A::shown(entries[a].commit) == v && A::shown(entries[b].commit) == w;
            model::lemma_edge_ends(flow, entries[a].commit.id, entries[b].commit.id);
            let i = model::position(flow, entries[a].commit.id);
            let j = model::position(flow, entries[b].commit.id);
            assert(flow[i].0 == entries[a].commit.id && flow[j].0 == entries[b].commit.id);
            assert(model::has_edge(flow, flow[i].0, flow[j].0));
        }
        if exists|i: int, j: int|
            0 <= i < flow.len() && 0 <= j < flow.len() && #[trigger] model::has_edge(
                flow,
                flow[i].0,
                flow[j].0,
            ) && shown[i] == v && shown[j] == w {
            let (i, j) = choose|i: int, j: int|
                0 <= i < flow.len() && 0 <= j < flow.len() && #[trigger] model::has_edge(
                    flow,
                    flow[i].0,
                    flow[j].0,
                ) && shown[i] == v && shown[j] == w;
            assert(walks::has_entry_for(entries, flow[i].0));
            assert(walks::has_entry_for(entries, flow[j].0));
            let a = choose|a: int|
                0 <= a < entries.len() && (#[trigger] entries[a]).commit.id == flow[i].0;
            let b = choose|b: int|
                0 <= b < entries.len() && (#[trigger] entries[b]).commit.id == flow[j].0;
            assert(model::has_edge(flow, entries[a].commit.id, entries[b].commit.id));
        }
    }
}

/// The base is the closest value that all steps of the attribute, from its value in the fork point
/// to those in the divergent commits, lead through.
pub proof fn lemma_base_value<A: Attribute>(
    graph: TruncatedEvolutionGraph,
    commits: Seq<CommitView>,
    base: <A::Value as View>::V,
    edges: Set<(<A::Value as View>::V, <A::Value as View>::V)>,
    start: int,
    shown: Seq<<A::Value as View>::V>,
)
    requires
        graph.wf(),
        has_all_entries(graph),
        forall|t: int|
            0 <= t < commits.len() ==> walks::has_entry_for(
                graph.entries(),
                (#[trigger] commits[t]).id,
            ),
        0 <= start < graph.entries().len(),
        graph.entries()[start].commit.id == graph.flow_graph.start_node@,
        are_steps_of::<A>(graph, edges),
        are_values_in::<A>(graph, commits, shown),
    ensures
        converge::is_base_value::<A>(graph, commits, base)
            <==> paths::is_closest_common_dominator(
            edges,
            A::shown(graph.entries()[start].commit),
            base,
            shown,
        ),
{
    let flow = graph.flow_graph.graph@;
    let entries = graph.entries();
    let all = converge::node_values::<A>(flow, entries);
    let wanted = evolution::ids_of(commits);
    lemma_node_values::<A>(flow, entries);
    lemma_steps_between_values::<A>(graph, edges);
    assert(evolution::is_recorded(entries, graph.flow_graph.start_node@));
    let s = model::position(flow, graph.flow_graph.start_node@);
    assert(flow[s].0 == entries[start].commit.id);
    assert(wanted.len() == commits.len());
    assert forall|t: int| 0 <= t < wanted.len() implies exists|i: int|
        0 <= i < flow.len() && (#[trigger] flow[i]).0 == #[trigger] wanted[t] by {
        assert(wanted[t] == commits[t].id);
        assert(walks::has_entry_for(entries, commits[t].id));
        assert(evolution::is_recorded(entries, wanted[t]));
        assert(model::has_node(flow, wanted[t]));
    }
    assert forall|t: int, i: int|
        0 <= t < wanted.len() && 0 <= i < flow.len() && (#[trigger] flow[i]).0
            == #[trigger] wanted[t] implies shown[t] == all[i] by {
        assert(wanted[t] == commits[t].id);
        assert(walks::has_entry_for(entries, flow[i].0));
        let e = choose|e: int|
            0 <= e < entries.len() && (#[trigger] entries[e]).commit.id == flow[i].0;
        assert(entries[e].commit.id == commits[t].id);
    }
    laws_of_values::lemma_dominator_value(flow, s, all, wanted, base, edges, shown);
}

/// There is a base just if every node has an entry, there are divergent commits, all of them are
/// in the graph, and steps lead from the value in the fork point to every value.
pub proof fn lemma_base_error<A: Attribute>(
    graph: TruncatedEvolutionGraph,
    commits: Seq<CommitView>,
    edges: Set<(<A::Value as View>::V, <A::Value as View>::V)>,
    start: int,
)
    requires
        graph.wf(),
        0 <= start < graph.entries().len(),
        graph.entries()[start].commit.id == graph.flow_graph.start_node@,
        are_steps_of::<A>(graph, edges),
    ensures
        converge::base_error::<A>(graph, commits) is None <==> {
            &&& has_all_entries(graph)
            &&& commits.len() > 0
            &&& forall|t: int|
                0 <= t < commits.len() ==> walks::has_entry_for(
                    graph.entries(),
                    (#[trigger] commits[t]).id,
                )
            &&& forall|e: int|
                0 <= e < graph.entries().len() ==> paths::reaches(
                    edges,
                    A::shown(graph.entries()[start].commit),
                    A::shown((#[trigger] graph.entries()[e]).commit),
                )
        },
        !has_all_entries(graph) ==> exists|i: int|
            0 <= i < graph.flow_graph.graph@.len() && !walks::has_entry_for(
                graph.entries(),
                (#[trigger] graph.flow_graph.graph@[i]).0,
            ) && (forall|j: int|
                0 <= j < i ==> walks::has_entry_for(
                    graph.entries(),
                    (#[trigger] graph.flow_graph.graph@[j]).0,
                )) && converge::base_error::<A>(graph, commits) == Some(
                "Unexpected commit id: "@ + ids::hex_digits(graph.flow_graph.graph@[i].0),
            ),
        has_all_entries(graph) && (commits.len() == 0 || exists|t: int|
            0 <= t < commits.len() && !walks::has_entry_for(
                graph.entries(),
                (#[trigger] commits[t]).id,
            )) ==> converge::base_error::<A>(graph, commits) == Some(
            "Target set is empty or has nodes not present in the flow graph"@,
        ),
{
    let flow = graph.flow_graph.graph@;
    let entries = graph.entries();
    let all = converge::node_values::<A>(flow, entries);
    let from = graph.flow_graph.start_node@;
    lemma_node_values::<A>(flow, entries);
    assert forall|k: Seq<u8>| #[trigger]
        evolution::is_recorded(entries, k) <==> walks::has_entry_for(entries, k) by {}
    if !has_all_entries(graph) {
        let i = lemma_first_without_entry(graph);
        assert(converge::is_first_unlisted(graph, i));
        let k = choose|k: int| converge::is_first_unlisted(graph, k);
        assert(k == i) by {
            if k < i {
                assert(evolution::is_recorded(entries, flow[k].0));
            }
            if i < k {
                assert(evolution::is_recorded(entries, flow[i].0));
            }
        }
    } else {
        assert forall|i: int| !converge::is_first_unlisted(graph, i) by {
            if 0 <= i < flow.len() {
                assert(walks::has_entry_for(entries, flow[i].0));
            }
        }
        assert forall|t: int| 0 <= t < commits.len() implies (model::has_node(
            flow,
            (#[trigger] commits[t]).id,
        ) <==> walks::has_entry_for(entries, commits[t].id)) by {
            if model::has_node(flow, commits[t].id) {
                let p = model::position(flow, commits[t].id);
                assert(walks::has_entry_for(entries, flow[p].0));
            } else {
                assert(!evolution::is_recorded(entries, commits[t].id));
            }
        }
        lemma_steps_between_values::<A>(graph, edges);
        assert(evolution::is_recorded(entries, from));
        let s = model::position(flow, from);
        assert(flow[s].0 == entries[start].commit.id);
        laws_of_values::lemma_values_reached(flow, s, all, edges);
        if forall|i: int|
            0 <= i < all.len() ==> paths::reaches(edges, all[s], #[trigger] all[i]) {
            assert forall|e: int| 0 <= e < entries.len() implies paths::reaches(
                edges,
                A::shown(entries[start].commit),
                A::shown((#[trigger] entries[e]).commit),
            ) by {
                assert(evolution::is_recorded(entries, entries[e].commit.id));
                let i = model::position(flow, entries[e].commit.id);
                assert(flow[i].0 == entries[e].commit.id);
                assert(paths::reaches(edges, all[s], all[i]));
            }
        }
        if forall|e: int|
            0 <= e < entries.len() ==> paths::reaches(
                edges,
                A::shown(entries[start].commit),
                A::shown((#[trigger] entries[e]).commit),
            ) {
            assert forall|i: int| 0 <= i < all.len() implies paths::reaches(
                edges,
                all[s],
                #[trigger] all[i],
            ) by {
                assert(walks::has_entry_for(entries, flow[i].0));
                let e = choose|e: int|
                    0 <= e < entries.len() && (#[trigger] entries[e]).commit.id == flow[i].0;
                assert(paths::reaches(
                    edges,
                    A::shown(entries[start].commit),
                    A::shown(entries[e].commit),
                ));
            }
        }
    }
}

/// If some node has no entry, there is a first such node.
proof fn lemma_first_without_entry(graph: TruncatedEvolutionGraph) -> (i: int)
    requires
        !has_all_entries(graph),
    ensures
        0 <= i < graph.flow_graph.graph@.len(),
        !walks::has_entry_for(graph.entries(), graph.flow_graph.graph@[i].0),
        forall|j: int|
            0 <= j < i ==> walks::has_entry_for(
                graph.entries(),
                (#[trigger] graph.flow_graph.graph@[j]).0,
            ),
{
    let flow = graph.flow_graph.graph@;
    let i = choose|i: int|
        0 <= i < flow.len() && !walks::has_entry_for(graph.entries(), (#[trigger] flow[i]).0);
    lemma_first_without_entry_until(graph, i)
}

/// The first node without an entry, up to a node without one.
proof fn lemma_first_without_entry_until(graph: TruncatedEvolutionGraph, end: int) -> (i: int)
    requires
        0 <= end < graph.flow_graph.graph@.len(),
        !walks::has_entry_for(graph.entries(), graph.flow_graph.graph@[end].0),
    ensures
        0 <= i <= end,
        !walks::has_entry_for(graph.entries(), graph.flow_graph.graph@[i].0),
        forall|j: int|
            0 <= j < i ==> walks::has_entry_for(
                graph.entries(),
                (#[trigger] graph.flow_graph.graph@[j]).0,
            ),
    decreases end,
{
    let flow = graph.flow_graph.graph@;
    if forall|j: int|
        0 <= j < end ==> walks::has_entry_for(graph.entries(), (#[trigger] flow[j]).0) {
        end
    } else {
        let j = choose|j: int|
            0 <= j < end && !walks::has_entry_for(graph.entries(), (#[trigger] flow[j]).0);
        lemma_first_without_entry_until(graph, j)
    }
}

/// However a divergent commit evolved from the fork point, some commit on the way had the base as
/// its value.
pub proof fn lemma_base_is_passed<A: Attribute>(
    graph: TruncatedEvolutionGraph,
    commits: Seq<CommitView>,
    base: <A::Value as View>::V,
    t: int,
    path: Seq<Seq<u8>>,
) -> (found: (int, int))
    requires
        graph.wf(),
        has_all_entries(graph),
        converge::is_base_value::<A>(graph, commits, base),
        0 <= t < commits.len(),
        paths::is_path_between(
            model::edge_set(graph.flow_graph.graph@),
            graph.flow_graph.start_node@,
            commits[t].id,
            path,
        ),
    ensures
        0 <= found.0 < path.len(),
        0 <= found.1 < graph.entries().len(),
        graph.entries()[found.1].commit.id == path[found.0],
        A::shown(graph.entries()[found.1].commit) == base,
{
    let flow = graph.flow_graph.graph@;
    let entries = graph.entries();
    let all = converge::node_values::<A>(flow, entries);
    let wanted = evolution::ids_of(commits);
    lemma_node_values::<A>(flow, entries);
    assert(wanted[t] == commits[t].id);
    assert(evolution::is_recorded(entries, graph.flow_graph.start_node@));
    let (k, i) = laws_of_values::lemma_dominator_value_is_passed(
        flow,
        graph.flow_graph.start_node@,
        all,
        wanted,
        base,
        t,
        path,
    );
    assert(walks::has_entry_for(entries, flow[i].0));
    let e = choose|e: int|
        0 <= e < entries.len() && (#[trigger] entries[e]).commit.id == flow[i].0;
    (k, e)
}

/// The base of commits that have the same value in the graph is that value.
pub proof fn lemma_base_of_agreeing_commits<A: Attribute>(
    graph: TruncatedEvolutionGraph,
    commits: Seq<CommitView>,
    base: <A::Value as View>::V,
    value: <A::Value as View>::V,
)
    requires
        graph.wf(),
        converge::base_error::<A>(graph, commits) is None,
        forall|t: int, e: int|
            0 <= t < commits.len() && 0 <= e < graph.entries().len() && (
            #[trigger] graph.entries()[e]).commit.id == (#[trigger] commits[t]).id ==> A::shown(
                graph.entries()[e].commit,
            ) == value,
    ensures
        converge::is_base_value::<A>(graph, commits, base) <==> base == value,
{
    let flow = graph.flow_graph.graph@;
    let entries = graph.entries();
    let all = converge::node_values::<A>(flow, entries);
    let wanted = evolution::ids_of(commits);
    lemma_node_values::<A>(flow, entries);
    if !has_all_entries(graph) {
        let i = lemma_first_without_entry(graph);
        assert forall|j: int| 0 <= j < i implies evolution::is_recorded(
            entries,
            (#[trigger] flow[j]).0,
        ) by {
            assert(walks::has_entry_for(entries, flow[j].0));
        }
        assert(converge::is_first_unlisted(graph, i));
    }
    assert forall|t: int| 0 <= t < wanted.len() implies model::has_node(
        flow,
        #[trigger] wanted[t],
    ) && values::value_of(flow, all, wanted[t]) == value by {
        assert(wanted[t] == commits[t].id);
        assert(model::has_node(flow, commits[t].id));
        let i = model::position(flow, wanted[t]);
        assert(walks::has_entry_for(entries, flow[i].0));
        let e = choose|e: int|
            0 <= e < entries.len() && (#[trigger] entries[e]).commit.id == flow[i].0;
        assert(entries[e].commit.id == commits[t].id);
    }
    laws_of_values::lemma_dominator_value_of_agreeing(
        flow,
        graph.flow_graph.start_node@,
        all,
        wanted,
        value,
    );
}

/// Neither the order of the commits nor how often they occur matters.
pub proof fn lemma_order_of_commits<A: Attribute>(
    graph: TruncatedEvolutionGraph,
    commits: Seq<CommitView>,
    others: Seq<CommitView>,
    base: <A::Value as View>::V,
)
    requires
        graph.wf(),
        forall|c: CommitView| #[trigger] commits.contains(c) <==> others.contains(c),
    ensures
        converge::base_error::<A>(graph, commits) == converge::base_error::<A>(graph, others),
        converge::is_base_value::<A>(graph, commits, base) <==> converge::is_base_value::<A>(
            graph,
            others,
            base,
        ),
        converge::base_error::<A>(graph, commits) is None && converge::is_base_value::<A>(
            graph,
            commits,
            base,
        ) ==> converge::converged::<A>(graph, commits) == converge::converged::<A>(graph, others),
{
    lemma_commits_within::<A>(graph, commits, others);
    lemma_commits_within::<A>(graph, others, commits);
    if converge::base_error::<A>(graph, commits) is None && converge::is_base_value::<A>(
        graph,
        commits,
        base,
    ) {
        lemma_converged::<A>(graph, commits, base);
        match converge::converged::<A>(graph, commits) {
            Some(value) => {
                let i = choose|i: int|
                    0 <= i < commits.len() && A::shown(#[trigger] commits[i]) == value;
                assert(commits.contains(commits[i]));
                let j = choose|j: int| 0 <= j < others.len() && others[j] == commits[i];
                assert(A::shown(others[j]) == value);
                assert forall|k: int| 0 <= k < others.len() implies A::shown(#[trigger] others[k])
                    == base || A::shown(others[k]) == value by {
                    assert(commits.contains(others[k]) <==> others.contains(others[k]));
                    let m = choose|m: int| 0 <= m < commits.len() && commits[m] == others[k];
                    assert(A::shown(commits[m]) == base || A::shown(commits[m]) == value);
                }
                lemma_converges_to::<A>(graph, others, base, value);
            },
            None => {
                let (i, j) = choose|i: int, j: int|
                    0 <= i < commits.len() && 0 <= j < commits.len() && A::shown(
                        #[trigger] commits[i],
                    ) != A::shown(#[trigger] commits[j]) && A::shown(commits[i]) != base
                        && A::shown(commits[j]) != base;
                assert(commits.contains(commits[i]) && commits.contains(commits[j]));
                let k = choose|k: int| 0 <= k < others.len() && others[k] == commits[i];
                let m = choose|m: int| 0 <= m < others.len() && others[m] == commits[j];
                lemma_does_not_converge::<A>(graph, others, base, k, m);
            },
        }
    }
}

/// What holds of some commits holds of the same ones in another order.
proof fn lemma_commits_within<A: Attribute>(
    graph: TruncatedEvolutionGraph,
    commits: Seq<CommitView>,
    others: Seq<CommitView>,
)
    requires
        forall|c: CommitView| #[trigger] commits.contains(c) <==> others.contains(c),
    ensures
        converge::are_in_graph(graph, commits) ==> converge::are_in_graph(graph, others),
        forall|base: <A::Value as View>::V| #[trigger]
            converge::is_base_value::<A>(graph, commits, base) ==> converge::is_base_value::<A>(
                graph,
                others,
                base,
            ),
{
    let flow = graph.flow_graph.graph@;
    let all = converge::node_values::<A>(flow, graph.entries());
    let shown = values::values_of(flow, all, evolution::ids_of(commits));
    let turned = values::values_of(flow, all, evolution::ids_of(others));
    if converge::are_in_graph(graph, commits) {
        assert(commits.contains(commits[0]));
        assert forall|i: int| 0 <= i < others.len() implies model::has_node(
            flow,
            (#[trigger] others[i]).id,
        ) by {
            assert(others.contains(others[i]));
            assert(commits.contains(others[i]));
            let j = choose|j: int| 0 <= j < commits.len() && commits[j] == others[i];
            assert(model::has_node(flow, commits[j].id));
        }
    }
    assert forall|v: <A::Value as View>::V| shown.to_set().contains(v)
        <==> turned.to_set().contains(v) by {
        if shown.contains(v) {
            let i = choose|i: int| 0 <= i < shown.len() && shown[i] == v;
            assert(evolution::ids_of(commits)[i] == commits[i].id);
            assert(commits.contains(commits[i]));
            let j = choose|j: int| 0 <= j < others.len() && others[j] == commits[i];
            assert(evolution::ids_of(others)[j] == others[j].id);
            assert(turned[j] == v);
        }
        if turned.contains(v) {
            let i = choose|i: int| 0 <= i < turned.len() && turned[i] == v;
            assert(evolution::ids_of(others)[i] == others[i].id);
            assert(others.contains(others[i]));
            assert(commits.contains(others[i]));
            let j = choose|j: int| 0 <= j < commits.len() && commits[j] == others[i];
            assert(evolution::ids_of(commits)[j] == commits[j].id);
            assert(shown[j] == v);
        }
    }
    assert(shown.to_set() =~= turned.to_set());
    assert forall|base: <A::Value as View>::V| #[trigger]
        converge::is_base_value::<A>(graph, commits, base) implies converge::is_base_value::<A>(
        graph,
        others,
        base,
    ) by {
        paths::lemma_closest_of_same_set(
            model::edge_set(values::value_graph(flow, all)),
            values::value_of(flow, all, graph.flow_graph.start_node@),
            base,
            shown,
            turned,
        );
    }
}

/// The commit to start a merge of trees from has the dominator value, and no commit before it in
/// the graph has it.
pub proof fn lemma_first_dominator<V>(
    graph: TruncatedEvolutionGraph,
    node_values: Seq<V>,
    commits: Seq<CommitView>,
    value: V,
    i: int,
)
    requires
        graph.wf(),
        node_values.len() == graph.flow_graph.graph@.len(),
        converge::dominator_error(graph, node_values, commits) is None,
        values::is_dominator_value(
            graph.flow_graph.graph@,
            graph.flow_graph.start_node@,
            node_values,
            evolution::ids_of(commits),
            value,
        ),
    ensures
        converge::is_first_dominator(graph, node_values, commits, i) <==> {
            &&& 0 <= i < node_values.len()
            &&& node_values[i] == value
            &&& forall|j: int| 0 <= j < i ==> (#[trigger] node_values[j]) != value
        },
{
    let flow = graph.flow_graph.graph@;
    let wanted = evolution::ids_of(commits);
    let shown = values::values_of(flow, node_values, wanted);
    if converge::is_first_dominator(graph, node_values, commits, i) {
        values::lemma_value_graph(flow, node_values);
        assert(wanted[0] == commits[0].id);
        assert(shown[0] == values::value_of(flow, node_values, wanted[0]));
        assert(node_values[model::position(flow, wanted[0])] == shown[0]);
        assert(node_values.contains(shown[0]));
        assert(model::has_node(values::value_graph(flow, node_values), shown[0]));
        paths::lemma_closest_common_dominator_unique(
            model::edge_set(values::value_graph(flow, node_values)),
            values::value_of(flow, node_values, graph.flow_graph.start_node@),
            value,
            node_values[i],
            shown,
        );
    }
}

} // verus!
