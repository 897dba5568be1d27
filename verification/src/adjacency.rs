//! An insertion-ordered adjacency map.
use indexmap::IndexMap;
use indexmap::IndexSet;
use vstd::prelude::*;

use crate::indexed;
use crate::model;
use crate::node;
use crate::node::Node;

verus! {

/// `graph` with each number replaced by its label.
pub open spec fn relabel<K>(graph: Seq<(usize, Seq<usize>)>, labels: Seq<K>) -> Seq<(K, Seq<K>)> {
    graph.map_values(
        |entry: (usize, Seq<usize>)|
            (labels[entry.0 as int], relabel_items(entry.1, labels)),
    )
}

/// `items` with each number replaced by its label.
pub open spec fn relabel_items<K>(items: Seq<usize>, labels: Seq<K>) -> Seq<K> {
    items.map_values(|item: usize| labels[item as int])
}

/// All numbers in `graph` are below `bound`.
pub open spec fn is_below(graph: Seq<(usize, Seq<usize>)>, bound: nat) -> bool {
    &&& forall|i: int| 0 <= i < graph.len() ==> (#[trigger] graph[i]).0 < bound
    &&& forall|i: int, j: int|
        0 <= i < graph.len() && 0 <= j < graph[i].1.len() ==> (#[trigger] graph[i].1[j]) < bound
}

proof fn lemma_relabel_node<K>(graph: Seq<(usize, Seq<usize>)>, labels: Seq<K>, id: usize)
    requires
        model::is_simple(graph),
        is_below(graph, labels.len()),
        labels.no_duplicates(),
        id < labels.len(),
    ensures
        model::has_node(relabel(graph, labels), labels[id as int]) == model::has_node(graph, id),
        model::has_node(graph, id) ==> model::position(relabel(graph, labels), labels[id as int])
            == model::position(graph, id),
        model::children(relabel(graph, labels), labels[id as int]) == relabel_items(
            model::children(graph, id),
            labels,
        ),
{
    let shown = relabel(graph, labels);
    let label = labels[id as int];
    assert forall|i: int| 0 <= i < graph.len() implies ((#[trigger] shown[i]).0 == label
        <==> graph[i].0 == id) by {
        assert(graph[i].0 < labels.len());
    }
    if model::has_node(graph, id) {
        let p = model::position(graph, id);
        assert(shown[p].0 == label);
        let q = model::position(shown, label);
        assert(graph[q].0 == id);
    }
    if model::has_node(shown, label) {
        let q = model::position(shown, label);
        assert(graph[q].0 == id);
    } else {
        assert(relabel_items(Seq::empty(), labels) =~= Seq::<K>::empty());
    }
}

proof fn lemma_relabel_simple<K>(graph: Seq<(usize, Seq<usize>)>, labels: Seq<K>)
    requires
        model::is_simple(graph),
        is_below(graph, labels.len()),
        labels.no_duplicates(),
    ensures
        model::is_simple(relabel(graph, labels)),
{
    let shown = relabel(graph, labels);
    assert forall|i: int, j: int|
        0 <= i < shown.len() && 0 <= j < shown.len() && i != j implies (#[trigger] shown[i]).0 != (
    #[trigger] shown[j]).0 by {
        assert(graph[i].0 != graph[j].0);
    }
    assert forall|i: int| 0 <= i < shown.len() implies (#[trigger] shown[i]).1.no_duplicates() by {
        let items = graph[i].1;
        assert(items.no_duplicates());
        assert forall|a: int, b: int|
            0 <= a < items.len() && 0 <= b < items.len() && a != b implies shown[i].1[a]
            != shown[i].1[b] by {
            assert(graph[i].1[a] < labels.len() && graph[i].1[b] < labels.len());
            assert(items[a] != items[b]);
        }
    }
}

proof fn lemma_relabel_with_node<K>(graph: Seq<(usize, Seq<usize>)>, labels: Seq<K>, id: usize)
    requires
        model::is_simple(graph),
        is_below(graph, labels.len()),
        labels.no_duplicates(),
        id < labels.len(),
    ensures
        is_below(model::with_node(graph, id), labels.len()),
        relabel(model::with_node(graph, id), labels) == model::with_node(
            relabel(graph, labels),
            labels[id as int],
        ),
{
    lemma_relabel_node(graph, labels, id);
    let grown = model::with_node(graph, id);
    assert forall|i: int| 0 <= i < grown.len() implies (#[trigger] grown[i]).0 < labels.len() by {
        if i < graph.len() {
            assert(graph[i].0 < labels.len());
        }
    }
    assert forall|i: int, j: int|
        0 <= i < grown.len() && 0 <= j < grown[i].1.len() implies (#[trigger] grown[i].1[j])
        < labels.len() by {
        if i < graph.len() {
            assert(graph[i].1[j] < labels.len());
        }
    }
    assert(relabel_items(Seq::empty(), labels) =~= Seq::<K>::empty());
    assert(relabel(grown, labels) =~= model::with_node(
        relabel(graph, labels),
        labels[id as int],
    ));
}

proof fn lemma_relabel_with_edge<K>(
    graph: Seq<(usize, Seq<usize>)>,
    labels: Seq<K>,
    parent: usize,
    child: usize,
)
    requires
        model::is_simple(graph),
        is_below(graph, labels.len()),
        labels.no_duplicates(),
        parent < labels.len(),
        child < labels.len(),
    ensures
        is_below(model::with_edge(graph, parent, child), labels.len()),
        relabel(model::with_edge(graph, parent, child), labels) == model::with_edge(
            relabel(graph, labels),
            labels[parent as int],
            labels[child as int],
        ),
{
    let grown = model::with_node(graph, parent);
    model::lemma_with_node(graph, parent);
    lemma_relabel_with_node(graph, labels, parent);
    assert(model::has_node(grown, parent));
    lemma_relabel_node(grown, labels, parent);
    let p = model::position(grown, parent);
    let items = grown[p].1;
    let result = model::with_edge(graph, parent, child);
    assert forall|i: int| 0 <= i < result.len() implies (#[trigger] result[i]).0
        < labels.len() by {
        assert(grown[i].0 < labels.len());
    }
    assert forall|i: int, j: int|
        0 <= i < result.len() && 0 <= j < result[i].1.len() implies (#[trigger] result[i].1[j])
        < labels.len() by {
        if j < grown[i].1.len() {
            assert(grown[i].1[j] < labels.len());
        }
    }
    assert forall|j: int| 0 <= j < items.len() implies (#[trigger] items[j]) < labels.len() by {
        assert(grown[p].1[j] < labels.len());
    }
    let shown_items = relabel_items(items, labels);
    if items.contains(child) {
        let j = choose|j: int| 0 <= j < items.len() && items[j] == child;
        assert(shown_items[j] == labels[child as int]);
    }
    if shown_items.contains(labels[child as int]) {
        let j = choose|j: int|
            0 <= j < shown_items.len() && shown_items[j] == labels[child as int];
        assert(items[j] == child);
    }
    assert(relabel_items(model::with_item(items, child), labels) =~= model::with_item(
        shown_items,
        labels[child as int],
    ));
    assert(relabel(result, labels) =~= model::with_edge(
        relabel(graph, labels),
        labels[parent as int],
        labels[child as int],
    ));
}

proof fn lemma_relabel_more_labels<K>(graph: Seq<(usize, Seq<usize>)>, labels: Seq<K>, label: K)
    requires
        is_below(graph, labels.len()),
    ensures
        is_below(graph, labels.push(label).len()),
        relabel(graph, labels.push(label)) == relabel(graph, labels),
{
    let more = labels.push(label);
    assert forall|i: int| 0 <= i < graph.len() implies relabel(graph, more)[i] == relabel(
        graph,
        labels,
    )[i] by {
        assert(graph[i].0 < labels.len());
        assert forall|j: int| 0 <= j < graph[i].1.len() implies relabel_items(graph[i].1, more)[j]
            == relabel_items(graph[i].1, labels)[j] by {
            assert(graph[i].1[j] < labels.len());
        }
        assert(relabel_items(graph[i].1, more) =~= relabel_items(graph[i].1, labels));
    }
    assert(relabel(graph, more) =~= relabel(graph, labels));
}

/// Nodes in the order in which they were entered, each with the set of its children in the
/// order in which they were added. A child need not be entered as a node.
#[derive(Debug)]
pub struct AdjacencyMap<N> {
    /// The nodes and children that occur, by number.
    labels: Vec<N>,
    /// The map, with nodes and children by number.
    adj: IndexMap<usize, IndexSet<usize>>,
}

impl<N: Node> View for AdjacencyMap<N> {
    type V = Seq<(N::V, Seq<N::V>)>;

    closed spec fn view(&self) -> Seq<(N::V, Seq<N::V>)> {
        relabel(indexed::map_entries(self.adj), self.shown_labels())
    }
}

impl<N: Node> AdjacencyMap<N> {
    /// What the numbers of nodes and children stand for.
    pub closed spec fn shown_labels(&self) -> Seq<N::V> {
        node::shown(self.labels@)
    }

    /// No label occurs twice, and the map holds numbers of labels only.
    pub closed spec fn wf(&self) -> bool {
        &&& self.shown_labels().no_duplicates()
        &&& model::is_simple(indexed::map_entries(self.adj))
        &&& is_below(indexed::map_entries(self.adj), self.labels@.len())
    }

    /// A map without nodes.
    pub fn new() -> (map: Self)
        ensures
            map.wf(),
            map@ == Seq::<(N::V, Seq<N::V>)>::empty(),
    {
        let map = AdjacencyMap { labels: Vec::new(), adj: indexed::new_map() };
        assert(map@ =~= Seq::<(N::V, Seq<N::V>)>::empty());
        map
    }

    /// The number of a label.
    pub(crate) fn find(&self, node: &N) -> (found: Option<usize>)
        ensures
            match found {
                Some(id) => id < self.shown_labels().len() && self.shown_labels()[id as int]
                    == node@,
                None => !self.shown_labels().contains(node@),
            },
    {
        let mut id: usize = 0;
        while id < self.labels.len()
            invariant
                id <= self.labels@.len(),
                forall|i: int| 0 <= i < id ==> (#[trigger] self.shown_labels()[i]) != node@,
            decreases self.labels@.len() - id,
        {
            if self.labels[id].same(node) {
                return Some(id);
            }
            id = id + 1;
        }
        None
    }

    /// The number of a label, which is given one if it has none.
    fn intern(&mut self, node: N) -> (id: usize)
        requires
            old(self).wf(),
        ensures
            final(self).wf(),
            final(self)@ == old(self)@,
            final(self).adj == old(self).adj,
            old(self).labels@.is_prefix_of(final(self).labels@),
            id < final(self).labels@.len(),
            final(self).shown_labels()[id as int] == node@,
    {
        match self.find(&node) {
            Some(id) => id,
            None => {
                let id: usize = self.labels.len();
                let ghost before = self.shown_labels();
                let ghost label = node@;
                self.labels.push(node);
                proof {
                    assert(self.shown_labels() =~= before.push(label));
                    lemma_relabel_more_labels(indexed::map_entries(self.adj), before, label);
                }
                id
            },
        }
    }

    /// Enters a node at the end, unless it was entered before.
    pub fn add_node(&mut self, node: N)
        requires
            old(self).wf(),
        ensures
            final(self).wf(),
            final(self)@ == model::with_node(old(self)@, node@),
    {
        let id: usize = self.intern(node);
        let ghost before = indexed::map_entries(self.adj);
        let ghost labels = self.shown_labels();
        proof {
            model::lemma_with_node(before, id);
            lemma_relabel_with_node(before, labels, id);
        }
        let _ = indexed::map_entry_or_default(&mut self.adj, id);
        proof {
            let grown = model::with_node(before, id);
            assert(model::has_node(grown, id));
            assert(indexed::map_entries(self.adj) =~= grown);
        }
    }

    /// Adds `child` to the children of `parent`, which is entered if it was not before.
    pub fn add_edge(&mut self, parent: N, child: N)
        requires
            old(self).wf(),
        ensures
            final(self).wf(),
            final(self)@ == model::with_edge(old(self)@, parent@, child@),
    {
        let parent_id: usize = self.intern(parent);
        let ghost labels_before = self.labels@;
        let ghost shown_before = self.shown_labels();
        let child_id: usize = self.intern(child);
        let ghost before = indexed::map_entries(self.adj);
        let ghost labels = self.shown_labels();
        proof {
            assert(self.labels@[parent_id as int] == labels_before[parent_id as int]);
            assert(labels[parent_id as int] == shown_before[parent_id as int]);
            model::lemma_with_node(before, parent_id);
            model::lemma_with_edge(before, parent_id, child_id);
            lemma_relabel_with_edge(before, labels, parent_id, child_id);
        }
        let children = indexed::map_entry_or_default(&mut self.adj, parent_id);
        indexed::set_insert(children, child_id);
        proof {
            let grown = model::with_node(before, parent_id);
            assert(model::has_node(grown, parent_id));
            assert(model::children(grown, parent_id) == model::children(before, parent_id));
        }
    }

    /// How many nodes were entered.
    pub fn num_nodes(&self) -> (num: usize)
        ensures
            num == self@.len(),
    {
        indexed::map_len(&self.adj)
    }

    /// Tells whether a node was entered.
    pub fn contains_node(&self, node: &N) -> (found: bool)
        requires
            self.wf(),
        ensures
            found == model::has_node(self@, node@),
    {
        match self.find(node) {
            Some(id) => {
                proof {
                    lemma_relabel_node(
                        indexed::map_entries(self.adj),
                        self.shown_labels(),
                        id,
                    );
                }
                indexed::map_contains_key(&self.adj, id)
            },
            None => {
                proof {
                    self.lemma_nodes_are_labels(node@);
                }
                false
            },
        }
    }

    proof fn lemma_nodes_are_labels(&self, node: N::V)
        requires
            self.wf(),
        ensures
            model::has_node(self@, node) ==> self.shown_labels().contains(node),
    {
        if model::has_node(self@, node) {
            let p = model::position(self@, node);
            let entry = indexed::map_entries(self.adj)[p];
            assert(entry.0 < self.labels@.len());
            assert(self.shown_labels()[entry.0 as int] == node);
        }
    }

    /// What holds of the entries of every map.
    pub proof fn lemma_simple(&self)
        requires
            self.wf(),
        ensures
            model::is_simple(self@),
    {
        lemma_relabel_simple(indexed::map_entries(self.adj), self.shown_labels());
    }

    /// How many labels there are.
    pub(crate) fn num_labels(&self) -> (num: usize)
        ensures
            num == self.shown_labels().len(),
    {
        self.labels.len()
    }

    /// No two numbers have the same label.
    pub(crate) proof fn lemma_labels_distinct(&self)
        requires
            self.wf(),
        ensures
            self.shown_labels().no_duplicates(),
            forall|k: N::V| #[trigger]
                model::has_node(self@, k) ==> self.shown_labels().contains(k),
    {
        assert forall|k: N::V| #[trigger]
            model::has_node(self@, k) implies self.shown_labels().contains(k) by {
            self.lemma_nodes_are_labels(k);
        }
    }

    /// The numbers of the children of a node, none if it was not entered.
    pub(crate) fn child_ids(&self, id: usize) -> (ids: Vec<usize>)
        requires
            self.wf(),
            id < self.shown_labels().len(),
        ensures
            forall|i: int|
                0 <= i < ids@.len() ==> (#[trigger] ids@[i]) < self.shown_labels().len(),
            relabel_items(ids@, self.shown_labels()) == model::children(
                self@,
                self.shown_labels()[id as int],
            ),
    {
        let ghost entries = indexed::map_entries(self.adj);
        proof {
            lemma_relabel_node(entries, self.shown_labels(), id);
        }
        match indexed::map_get(&self.adj, id) {
            Some(set) => {
                let ids = indexed::set_values(set);
                assert forall|i: int| 0 <= i < ids@.len() implies (#[trigger] ids@[i])
                    < self.labels@.len() by {
                    assert(entries[model::position(entries, id)].1[i] < self.labels@.len());
                }
                ids
            },
            None => {
                let ids: Vec<usize> = Vec::new();
                assert(ids@ =~= model::children(entries, id));
                ids
            },
        }
    }

    /// The labels of some numbers.
    pub(crate) fn show<'a>(&'a self, ids: &Vec<usize>) -> (shown: Vec<&'a N>)
        requires
            forall|i: int|
                0 <= i < ids@.len() ==> (#[trigger] ids@[i]) < self.shown_labels().len(),
        ensures
            node::shown(shown@) == relabel_items(ids@, self.shown_labels()),
    {
        let mut shown: Vec<&'a N> = Vec::new();
        let mut i: usize = 0;
        while i < ids.len()
            invariant
                i <= ids@.len(),
                shown@.len() == i,
                forall|i: int|
                    0 <= i < ids@.len() ==> (#[trigger] ids@[i]) < self.shown_labels().len(),
                forall|j: int|
                    0 <= j < i ==> (#[trigger] shown@[j])@
                        == self.shown_labels()[ids@[j] as int],
            decreases ids@.len() - i,
        {
            let id: usize = ids[i];
            shown.push(&self.labels[id]);
            i = i + 1;
        }
        assert(node::shown(shown@) =~= relabel_items(
            ids@,
            self.shown_labels(),
        ));
        shown
    }

    /// The nodes, in the order in which they were entered.
    pub fn nodes(&self) -> (nodes: Vec<&N>)
        requires
            self.wf(),
        ensures
            node::shown(nodes@) == model::nodes(self@),
    {
        let ids = indexed::map_keys(&self.adj);
        let ghost entries = indexed::map_entries(self.adj);
        assert forall|i: int| 0 <= i < ids@.len() implies (#[trigger] ids@[i])
            < self.labels@.len() by {
            assert(entries[i].0 < self.labels@.len());
        }
        assert(relabel_items(ids@, self.shown_labels()) =~= model::nodes(self@));
        self.show(&ids)
    }

    /// The children of a node, in the order in which they were added, or `None` if the node was
    /// not entered.
    pub fn children(&self, node: &N) -> (children: Option<Vec<&N>>)
        requires
            self.wf(),
        ensures
            children is Some <==> model::has_node(self@, node@),
            children matches Some(found) ==> node::shown(found@)
                == model::children(self@, node@),
    {
        match self.find(node) {
            Some(id) => {
                proof {
                    lemma_relabel_node(
                        indexed::map_entries(self.adj),
                        self.shown_labels(),
                        id,
                    );
                }
                if indexed::map_contains_key(&self.adj, id) {
                    let ids = self.child_ids(id);
                    Some(self.show(&ids))
                } else {
                    None
                }
            },
            None => {
                proof {
                    self.lemma_nodes_are_labels(node@);
                }
                None
            },
        }
    }
}

impl<N: Node> AdjacencyMap<N> {
    /// The edges, by parent and then by child.
    pub fn edges(&self) -> (edges: Vec<(&N, &N)>)
        requires
            self.wf(),
        ensures
            node::shown(edges@) == model::edges(self@),
    {
        let mut edges: Vec<(&N, &N)> = Vec::new();
        let nodes = self.nodes();
        let ghost view = |e: (&N, &N)| (e.0@, e.1@);
        proof {
            self.lemma_simple();
            assert(edges@.map_values(view) =~= model::edges(self@.take(0)));
            assert(self@.len() == node::shown(nodes@).len());
        }
        let mut i: usize = 0;
        while i < nodes.len()
            invariant
                self.wf(),
                model::is_simple(self@),
                i <= nodes@.len(),
                nodes@.len() == self@.len(),
                node::shown(nodes@) == model::nodes(self@),
                view == (|e: (&N, &N)| (e.0@, e.1@)),
                edges@.map_values(view) == model::edges(self@.take(i as int)),
            decreases nodes@.len() - i,
        {
            let parent = nodes[i];
            let ghost entry = self@[i as int];
            let ghost before = edges@.map_values(view);
            proof {
                assert(node::shown(nodes@)[i as int] == parent@);
                assert(model::nodes(self@)[i as int] == entry.0);
                model::lemma_position(self@, i as int);
            }
            match self.children(parent) {
                Some(children) => {
                    assert(node::shown(children@) == entry.1);
                    let mut j: usize = 0;
                    while j < children.len()
                        invariant
                            j <= children@.len(),
                            parent@ == entry.0,
                            node::shown(children@) == entry.1,
                            view == (|e: (&N, &N)| (e.0@, e.1@)),
                            edges@.map_values(view) == before + model::entry_edges(entry).take(
                                j as int,
                            ),
                        decreases children@.len() - j,
                    {
                        let ghost sofar = edges@;
                        let child = children[j];
                        edges.push((parent, child));
                        proof {
                            assert(entry.1[j as int] == node::shown(children@)[j as int]);
                            assert(edges@.map_values(view) =~= sofar.map_values(view).push(
                                (entry.0, entry.1[j as int]),
                            ));
                            assert(model::entry_edges(entry).take(j + 1)
                                =~= model::entry_edges(entry).take(j as int).push(
                                (entry.0, entry.1[j as int]),
                            ));
                        }
                        j = j + 1;
                    }
                    assert(model::entry_edges(entry).take(j as int) =~= model::entry_edges(
                        entry,
                    ));
                },
                None => {},
            }
            proof {
                assert(self@.take(i + 1).drop_last() =~= self@.take(i as int));
                assert(self@.take(i + 1).last() == entry);
            }
            i = i + 1;
        }
        assert(self@.take(i as int) =~= self@);
        edges
    }
}

impl<N: Node> Clone for AdjacencyMap<N> {
    fn clone(&self) -> (copy: Self)
        ensures
            copy@ == self@,
            self.wf() ==> copy.wf(),
    {
        let mut labels: Vec<N> = Vec::new();
        let mut i: usize = 0;
        while i < self.labels.len()
            invariant
                i <= self.labels@.len(),
                labels@.len() == i,
                forall|j: int| 0 <= j < i ==> (#[trigger] labels@[j])@ == self.labels@[j]@,
            decreases self.labels@.len() - i,
        {
            labels.push(self.labels[i].duplicate());
            i = i + 1;
        }
        let copy = AdjacencyMap { labels, adj: indexed::map_clone(&self.adj) };
        assert(copy.shown_labels() =~= self.shown_labels());
        copy
    }
}

} // verus!
