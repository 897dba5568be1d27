//! Values that can be the nodes of a graph.
use vstd::prelude::*;

verus! {

/// A value with an exact equality test and an exact copy, both by what the value stands for.
pub trait Node: View + Sized {
    /// Tells whether both values stand for the same thing.
    fn same(&self, other: &Self) -> (same: bool)
        ensures
            same == (self@ == other@),
    ;

    /// A second value that stands for the same thing.
    fn duplicate(&self) -> (copy: Self)
        ensures
            copy@ == self@,
    ;
}

/// What each of some values stands for.
pub open spec fn shown<T: View>(items: Seq<T>) -> Seq<T::V> {
    items.map_values(|item: T| item@)
}

impl Node for i32 {
    fn same(&self, other: &Self) -> (same: bool) {
        *self == *other
    }

    fn duplicate(&self) -> (copy: Self) {
        *self
    }
}

impl Node for u64 {
    fn same(&self, other: &Self) -> (same: bool) {
        *self == *other
    }

    fn duplicate(&self) -> (copy: Self) {
        *self
    }
}

impl Node for usize {
    fn same(&self, other: &Self) -> (same: bool) {
        *self == *other
    }

    fn duplicate(&self) -> (copy: Self) {
        *self
    }
}

impl Node for String {
    fn same(&self, other: &Self) -> (same: bool) {
        *self == *other
    }

    fn duplicate(&self) -> (copy: Self) {
        self.clone()
    }
}

impl<'a> Node for &'a str {
    fn same(&self, other: &Self) -> (same: bool) {
        (*self).to_owned() == (*other).to_owned()
    }

    fn duplicate(&self) -> (copy: Self) {
        *self
    }
}

/// Finds the place of a node.
pub(crate) fn place_of<N: Node>(nodes: &Vec<&N>, node: &N) -> (place: Option<usize>)
    ensures
        match place {
            Some(i) => i < nodes@.len() && nodes@[i as int]@ == node@,
            None => forall|i: int| 0 <= i < nodes@.len() ==> (#[trigger] nodes@[i])@ != node@,
        },
{
    let mut i: usize = 0;
    while i < nodes.len()
        invariant
            i <= nodes@.len(),
            forall|j: int| 0 <= j < i ==> (#[trigger] nodes@[j])@ != node@,
        decreases nodes@.len() - i,
    {
        if nodes[i].same(node) {
            return Some(i);
        }
        i = i + 1;
    }
    None
}

} // verus!
