//! Merges of values.
use vstd::prelude::*;

use crate::node;
use crate::node::Node;

verus! {

/// How often `value` is added on balance: the values at even places are added, those at odd
/// places removed.
pub open spec fn balance<V>(values: Seq<V>, value: V) -> int
    decreases values.len(),
{
    if values.len() == 0 {
        0
    } else {
        let before = balance(values.drop_last(), value);
        if values.last() != value {
            before
        } else if values.len() % 2 == 1 {
            before + 1
        } else {
            before - 1
        }
    }
}

/// On balance nothing but `value` is added, and at most one other value is removed: either
/// everything else cancelled out, or all sides that changed the base made the same change.
pub open spec fn resolves_to<V>(values: Seq<V>, value: V) -> bool {
    &&& balance(values, value) > 0
    &&& forall|v: V| #[trigger] balance(values, v) > 0 ==> v == value
    &&& forall|v: V, w: V|
        #![trigger balance(values, v), balance(values, w)]
        balance(values, v) < 0 && balance(values, w) < 0 ==> v == w
}

/// A merge: values that are added and values that are removed, in turn, first and last an added
/// one.
#[derive(Clone, PartialEq, Eq, Hash, Debug)]
pub struct Merge<T> {
    values: Vec<T>,
}

impl<T: View> View for Merge<T> {
    type V = Seq<T::V>;

    closed spec fn view(&self) -> Seq<T::V> {
        node::shown(self.values@)
    }
}

impl<T: View> Merge<T> {
    /// There is one more added value than there are removed ones.
    pub open spec fn wf(&self) -> bool {
        self@.len() % 2 == 1
    }

    /// The merge of the given values, which are added and removed in turn. `None` if there are
    /// as many removed values as added ones.
    pub fn from_values(values: Vec<T>) -> (merge: Option<Self>)
        ensures
            merge is Some <==> values@.len() % 2 == 1,
            merge matches Some(merge) ==> merge.wf() && merge@ == node::shown(values@),
    {
        if values.len() % 2 == 1 {
            Some(Merge { values })
        } else {
            None
        }
    }

    /// A merge of one value.
    pub fn resolved(value: T) -> (merge: Self)
        ensures
            merge.wf(),
            merge@ == seq![value@],
    {
        let mut values: Vec<T> = Vec::new();
        values.push(value);
        let merge = Merge { values };
        assert(merge@ =~= seq![value@]);
        merge
    }

    /// Adds a value to the merge, and the base that it changes to the removed values.
    pub fn add_change(&mut self, base: T, value: T)
        requires
            old(self).wf(),
        ensures
            final(self).wf(),
            final(self)@ == old(self)@.push(base@).push(value@),
    {
        let ghost before = self.values@;
        self.values.push(base);
        self.values.push(value);
        assert(self@ =~= node::shown(before).push(base@).push(value@));
    }

    /// The values, which are added and removed in turn.
    pub fn values(&self) -> (values: &Vec<T>)
        ensures
            node::shown(values@) == self@,
    {
        &self.values
    }
}

impl<T: Node> Merge<T> {
    /// How often a value is added on balance.
    fn balance_of(&self, value: &T) -> (count: i128)
        ensures
            count == balance(self@, value@),
    {
        let ghost terms = self@;
        let mut count: i128 = 0;
        let mut i: usize = 0;
        assert(terms.take(0) =~= Seq::<T::V>::empty());
        while i < self.values.len()
            invariant
                i <= self.values@.len(),
                terms == self@,
                -(i as int) <= count <= i,
                count == balance(terms.take(i as int), value@),
            decreases self.values@.len() - i,
        {
            assert(terms.take(i + 1).drop_last() =~= terms.take(i as int));
            assert(terms.take(i + 1).last() == self.values@[i as int]@);
            if self.values[i].same(value) {
                if i % 2 == 0 {
                    count = count + 1;
                } else {
                    count = count - 1;
                }
            }
            i = i + 1;
        }
        assert(terms.take(i as int) =~= terms);
        count
    }

    /// Resolves the merge if it can be done without looking into the values: if the other values
    /// cancel out, or all changes to one base are the same.
    pub fn resolve_trivial(&self) -> (resolved: Option<&T>)
        ensures
            resolved matches Some(value) ==> resolves_to(self@, value@),
            resolved is None ==> forall|v: T::V| !#[trigger] resolves_to(self@, v),
    {
        let ghost terms = self@;
        let mut added: Option<&T> = None;
        let mut removed: Option<&T> = None;
        let mut i: usize = 0;
        while i < self.values.len()
            invariant
                i <= self.values@.len(),
                terms == self@,
                added matches Some(value) ==> balance(terms, value@) > 0,
                removed matches Some(value) ==> balance(terms, value@) < 0,
                forall|j: int|
                    0 <= j < i && balance(terms, #[trigger] terms[j]) > 0 ==> added is Some
                        && added->0@ == terms[j],
                forall|j: int|
                    0 <= j < i && balance(terms, #[trigger] terms[j]) < 0 ==> removed is Some
                        && removed->0@ == terms[j],
            decreases self.values@.len() - i,
        {
            let value = &self.values[i];
            assert(terms[i as int] == value@);
            let count: i128 = self.balance_of(value);
            if count > 0 {
                match added {
                    Some(other) => {
                        if !other.same(value) {
                            assert forall|v: T::V| !#[trigger] resolves_to(terms, v) by {
                                assert(balance(terms, other@) > 0 && balance(terms, value@) > 0);
                            }
                            return None;
                        }
                    },
                    None => {
                        added = Some(value);
                    },
                }
            } else if count < 0 {
                match removed {
                    Some(other) => {
                        if !other.same(value) {
                            assert forall|v: T::V| !#[trigger] resolves_to(terms, v) by {
                                assert(balance(terms, other@) < 0 && balance(terms, value@) < 0);
                            }
                            return None;
                        }
                    },
                    None => {
                        removed = Some(value);
                    },
                }
            }
            i = i + 1;
        }
        proof {
            assert forall|v: T::V| #[trigger] balance(terms, v) != 0 implies terms.contains(v) by {
                lemma_balanced_occurs(terms, v);
            }
        }
        added
    }
}

impl<T: Node> Node for Merge<T> {
    fn same(&self, other: &Self) -> (same: bool) {
        if self.values.len() != other.values.len() {
            assert(self@.len() != other@.len());
            return false;
        }
        let mut i: usize = 0;
        while i < self.values.len()
            invariant
                i <= self.values@.len(),
                self.values@.len() == other.values@.len(),
                forall|j: int| 0 <= j < i ==> (#[trigger] self.values@[j])@ == other.values@[j]@,
            decreases self.values@.len() - i,
        {
            if !self.values[i].same(&other.values[i]) {
                assert(self@[i as int] != other@[i as int]);
                return false;
            }
            i = i + 1;
        }
        assert(self@ =~= other@);
        true
    }

    fn duplicate(&self) -> (copy: Self) {
        let mut values: Vec<T> = Vec::new();
        let mut i: usize = 0;
        while i < self.values.len()
            invariant
                i <= self.values@.len(),
                values@.len() == i,
                forall|j: int| 0 <= j < i ==> (#[trigger] values@[j])@ == self.values@[j]@,
            decreases self.values@.len() - i,
        {
            values.push(self.values[i].duplicate());
            i = i + 1;
        }
        let copy = Merge { values };
        assert(copy@ =~= self@);
        copy
    }
}

/// Only values that occur are added or removed.
proof fn lemma_balanced_occurs<V>(values: Seq<V>, value: V)
    requires
        balance(values, value) != 0,
    ensures
        values.contains(value),
    decreases values.len(),
{
    if values.len() > 0 {
        if values.last() == value {
            assert(values[values.len() - 1] == value);
        } else {
            let init = values.drop_last();
            lemma_balanced_occurs(init, value);
            let i = choose|i: int| 0 <= i < init.len() && init[i] == value;
            assert(values[i] == value);
        }
    }
}

} // verus!
