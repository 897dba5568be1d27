//! What merges resolve to.
use vstd::prelude::*;

use crate::converge;
use crate::merge;

verus! {

/// One value counts for itself. Each further pair takes away its first value once and adds its
/// second one once.
pub proof fn lemma_balance<V>(values: Seq<V>, removed: V, added: V, value: V)
    requires
        values.len() % 2 == 1,
    ensures
        merge::balance(seq![added], value) == if added == value {
            1int
        } else {
            0int
        },
        merge::balance(values.push(removed).push(added), value) == merge::balance(values, value)
            - if removed == value {
            1int
        } else {
            0int
        } + if added == value {
            1int
        } else {
            0int
        },
{
    let one = seq![added];
    assert(one.drop_last() =~= Seq::<V>::empty());
    assert(one.last() == added);
    assert(merge::balance(one.drop_last(), value) == 0);
    let middle = values.push(removed);
    let all = middle.push(added);
    assert(all.drop_last() =~= middle);
    assert(middle.drop_last() =~= values);
    assert(all.last() == added && middle.last() == removed);
    assert(merge::balance(middle, value) == merge::balance(values, value) - if removed == value {
        1int
    } else {
        0int
    });
}

/// A value that is taken away and added again changes nothing.
pub proof fn lemma_cancelled_values<V>(values: Seq<V>, both: V, value: V)
    requires
        values.len() % 2 == 1,
    ensures
        merge::resolves_to(values.push(both).push(both), value) <==> merge::resolves_to(
            values,
            value,
        ),
{
    let all = values.push(both).push(both);
    assert forall|v: V| #[trigger] merge::balance(all, v) == merge::balance(values, v) by {
        lemma_balance(values, both, both, v);
    }
    if merge::resolves_to(all, value) {
        assert forall|v: V| #[trigger] merge::balance(values, v) > 0 implies v == value by {
            assert(merge::balance(all, v) == merge::balance(values, v));
        }
        assert forall|v: V, w: V|
            #![trigger merge::balance(values, v), merge::balance(values, w)]
            merge::balance(values, v) < 0 && merge::balance(values, w) < 0 implies v == w by {
            assert(merge::balance(all, v) == merge::balance(values, v));
            assert(merge::balance(all, w) == merge::balance(values, w));
        }
        assert(merge::balance(all, value) == merge::balance(values, value));
    }
    if merge::resolves_to(values, value) {
        assert(merge::balance(all, value) == merge::balance(values, value));
    }
}

/// A merge resolves to at most one value.
pub proof fn lemma_resolves_once<V>(values: Seq<V>, a: V, b: V)
    requires
        merge::resolves_to(values, a),
        merge::resolves_to(values, b),
    ensures
        a == b,
{
}

/// What one value and what three values resolve to: the only value, the side that changed the
/// base, or the change that both sides made.
pub proof fn lemma_small_merges<V>(first: V, base: V, second: V, v: V)
    ensures
        merge::resolves_to(seq![first], v) <==> v == first,
        merge::resolves_to(seq![first, base, second], v) <==> {
            ||| first == base && v == second
            ||| second == base && v == first
            ||| first == second && v == first
        },
{
    let one = seq![first];
    let three = seq![first, base, second];
    assert(three =~= one.push(base).push(second));
    assert forall|v: V| #[trigger] merge::balance(one, v) == if first == v {
        1int
    } else {
        0int
    } by {
        lemma_balance(one, base, first, v);
    }
    assert forall|v: V| #[trigger] merge::balance(three, v) == merge::balance(one, v)
        - if base == v {
        1int
    } else {
        0int
    } + if second == v {
        1int
    } else {
        0int
    } by {
        lemma_balance(one, base, second, v);
    }
    assert(merge::resolves_to(one, v) <==> v == first) by {
        assert(merge::balance(one, first) == 1);
        assert(merge::balance(one, v) == if first == v {
            1int
        } else {
            0int
        });
    }
    assert(merge::resolves_to(three, v) <==> {
        ||| first == base && v == second
        ||| second == base && v == first
        ||| first == second && v == first
    }) by {
        assert(merge::balance(one, v) >= 0);
        assert(merge::balance(three, v) == merge::balance(one, v) - if base == v {
            1int
        } else {
            0int
        } + if second == v {
            1int
        } else {
            0int
        });
        assert(merge::balance(three, first) == merge::balance(one, first) - if base == first {
            1int
        } else {
            0int
        } + if second == first {
            1int
        } else {
            0int
        });
        assert(merge::balance(three, second) == merge::balance(one, second) - if base == second {
            1int
        } else {
            0int
        } + if second == second {
            1int
        } else {
            0int
        });
    }
}

/// How often the value is added: the number of even places at which it stands.
pub open spec fn times_added<V>(values: Seq<V>, value: V) -> nat {
    Set::new(|i: int| 0 <= i < values.len() && i % 2 == 0 && values[i] == value).len()
}

/// How often the value is removed: the number of odd places at which it stands.
pub open spec fn times_removed<V>(values: Seq<V>, value: V) -> nat {
    Set::new(|i: int| 0 <= i < values.len() && i % 2 == 1 && values[i] == value).len()
}

/// How often a value is added and removed, one place after the other.
proof fn lemma_times<V>(values: Seq<V>, value: V)
    ensures
        Set::new(|i: int| 0 <= i < values.len() && i % 2 == 0 && values[i] == value).finite(),
        Set::new(|i: int| 0 <= i < values.len() && i % 2 == 1 && values[i] == value).finite(),
        merge::balance(values, value) == times_added(values, value) - times_removed(values, value),
    decreases values.len(),
{
    let added = Set::new(|i: int| 0 <= i < values.len() && i % 2 == 0 && values[i] == value);
    let removed = Set::new(|i: int| 0 <= i < values.len() && i % 2 == 1 && values[i] == value);
    if values.len() == 0 {
        assert(added =~= Set::empty());
        assert(removed =~= Set::empty());
    } else {
        let init = values.drop_last();
        let last = values.len() - 1;
        lemma_times(init, value);
        let added_before = Set::new(
            |i: int| 0 <= i < init.len() && i % 2 == 0 && init[i] == value,
        );
        let removed_before = Set::new(
            |i: int| 0 <= i < init.len() && i % 2 == 1 && init[i] == value,
        );
        if values.last() != value {
            assert(added =~= added_before);
            assert(removed =~= removed_before);
        } else if last % 2 == 0 {
            assert(added =~= added_before.insert(last));
            assert(removed =~= removed_before);
        } else {
            assert(added =~= added_before);
            assert(removed =~= removed_before.insert(last));
        }
    }
}

/// What a merge resolves to: the only value that is added more often than it is removed, if at
/// most one value is removed more often than it is added.
pub proof fn lemma_resolution<V>(values: Seq<V>, value: V)
    ensures
        merge::resolves_to(values, value) <==> {
            &&& times_added(values, value) > times_removed(values, value)
            &&& forall|v: V|
                v != value ==> #[trigger] times_added(values, v) <= times_removed(values, v)
            &&& forall|v: V, w: V|
                #![trigger times_added(values, v), times_added(values, w)]
                times_added(values, v) < times_removed(values, v) && times_added(values, w)
                    < times_removed(values, w) ==> v == w
        },
{
    assert forall|v: V|
        #![trigger merge::balance(values, v)]
        #![trigger times_added(values, v)]
        merge::balance(values, v) == times_added(values, v) - times_removed(values, v) by {
        lemma_times(values, v);
    }
    lemma_times(values, value);
    if merge::resolves_to(values, value) {
        assert forall|v: V, w: V|
            #![trigger times_added(values, v), times_added(values, w)]
            times_added(values, v) < times_removed(values, v) && times_added(values, w)
                < times_removed(values, w) implies v == w by {
            assert(merge::balance(values, v) < 0 && merge::balance(values, w) < 0);
        }
    }
}

/// The terms of a merge of sides: the base, and before each side the base again.
pub proof fn lemma_terms_of_sides<V>(base: V, sides: Seq<V>, i: int)
    requires
        0 <= i < sides.len(),
    ensures
        converge::merge_terms(base, sides).len() == 2 * sides.len() + 1,
        converge::merge_terms(base, sides)[0] == base,
        converge::merge_terms(base, sides)[2 * i + 1] == base,
        converge::merge_terms(base, sides)[2 * i + 2] == sides[i],
    decreases sides.len(),
{
    let init = sides.drop_last();
    let inner = converge::merge_terms(base, init);
    assert(converge::merge_terms(base, sides) == inner.push(base).push(sides.last()));
    if init.len() == 0 {
        assert(inner == seq![base]);
    } else if i < init.len() {
        lemma_terms_of_sides(base, init, i);
        assert(init[i] == sides[i]);
    } else {
        lemma_terms_of_sides(base, init, 0);
    }
}

} // verus!
