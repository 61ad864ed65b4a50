//! Lists kept in rank order.

use vstd::prelude::*;

verus! {

/// Values of which one can be ahead of another.
pub trait Ranked: Sized {
    spec fn ahead(&self, other: &Self) -> bool;

    proof fn ahead_transitive(a: &Self, b: &Self, c: &Self)
        requires
            a.ahead(b),
            b.ahead(c),
        ensures
            a.ahead(c),
    ;

    fn is_ahead(&self, other: &Self) -> (b: bool)
        ensures
            b == self.ahead(other),
    ;
}

/// Is every element ahead of all that follow it?
pub open spec fn in_order<T: Ranked>(s: Seq<T>) -> bool {
    forall|i: int, j: int| 0 <= i < j < s.len() ==> (#[trigger] s[i]).ahead(#[trigger] &s[j])
}

/// Puts `x` where it belongs in a list that is in order.
pub fn insert_ranked<T: Ranked>(v: &mut Vec<T>, x: T) -> (at: usize)
    requires
        in_order(old(v)@),
        forall|i: int|
            0 <= i < old(v)@.len() ==> (#[trigger] old(v)@[i]).ahead(&x) || x.ahead(&old(v)@[i]),
    ensures
        at <= old(v)@.len(),
        final(v)@ == old(v)@.insert(at as int, x),
        in_order(final(v)@),
{
    let ghost before = v@;
    let mut low: usize = 0;
    let mut high: usize = v.len();
    while low < high
        invariant
            low <= high <= v@.len(),
            v@ == before,
            in_order(before),
            forall|i: int| 0 <= i < low ==> (#[trigger] before[i]).ahead(&x),
            forall|i: int| high <= i < before.len() ==> !(#[trigger] before[i]).ahead(&x),
        decreases high - low,
    {
        let mid: usize = low + (high - low) / 2;
        if v[mid].is_ahead(&x) {
            assert forall|i: int| 0 <= i < mid + 1 implies (#[trigger] before[i]).ahead(&x) by {
                if i < mid {
                    T::ahead_transitive(&before[i], &before[mid as int], &x);
                }
            }
            low = mid + 1;
        } else {
            assert forall|i: int| mid <= i < before.len() implies !(#[trigger] before[i]).ahead(
                &x,
            ) by {
                if i > mid && before[i].ahead(&x) {
                    T::ahead_transitive(&before[mid as int], &before[i], &x);
                }
            }
            high = mid;
        }
    }
    v.insert(low, x);
    proof {
        let after = v@;
        assert forall|i: int, j: int| 0 <= i < j < after.len() implies (
        #[trigger] after[i]).ahead(#[trigger] &after[j]) by {
            if i < low && j < low {
                assert(after[i] == before[i] && after[j] == before[j]);
            } else if i < low && j == low {
                assert(after[i] == before[i]);
            } else if i < low {
                assert(after[i] == before[i] && after[j] == before[j - 1]);
            } else if i == low {
                assert(after[j] == before[j - 1]);
            } else {
                assert(after[i] == before[i - 1] && after[j] == before[j - 1]);
            }
        }
    }
    low
}

} // verus!
