//! The bin of a raw feature value, found by bisection of the bin boundaries.

use crate::numeric::{above, at_most, below, exact_order};
use vstd::prelude::*;

verus! {

/// The position of the first boundary that is not at most `v`, or the number of
/// boundaries where each of them is at most `v`.
pub open spec fn first_above<T: PartialOrd>(x: Seq<T>, v: T) -> nat
    decreases x.len(),
{
    if x.len() == 0 || !at_most(x[0], v) {
        0
    } else {
        1 + first_above(x.drop_first(), v)
    }
}

/// The boundaries at most `v` stand before position `k`, and no others do.
pub open spec fn bin_boundary<T: PartialOrd>(x: Seq<T>, v: T, k: int) -> bool {
    &&& 0 <= k <= x.len()
    &&& forall|i: int| 0 <= i < k ==> at_most(#[trigger] x[i], v)
    &&& forall|i: int| k <= i < x.len() ==> !at_most(#[trigger] x[i], v)
}

/// The boundaries are ordered as far as `v` can tell: no boundary that is at
/// most `v` comes after one that is not. Boundaries in ascending order are
/// ordered so for every `v`.
pub open spec fn ordered_around<T: PartialOrd>(x: Seq<T>, v: T) -> bool {
    forall|i: int, j: int|
        0 <= i < j < x.len() && at_most(#[trigger] x[j], v) ==> at_most(#[trigger] x[i], v)
}

/// The boundaries stand in ascending order.
pub open spec fn ascending<T: PartialOrd>(x: Seq<T>) -> bool {
    forall|i: int, j: int| 0 <= i < j < x.len() ==> at_most(#[trigger] x[i], #[trigger] x[j])
}

/// The order of the number type carries over: what is at most a value that is
/// at most a third is at most the third.
pub open spec fn transitive_order<T: PartialOrd>() -> bool {
    forall|a: T, b: T, c: T| #[trigger] at_most(a, b) && #[trigger] at_most(b, c) ==> at_most(a, c)
}

/// No boundary is at most `v`: `v` is below every boundary, or it has no place
/// in the order at all, as a NaN has none.
pub open spec fn none_at_most<T: PartialOrd>(x: Seq<T>, v: T) -> bool {
    forall|i: int| 0 <= i < x.len() ==> !at_most(#[trigger] x[i], v)
}

/// A boundary position as a bin index, where it fits in 16 bits.
pub open spec fn bin_index(k: nat) -> Option<u16> {
    if k <= u16::MAX {
        Some(k as u16)
    } else {
        None
    }
}

/// Narrows a boundary position to a bin index.
fn narrow_bin(k: usize) -> (bin: Option<u16>)
    ensures
        bin == bin_index(k as nat),
{
    if k <= u16::MAX as usize {
        Some(k as u16)
    } else {
        None
    }
}

/// Only one position separates the boundaries at most `v` from the others, and
/// it is the position of the first boundary above `v`.
pub proof fn lemma_first_above_unique<T: PartialOrd>(x: Seq<T>, v: T, k: int)
    requires
        bin_boundary(x, v, k),
    ensures
        first_above(x, v) == k,
    decreases x.len(),
{
    if x.len() > 0 && at_most(x[0], v) {
        let rest = x.drop_first();
        assert(k > 0) by {
            if k == 0 {
                assert(!at_most(x[0], v));
            }
        }
        assert(bin_boundary(rest, v, k - 1)) by {
            assert forall|i: int| 0 <= i < k - 1 implies at_most(#[trigger] rest[i], v) by {
                assert(rest[i] == x[i + 1]);
            }
            assert forall|i: int| k - 1 <= i < rest.len() implies !at_most(
                #[trigger] rest[i],
                v,
            ) by {
                assert(rest[i] == x[i + 1]);
            }
        }
        lemma_first_above_unique(rest, v, k - 1);
    } else if x.len() > 0 {
        if k > 0 {
            assert(at_most(x[0], v));
        }
    }
}

/// Boundaries in ascending order are ordered around every value, where the
/// order of the number type carries over.
pub proof fn lemma_ascending_ordered_around<T: PartialOrd>(x: Seq<T>, v: T)
    requires
        ascending(x),
        transitive_order::<T>(),
    ensures
        ordered_around(x, v),
{
    assert forall|i: int, j: int| 0 <= i < j < x.len() && at_most(#[trigger] x[j], v) implies at_most(
        #[trigger] x[i],
        v,
    ) by {
        assert(at_most(x[i], x[j]));
    }
}

/// A value strictly between two neighbouring boundaries of an ascending
/// sequence has the position of the upper one as its bin: with `i - 1` and `i`
/// the two positions, the first boundary above `v` is at `i`. At the ends, a
/// value below every boundary has position 0 and a value above every boundary
/// has the number of boundaries.
pub proof fn lemma_bin_between<T: PartialOrd>(x: Seq<T>, v: T, i: int)
    requires
        ascending(x),
        transitive_order::<T>(),
        0 <= i <= x.len(),
        i > 0 ==> below(x[i - 1], v),
        i < x.len() ==> above(x[i], v),
    ensures
        ordered_around(x, v),
        first_above(x, v) == i,
{
    lemma_ascending_ordered_around(x, v);
    assert(bin_boundary(x, v, i)) by {
        assert forall|k: int| 0 <= k < i implies at_most(#[trigger] x[k], v) by {
            if k < i - 1 {
                assert(at_most(x[k], x[i - 1]));
            }
            assert(at_most(x[i - 1], v));
        }
        assert forall|k: int| i <= k < x.len() implies !at_most(#[trigger] x[k], v) by {
            if at_most(x[k], v) {
                if i < k {
                    assert(at_most(x[i], x[k]));
                }
                assert(at_most(x[i], v));
            }
        }
    }
    lemma_first_above_unique(x, v, i);
}

/// A value that no boundary is at most falls into bin 0: a value without a
/// place in the order does so whatever the boundaries are.
pub proof fn lemma_bin_zero<T: PartialOrd>(x: Seq<T>, v: T)
    requires
        none_at_most(x, v),
    ensures
        ordered_around(x, v),
        first_above(x, v) == 0,
{
    assert(bin_boundary(x, v, 0));
    lemma_first_above_unique(x, v, 0);
}

/// Maps a raw value to its bin: the position of the first boundary greater than
/// it, found by bisection.
///
/// `x` holds the bin boundaries in ascending order. No boundary is at most a
/// value that has no place in the order, such as a NaN, so such a value falls
/// into bin 0. The result is `None` where the position does not fit in 16 bits.
///
/// For a number type with an exact order the result is the position at which
/// the bisection ends, which has a boundary at most `v` before it and a boundary
/// not at most `v` at it; where the boundaries are ordered around `v`, that is
/// the position of the first boundary above `v`.
#[inline]
pub fn map_bin<T: PartialOrd>(x: &[T], v: &T) -> (bin: Option<u16>)
    ensures
        exact_order::<T>() && ordered_around(x@, *v) ==> bin == bin_index(first_above(x@, *v)),
        exact_order::<T>() && none_at_most(x@, *v) ==> bin == Some(0u16),
        exact_order::<T>() ==> match bin {
            Some(b) => {
                &&& b <= x@.len()
                &&& b > 0 ==> at_most(x@[b - 1], *v)
                &&& b < x@.len() ==> !at_most(x@[b as int], *v)
            },
            None => x@.len() > u16::MAX,
        },
        bin matches Some(b) ==> b <= x@.len(),
        bin is None ==> x@.len() > u16::MAX,
{
    let mut low: usize = 0;
    let mut high: usize = x.len();
    while low != high
        invariant
            low <= high <= x@.len(),
            exact_order::<T>() ==> {
                &&& low > 0 ==> at_most(x@[low - 1], *v)
                &&& high < x@.len() ==> !at_most(x@[high as int], *v)
            },
            exact_order::<T>() && ordered_around(x@, *v) ==> {
                &&& forall|i: int| 0 <= i < low ==> at_most(#[trigger] x@[i], *v)
                &&& forall|i: int| high <= i < x@.len() ==> !at_most(#[trigger] x@[i], *v)
            },
        decreases high - low,
    {
        let mid = low + (high - low) / 2;
        // No boundary is at most a value without a place in the order, which
        // drives the search to the bottom.
        if x[mid] <= *v {
            low = mid + 1;
        } else {
            high = mid;
        }
    }
    proof {
        if exact_order::<T>() && ordered_around(x@, *v) {
            lemma_first_above_unique(x@, *v, low as int);
        }
        if exact_order::<T>() && none_at_most(x@, *v) {
            if low > 0 {
                assert(!at_most(x@[low - 1], *v));
            }
        }
    }
    narrow_bin(low)
}

} // verus!
