//! Weighted percentiles of a feature column, from which bin boundaries are
//! taken.
//!
//! The samples are walked in ascending order of their value while their
//! weights, each divided by the total weight, are added up. A requested level
//! is met at the first sample at which this cumulative share has reached it,
//! and the value of that sample is the percentile.

use crate::numeric::{
    at_least, at_most, constant_value, exact_add, exact_constants, exact_div, exact_equality,
    exact_order, may_add, may_divide, one, ordered_pair, quotient_of, same, sum_of, total_add,
    total_div, total_order_on_numbers, totally_ordered, zero,
};
use crate::reduction::{exact_sums, fast_sum, fast_sum_defined, fast_sum_spec};
use core::ops::{Add, Div};
use std::cmp::Ordering;
use vstd::prelude::*;
use vstd::std_specs::cmp::PartialOrdSpec;

verus! {

/// Why no percentiles can be taken of a column.
#[derive(Clone, Copy, Debug, PartialEq, Eq)]
pub enum PercentileError {
    /// No level was asked for.
    NoLevels,
    /// The column holds no value.
    NoValues,
    /// The values and the weights differ in number.
    LengthMismatch,
    /// A value has no place in the order, as a NaN has none.
    UnorderedValue,
    /// The weights add up to zero, so that no share of the total is defined.
    ZeroTotalWeight,
}

/// Every entry of the order names a sample.
pub open spec fn valid_order(order: Seq<usize>, samples: nat) -> bool {
    forall|k: int| 0 <= k < order.len() ==> #[trigger] order[k] < samples
}

/// The order `0, 1, ..` in which the samples are stored.
pub open spec fn stored_order(samples: nat) -> Seq<usize> {
    Seq::new(samples, |k: int| k as usize)
}

/// The value of the sample that stands at position `k` of the order.
pub open spec fn value_at<T>(v: Seq<T>, order: Seq<usize>, k: int) -> T {
    v[order[k] as int]
}

/// The order walks the samples by ascending value.
pub open spec fn ascending_by_value<T: PartialOrd>(v: Seq<T>, order: Seq<usize>) -> bool {
    forall|a: int, b: int|
        0 <= a < b < order.len() ==> at_most(
            #[trigger] value_at(v, order, a),
            #[trigger] value_at(v, order, b),
        )
}

/// The order names every sample once and walks them by ascending value. Where
/// values are equal it may take them either way.
pub open spec fn sorted_order<T: PartialOrd>(v: Seq<T>, order: Seq<usize>) -> bool {
    &&& order.to_multiset() == stored_order(v.len()).to_multiset()
    &&& ascending_by_value(v, order)
}

/// The share of the total weight that the first `k` samples of the order hold:
/// each weight is divided by the total and the quotients are added up in order,
/// starting from zero.
pub open spec fn cumulative_share<T: Add<Output = T> + Div<Output = T> + From<u8>>(
    sample_weight: Seq<T>,
    order: Seq<usize>,
    total: T,
    k: nat,
) -> T
    decreases k,
{
    if k == 0 {
        zero::<T>()
    } else {
        sum_of(
            cumulative_share(sample_weight, order, total, (k - 1) as nat),
            quotient_of(sample_weight[order[k - 1] as int], total),
        )
    }
}

/// The cumulative share has met the level: it has reached it, or the level is
/// zero, which every share meets.
pub open spec fn met<T: PartialOrd + From<u8>>(share: T, level: T) -> bool {
    same(level, zero::<T>()) || at_least(share, level)
}

/// What the walk yields from the sample at position `k` on, with the level at
/// position `j` at hand.
///
/// Where the cumulative share up to and including this sample has met the
/// level, the value of the sample is the percentile, and the next level is held
/// against the same sample. Where it has not, the walk moves on to the next
/// sample. A level of one that the share has not met when the walk arrives at a
/// sample (`arriving`), or when the samples have run out, yields the greatest
/// value and ends the walk.
pub open spec fn yielded<T: PartialOrd + Add<Output = T> + Div<Output = T> + From<u8>>(
    v: Seq<T>,
    sample_weight: Seq<T>,
    levels: Seq<T>,
    order: Seq<usize>,
    k: nat,
    j: nat,
    arriving: bool,
) -> Seq<T>
    decreases order.len() - k, levels.len() - j,
{
    let total = fast_sum_spec(sample_weight);
    if j >= levels.len() {
        Seq::empty()
    } else if k >= order.len() {
        if same(levels[j as int], one::<T>()) && order.len() > 0 {
            seq![value_at(v, order, order.len() - 1)]
        } else {
            Seq::empty()
        }
    } else if met(cumulative_share(sample_weight, order, total, k + 1), levels[j as int]) {
        seq![value_at(v, order, k as int)] + yielded(
            v,
            sample_weight,
            levels,
            order,
            k,
            j + 1,
            false,
        )
    } else if arriving && same(levels[j as int], one::<T>()) {
        seq![value_at(v, order, order.len() - 1)]
    } else {
        yielded(v, sample_weight, levels, order, k + 1, j, true)
    }
}

/// The percentiles of the values at the given levels, with the samples walked
/// in the given order.
pub open spec fn percentiles_spec<T: PartialOrd + Add<Output = T> + Div<Output = T> + From<u8>>(
    v: Seq<T>,
    sample_weight: Seq<T>,
    levels: Seq<T>,
    order: Seq<usize>,
) -> Seq<T> {
    yielded(v, sample_weight, levels, order, 0, 0, true)
}

/// A level of zero at the head of the levels yields the value of the first
/// sample of the order, which by ascending value is the least value.
pub proof fn lemma_level_zero_yields_first<
    T: PartialOrd + Add<Output = T> + Div<Output = T> + From<u8>,
>(v: Seq<T>, sample_weight: Seq<T>, levels: Seq<T>, order: Seq<usize>)
    requires
        levels.len() > 0,
        order.len() > 0,
        same(levels[0], zero::<T>()),
    ensures
        percentiles_spec(v, sample_weight, levels, order).len() > 0,
        percentiles_spec(v, sample_weight, levels, order)[0] == value_at(v, order, 0),
{
}

/// Each percentile is the value of some sample.
pub open spec fn drawn_from<T>(p: Seq<T>, v: Seq<T>) -> bool {
    forall|i: int| 0 <= i < p.len() ==> exists|t: int| 0 <= t < v.len() && #[trigger] p[i] == v[t]
}

/// The arithmetic and the comparisons that the walk makes return what their
/// models say.
pub open spec fn exact_walk<T: PartialOrd + Add<Output = T> + Div<Output = T> + From<u8>>() -> bool {
    &&& exact_add::<T>()
    &&& exact_div::<T>()
    &&& exact_constants::<T>()
    &&& exact_equality::<T>()
    &&& exact_order::<T>()
}

/// Each weight may be divided by the total, and each quotient may be added to
/// the cumulative share of the samples before it in the order.
pub open spec fn shares_defined<T: Add<Output = T> + Div<Output = T> + From<u8>>(
    sample_weight: Seq<T>,
    order: Seq<usize>,
) -> bool {
    let total = fast_sum_spec(sample_weight);
    forall|k: nat|
        k < order.len() ==> {
            &&& may_divide(sample_weight[order[k as int] as int], total)
            &&& may_add(
                #[trigger] cumulative_share(sample_weight, order, total, k),
                quotient_of(sample_weight[order[k as int] as int], total),
            )
        }
}

/// The samples can be walked in the given order: addition and division are
/// total on the number type, or the arithmetic and the comparisons are exact,
/// the weights can be added up in lanes, and every share can be taken and
/// added.
pub open spec fn can_walk<T: PartialOrd + Add<Output = T> + Div<Output = T> + From<u8>>(
    sample_weight: Seq<T>,
    order: Seq<usize>,
) -> bool {
    ||| total_add::<T>() && total_div::<T>()
    ||| exact_walk::<T>() && fast_sum_defined(sample_weight) && shares_defined(
        sample_weight,
        order,
    )
}

/// The samples can be walked by ascending value, in whichever order the sort
/// leaves samples of equal value.
pub open spec fn can_walk_sorted<T: PartialOrd + Add<Output = T> + Div<Output = T> + From<u8>>(
    v: Seq<T>,
    sample_weight: Seq<T>,
) -> bool {
    ||| total_add::<T>() && total_div::<T>()
    ||| {
        &&& exact_walk::<T>()
        &&& fast_sum_defined(sample_weight)
        &&& forall|order: Seq<usize>| #[trigger]
            sorted_order(v, order) ==> shares_defined(sample_weight, order)
    }
}

/// The weights do not add up to zero.
pub open spec fn weighs_something<T: PartialEq + Add<Output = T> + From<u8>>(
    sample_weight: Seq<T>,
) -> bool {
    !same(fast_sum_spec(sample_weight), zero::<T>())
}

/// Takes the percentiles of the values at the given levels, walking the
/// samples in the order given.
///
/// `order` names the samples by their position in `v`, by ascending value
/// where percentiles of the column are wanted. The levels are looked at one
/// after another and never again, so they are to be given in ascending order.
/// The result holds one value for each level that the walk has met, in the
/// order of the levels.
pub fn percentiles_in_order<T: Copy + PartialOrd + Add<Output = T> + Div<Output = T> + From<u8>>(
    v: &[T],
    sample_weight: &[T],
    levels: &[T],
    order: &[usize],
) -> (p: Vec<T>)
    requires
        levels@.len() > 0,
        order@.len() > 0,
        v@.len() == sample_weight@.len(),
        valid_order(order@, v@.len()),
        can_walk(sample_weight@, order@),
    ensures
        exact_walk::<T>() ==> p@ == percentiles_spec(v@, sample_weight@, levels@, order@),
        p@.len() <= levels@.len(),
        drawn_from(p@, v@),
{
    let nothing: T = constant_value(0);
    let whole: T = constant_value(1);
    let total_values = fast_sum(sample_weight);
    let samples = order.len();
    let asked = levels.len();
    let mut p: Vec<T> = Vec::new();
    let mut at_hand: usize = 0;
    let mut current_pct = levels[0];
    let mut cuml_pct = nothing;
    let mut k: usize = 0;
    while k < samples
        invariant
            can_walk(sample_weight@, order@),
            samples == order@.len(),
            samples > 0,
            asked == levels@.len(),
            v@.len() == sample_weight@.len(),
            valid_order(order@, v@.len()),
            k <= samples,
            at_hand < levels@.len(),
            current_pct == levels@[at_hand as int],
            p@.len() <= at_hand,
            drawn_from(p@, v@),
            exact_walk::<T>() ==> {
                &&& nothing == zero::<T>()
                &&& whole == one::<T>()
                &&& total_values == fast_sum_spec(sample_weight@)
                &&& cuml_pct == cumulative_share(sample_weight@, order@, total_values, k as nat)
                &&& p@ + yielded(
                    v@,
                    sample_weight@,
                    levels@,
                    order@,
                    k as nat,
                    at_hand as nat,
                    true,
                ) == percentiles_spec(v@, sample_weight@, levels@, order@)
            },
        decreases samples - k,
    {
        let i = order[k];
        let current_value = v[i];
        assert(current_value == value_at(v@, order@, k as int));
        cuml_pct = cuml_pct + sample_weight[i] / total_values;
        let ghost arriving = true;
        if current_pct == nothing || cuml_pct >= current_pct {
            // The same sample may meet several levels in a row.
            while current_pct == nothing || cuml_pct >= current_pct
                invariant
                    samples == order@.len(),
                    asked == levels@.len(),
                    k < samples,
                    at_hand < levels@.len(),
                    current_pct == levels@[at_hand as int],
                    current_value == value_at(v@, order@, k as int),
                    0 <= order@[k as int] < v@.len(),
                    p@.len() <= at_hand,
                    drawn_from(p@, v@),
                    exact_walk::<T>() ==> {
                        &&& nothing == zero::<T>()
                        &&& total_values == fast_sum_spec(sample_weight@)
                        &&& cuml_pct == cumulative_share(
                            sample_weight@,
                            order@,
                            total_values,
                            (k + 1) as nat,
                        )
                        &&& arriving ==> met(cuml_pct, current_pct)
                        &&& p@ + yielded(
                            v@,
                            sample_weight@,
                            levels@,
                            order@,
                            k as nat,
                            at_hand as nat,
                            arriving,
                        ) == percentiles_spec(v@, sample_weight@, levels@, order@)
                    },
                decreases levels@.len() - at_hand,
            {
                proof {
                    lemma_drawn_from_push(p@, v@, current_value, order@[k as int] as int);
                    let rest = yielded(
                        v@,
                        sample_weight@,
                        levels@,
                        order@,
                        k as nat,
                        (at_hand + 1) as nat,
                        false,
                    );
                    assert(p@.push(current_value) + rest =~= p@ + (seq![current_value] + rest));
                }
                p.push(current_value);
                at_hand += 1;
                if at_hand == asked {
                    proof {
                        assert(p@ + Seq::<T>::empty() =~= p@);
                    }
                    return p;
                }
                current_pct = levels[at_hand];
                proof {
                    arriving = false;
                }
            }
        } else if current_pct == whole {
            // The share falls short of one only by rounding: the greatest value
            // is the percentile.
            let greatest = v[order[samples - 1]];
            proof {
                lemma_drawn_from_push(p@, v@, greatest, order@[samples - 1] as int);
                assert(greatest == value_at(v@, order@, order@.len() - 1));
                assert(p@.push(greatest) =~= p@ + seq![greatest]);
            }
            p.push(greatest);
            return p;
        }
        k += 1;
    }
    if current_pct == whole {
        let greatest = v[order[samples - 1]];
        proof {
            lemma_drawn_from_push(p@, v@, greatest, order@[samples - 1] as int);
            assert(greatest == value_at(v@, order@, order@.len() - 1));
            assert(p@.push(greatest) =~= p@ + seq![greatest]);
        }
        p.push(greatest);
    } else {
        proof {
            assert(p@ + Seq::<T>::empty() =~= p@);
        }
    }
    p
}

/// Percentiles that are values of samples remain so when the value of a sample
/// is added to them.
proof fn lemma_drawn_from_push<T>(p: Seq<T>, v: Seq<T>, value: T, t: int)
    requires
        drawn_from(p, v),
        0 <= t < v.len(),
        value == v[t],
    ensures
        drawn_from(p.push(value), v),
{
    assert forall|i: int| 0 <= i < p.push(value).len() implies exists|t: int|
        0 <= t < v.len() && #[trigger] p.push(value)[i] == v[t] by {
        if i < p.len() {
            assert(p.push(value)[i] == p[i]);
            let u = choose|u: int| 0 <= u < v.len() && p[i] == v[u];
            assert(p.push(value)[i] == v[u]);
        } else {
            assert(p.push(value)[i] == v[t]);
        }
    }
}

/// The value of the sample with the given position in the column.
pub open spec fn sample<T>(v: Seq<T>, position: usize) -> T {
    v[position as int]
}

/// Every value is a number: it is at most itself, which a NaN is not.
pub open spec fn all_numbers<T: PartialOrd>(v: Seq<T>) -> bool {
    forall|i: int| 0 <= i < v.len() ==> at_most(#[trigger] v[i], v[i])
}

/// How the values of two samples compare.
fn compare_values<T: PartialOrd>(v: &[T], a: usize, b: usize) -> (o: Ordering)
    requires
        a < v@.len(),
        b < v@.len(),
        exact_order::<T>(),
        totally_ordered(v@),
    ensures
        Some(o) == sample(v@, a).partial_cmp_spec(&sample(v@, b)),
{
    proof {
        assert(ordered_pair(sample(v@, a), sample(v@, b)));
    }
    v[a].partial_cmp(&v[b]).unwrap()
}

/// Sorts the sample positions by the value of their sample, with
/// `sort_unstable_by` of the standard library on the vector and
/// `compare_values` as its comparison.
///
/// This is believed, not proved: that on values that are totally ordered the
/// sort returns, that it keeps the positions it was given, each as often as it
/// was there, and that it leaves them in ascending order of their values. The
/// standard library promises no more of the order of positions with equal
/// values, and neither does this.
#[verifier::external_body]
fn sort_by_value<T: PartialOrd>(order: &mut Vec<usize>, v: &[T])
    requires
        valid_order(old(order)@, v@.len()),
        exact_order::<T>(),
        totally_ordered(v@),
    ensures
        final(order)@.to_multiset() == old(order)@.to_multiset(),
        ascending_by_value(v@, final(order)@),
{
    order.sort_unstable_by(|a, b| compare_values(v, *a, *b));
}

/// An order that names the same samples as the stored order names samples
/// only.
proof fn lemma_sorted_order_valid<T: PartialOrd>(v: Seq<T>, order: Seq<usize>)
    requires
        order.to_multiset() == stored_order(v.len()).to_multiset(),
    ensures
        valid_order(order, v.len()),
        order.len() == v.len(),
{
    let stored = stored_order(v.len());
    vstd::seq_lib::to_multiset_len(order);
    vstd::seq_lib::to_multiset_len(stored);
    assert forall|k: int| 0 <= k < order.len() implies #[trigger] order[k] < v.len() by {
        vstd::seq_lib::to_multiset_contains(order, order[k]);
        vstd::seq_lib::to_multiset_contains(stored, order[k]);
        assert(order.contains(order[k]));
        let t = choose|t: int| 0 <= t < stored.len() && stored[t] == order[k];
        assert(stored[t] == t as usize);
    }
}

/// Takes the weighted percentiles of a column at the given levels.
///
/// `v` holds the values and `sample_weight` the weight of each; `levels` holds
/// the levels asked for, from 0 to 1 and in ascending order. The samples are walked
/// by ascending value, and each level yields the value of the first sample at
/// which the cumulative share of the weight has reached it. One sample may meet
/// several levels at once, which then yield the same value. A level of zero is
/// met at once, by the least value. A level of one yields the greatest value
/// even where rounding keeps the share below one.
///
/// Missing values are not supported: the values must be totally ordered, which
/// leaves out a NaN, and the caller filters beforehand. There must be a level
/// and a value, and the weights must not add up to zero.
/// [`checked_percentiles`] tests all of this and says what is wrong.
pub fn percentiles<T: Copy + PartialOrd + Add<Output = T> + Div<Output = T> + From<u8>>(
    v: &[T],
    sample_weight: &[T],
    levels: &[T],
) -> (p: Vec<T>)
    requires
        exact_order::<T>(),
        levels@.len() > 0,
        v@.len() > 0,
        v@.len() == sample_weight@.len(),
        totally_ordered(v@),
        exact_sums::<T>() && exact_equality::<T>() ==> weighs_something(sample_weight@),
        can_walk_sorted(v@, sample_weight@),
    ensures
        exists|order: Seq<usize>|
            sorted_order(v@, order) && (exact_walk::<T>() ==> p@ == percentiles_spec(
                v@,
                sample_weight@,
                levels@,
                order,
            )),
        p@.len() <= levels@.len(),
        drawn_from(p@, v@),
{
    let samples = v.len();
    let mut idx: Vec<usize> = Vec::new();
    let mut i: usize = 0;
    while i < samples
        invariant
            samples == v@.len(),
            i <= samples,
            idx@ == stored_order(i as nat),
        decreases samples - i,
    {
        idx.push(i);
        i += 1;
        proof {
            assert(idx@ =~= stored_order(i as nat));
        }
    }
    sort_by_value(&mut idx, v);
    proof {
        lemma_sorted_order_valid(v@, idx@);
        assert(sorted_order(v@, idx@));
    }
    percentiles_in_order(v, sample_weight, levels, idx.as_slice())
}

/// What is wrong with the column or the levels, where the values, the weights
/// and the levels alone show it.
pub open spec fn malformed<T: PartialOrd>(
    v: Seq<T>,
    sample_weight: Seq<T>,
    levels: Seq<T>,
) -> Option<PercentileError> {
    if levels.len() == 0 {
        Some(PercentileError::NoLevels)
    } else if v.len() == 0 {
        Some(PercentileError::NoValues)
    } else if v.len() != sample_weight.len() {
        Some(PercentileError::LengthMismatch)
    } else if !all_numbers(v) {
        Some(PercentileError::UnorderedValue)
    } else {
        None
    }
}

/// Takes the weighted percentiles of a column as [`percentiles`] does, after
/// testing what that function asks of its input, and says which test failed.
///
/// The tests are made in this order: that there is a level, that there is a
/// value, that there are as many weights as values, that every value has a
/// place in the order, and that the weights do not add up to zero.
pub fn checked_percentiles<T: Copy + PartialOrd + Add<Output = T> + Div<Output = T> + From<u8>>(
    v: &[T],
    sample_weight: &[T],
    levels: &[T],
) -> (outcome: Result<Vec<T>, PercentileError>)
    requires
        exact_order::<T>(),
        total_order_on_numbers::<T>(),
        can_walk_sorted(v@, sample_weight@),
    ensures
        malformed(v@, sample_weight@, levels@) matches Some(e) ==> outcome == Err::<
            Vec<T>,
            PercentileError,
        >(e),
        malformed(v@, sample_weight@, levels@) is None ==> outcome is Ok || outcome == Err::<
            Vec<T>,
            PercentileError,
        >(PercentileError::ZeroTotalWeight),
        malformed(v@, sample_weight@, levels@) is None && exact_sums::<T>()
            && exact_equality::<T>() ==> (outcome is Ok <==> weighs_something(sample_weight@)),
        outcome matches Ok(p) ==> {
            &&& exists|order: Seq<usize>|
                sorted_order(v@, order) && (exact_walk::<T>() ==> p@ == percentiles_spec(
                    v@,
                    sample_weight@,
                    levels@,
                    order,
                ))
            &&& p@.len() <= levels@.len()
            &&& drawn_from(p@, v@)
        },
{
    if levels.len() == 0 {
        return Err(PercentileError::NoLevels);
    }
    if v.len() == 0 {
        return Err(PercentileError::NoValues);
    }
    if v.len() != sample_weight.len() {
        return Err(PercentileError::LengthMismatch);
    }
    let mut i: usize = 0;
    while i < v.len()
        invariant
            exact_order::<T>(),
            levels@.len() > 0,
            v@.len() == sample_weight@.len(),
            i <= v@.len(),
            forall|t: int| 0 <= t < i ==> at_most(#[trigger] v@[t], v@[t]),
        decreases v@.len() - i,
    {
        // A NaN is not even at most itself.
        if !(v[i] <= v[i]) {
            proof {
                assert(!at_most(v@[i as int], v@[i as int]));
            }
            return Err(PercentileError::UnorderedValue);
        }
        i += 1;
    }
    let nothing: T = constant_value(0);
    let total = fast_sum(sample_weight);
    if total == nothing {
        return Err(PercentileError::ZeroTotalWeight);
    }
    Ok(percentiles(v, sample_weight, levels))
}

} // verus!
