//! In-place partitioning of sample indices around a split on a binned feature.
//!
//! A node of a tree owns a run of sample identifiers. Splitting the node on a
//! feature reorders that run so that the samples of each child are contiguous.
//! Only the boundary matters, so the run is partitioned, never sorted.

use std::cmp::Ordering;
use vstd::prelude::*;

verus! {

/// The bin code that marks a missing feature value. Real bin codes start at 1.
pub const MISSING: u16 = 0;

/// How the split value compares to a bin code. A missing code counts as larger
/// than every split value when missing samples are routed right, and as smaller
/// than every split value when they are routed left.
pub open spec fn missing_compare_spec(split_value: u16, code: u16, missing_right: bool) -> Ordering {
    if code == MISSING {
        if missing_right {
            Ordering::Less
        } else {
            Ordering::Greater
        }
    } else if split_value < code {
        Ordering::Less
    } else if split_value == code {
        Ordering::Equal
    } else {
        Ordering::Greater
    }
}

/// A sample goes to the left child exactly when the split value compares
/// greater than its bin code.
pub open spec fn routes_left(split_value: u16, code: u16, missing_right: bool) -> bool {
    missing_compare_spec(split_value, code, missing_right) == Ordering::Greater
}

/// The bin code of the sample at position `i` of the index array.
pub open spec fn code_at(index: Seq<usize>, feature: Seq<u16>, i: int) -> u16 {
    feature[index[i] as int]
}

/// Every sample identifier names a position of the feature column.
pub open spec fn valid_index(index: Seq<usize>, feature: Seq<u16>) -> bool {
    forall|i: int| 0 <= i < index.len() ==> #[trigger] index[i] < feature.len()
}

/// The sequence with the entries at `a` and `b` exchanged.
pub open spec fn swapped(index: Seq<usize>, a: int, b: int) -> Seq<usize> {
    index.update(a, index[b]).update(b, index[a])
}

/// The samples at positions `from..to` all go left.
pub open spec fn all_left(
    index: Seq<usize>,
    feature: Seq<u16>,
    split_value: u16,
    missing_right: bool,
    from: int,
    to: int,
) -> bool {
    forall|i: int|
        from <= i < to ==> routes_left(
            split_value,
            #[trigger] code_at(index, feature, i),
            missing_right,
        )
}

/// The samples at positions `from..to` all go right.
pub open spec fn all_right(
    index: Seq<usize>,
    feature: Seq<u16>,
    split_value: u16,
    missing_right: bool,
    from: int,
    to: int,
) -> bool {
    forall|i: int|
        from <= i < to ==> !routes_left(
            split_value,
            #[trigger] code_at(index, feature, i),
            missing_right,
        )
}

/// The index array is split at `s`: the samples before `s` go left and the
/// samples from `s` on go right.
pub open spec fn partitioned_at(
    index: Seq<usize>,
    feature: Seq<u16>,
    split_value: u16,
    missing_right: bool,
    s: int,
) -> bool {
    &&& 0 <= s <= index.len()
    &&& all_left(index, feature, split_value, missing_right, 0, s)
    &&& all_right(index, feature, split_value, missing_right, s, index.len() as int)
}

/// The index array is split at some point.
pub open spec fn is_partitioned(
    index: Seq<usize>,
    feature: Seq<u16>,
    split_value: u16,
    missing_right: bool,
) -> bool {
    exists|s: int| partitioned_at(index, feature, split_value, missing_right, s)
}

/// The sample at position `i` stands on its side of the point `s` already: it
/// goes left and stands before `s`, or it goes right and stands at or after `s`.
pub open spec fn settled(
    index: Seq<usize>,
    feature: Seq<u16>,
    split_value: u16,
    missing_right: bool,
    s: int,
    i: int,
) -> bool {
    routes_left(split_value, code_at(index, feature, i), missing_right) <==> i < s
}

/// How many samples of the index array have a bin code that meets `wanted`.
pub open spec fn count_codes(index: Seq<usize>, feature: Seq<u16>, wanted: spec_fn(u16) -> bool) -> nat
    decreases index.len(),
{
    if index.len() == 0 {
        0
    } else {
        count_codes(index.drop_last(), feature, wanted) + if wanted(
            feature[index.last() as int],
        ) {
            1nat
        } else {
            0nat
        }
    }
}

/// The samples whose bin code meets `wanted` stand before position `s`, and no
/// others do.
pub open spec fn split_by(
    index: Seq<usize>,
    feature: Seq<u16>,
    wanted: spec_fn(u16) -> bool,
    s: int,
) -> bool {
    &&& 0 <= s <= index.len()
    &&& forall|i: int| 0 <= i < s ==> wanted(#[trigger] code_at(index, feature, i))
    &&& forall|i: int| s <= i < index.len() ==> !wanted(#[trigger] code_at(index, feature, i))
}

/// The bin codes that go left of the split.
pub open spec fn left_codes(split_value: u16, missing_right: bool) -> spec_fn(u16) -> bool {
    |code: u16| routes_left(split_value, code, missing_right)
}

/// The bin codes that mark a missing value.
pub open spec fn missing_codes() -> spec_fn(u16) -> bool {
    |code: u16| code == MISSING
}

/// The bin codes below the split value, the missing code among them.
pub open spec fn codes_below(split_value: u16) -> spec_fn(u16) -> bool {
    |code: u16| code < split_value
}

/// How many samples of the index array go left.
pub open spec fn count_left(
    index: Seq<usize>,
    feature: Seq<u16>,
    split_value: u16,
    missing_right: bool,
) -> nat {
    count_codes(index, feature, left_codes(split_value, missing_right))
}

/// How many samples of the index array have a missing value.
pub open spec fn count_missing(index: Seq<usize>, feature: Seq<u16>) -> nat {
    count_codes(index, feature, missing_codes())
}

/// How many samples of the index array have a bin code below the split value,
/// the samples with a missing value among them.
pub open spec fn count_below(index: Seq<usize>, feature: Seq<u16>, split_value: u16) -> nat {
    count_codes(index, feature, codes_below(split_value))
}

/// The index array stands in three runs: the samples with a missing value
/// before `missing`, then up to `low` the samples with a bin code below the
/// split value, then the samples with a bin code of at least the split value.
pub open spec fn three_runs(
    index: Seq<usize>,
    feature: Seq<u16>,
    split_value: u16,
    low: int,
    missing: int,
) -> bool {
    &&& 0 <= missing <= low <= index.len()
    &&& forall|i: int| 0 <= i < missing ==> #[trigger] code_at(index, feature, i) == MISSING
    &&& forall|i: int|
        missing <= i < low ==> {
            &&& #[trigger] code_at(index, feature, i) != MISSING
            &&& code_at(index, feature, i) < split_value
        }
    &&& forall|i: int|
        low <= i < index.len() ==> {
            &&& #[trigger] code_at(index, feature, i) != MISSING
            &&& code_at(index, feature, i) >= split_value
        }
}

/// Every sample of the index array has a missing value.
pub open spec fn all_missing(index: Seq<usize>, feature: Seq<u16>) -> bool {
    forall|i: int| 0 <= i < index.len() ==> #[trigger] code_at(index, feature, i) == MISSING
}

/// The index array stands in three runs at some pair of points.
pub open spec fn in_three_runs(index: Seq<usize>, feature: Seq<u16>, split_value: u16) -> bool {
    exists|low: int, missing: int| three_runs(index, feature, split_value, low, missing)
}

/// Compares the split value with a sample's bin code under the chosen routing
/// of missing values.
#[inline]
pub fn missing_compare(split_value: &u16, cmp_value: u16, missing_right: bool) -> (o: Ordering)
    ensures
        o == missing_compare_spec(*split_value, cmp_value, missing_right),
{
    if cmp_value == MISSING {
        if missing_right {
            // The split value always counts as less than a missing code.
            Ordering::Less
        } else {
            // The split value always counts as greater than a missing code.
            Ordering::Greater
        }
    } else if *split_value < cmp_value {
        Ordering::Less
    } else if *split_value == cmp_value {
        Ordering::Equal
    } else {
        Ordering::Greater
    }
}

/// Whether a sample with this bin code goes to the left child.
fn goes_left(split_value: u16, code: u16, missing_right: bool) -> (left: bool)
    ensures
        left == routes_left(split_value, code, missing_right),
{
    match missing_compare(&split_value, code, missing_right) {
        Ordering::Greater => true,
        Ordering::Less | Ordering::Equal => false,
    }
}

/// Exchanges two entries of the index array.
fn swap_entries(index: &mut [usize], a: usize, b: usize)
    requires
        a < old(index)@.len(),
        b < old(index)@.len(),
    ensures
        final(index)@ == swapped(old(index)@, a as int, b as int),
        final(index)@.to_multiset() == old(index)@.to_multiset(),
{
    let x = index[a];
    let y = index[b];
    index[a] = y;
    index[b] = x;
    proof {
        lemma_swapped_multiset(old(index)@, a as int, b as int);
    }
}

/// Exchanging two entries neither drops nor duplicates a sample.
pub proof fn lemma_swapped_multiset(index: Seq<usize>, a: int, b: int)
    requires
        0 <= a < index.len(),
        0 <= b < index.len(),
    ensures
        swapped(index, a, b).to_multiset() == index.to_multiset(),
{
    broadcast use vstd::multiset::group_multiset_axioms;

    vstd::seq_lib::to_multiset_update(index, a, index[b]);
    vstd::seq_lib::to_multiset_update(index.update(a, index[b]), b, index[a]);
    vstd::seq_lib::to_multiset_contains(index, index[a]);
    vstd::seq_lib::to_multiset_contains(index, index[b]);
    assert(swapped(index, a, b).to_multiset() =~= index.to_multiset());
}

/// One when the sample at `low` goes right while the sample at `high` goes
/// left, so that the next step of the scan must exchange them.
spec fn exchange_due(
    index: Seq<usize>,
    feature: Seq<u16>,
    split_value: u16,
    missing_right: bool,
    low: int,
    high: int,
) -> nat {
    if !routes_left(split_value, code_at(index, feature, low), missing_right) && routes_left(
        split_value,
        code_at(index, feature, high),
        missing_right,
    ) {
        1
    } else {
        0
    }
}

/// Reorders `index` in place so that the samples that go left of the split come
/// first, and returns the position where the right-hand samples begin.
///
/// A sample goes left when its bin code is below `split_value`; a sample whose
/// code is [`MISSING`] goes right when `missing_right` is set and left
/// otherwise. The scan runs two cursors towards each other and exchanges the
/// pair they stop at, so it is linear and needs no buffer.
///
/// No sample is dropped or duplicated. The returned position is the number of
/// samples that go left, whatever their order was. A sample that stood on its
/// side of that position before the call is not moved, so that an array that is
/// already split is left as it is.
#[inline]
pub fn pivot_on_split(
    index: &mut [usize],
    feature: &[u16],
    split_value: u16,
    missing_right: bool,
) -> (s: usize)
    requires
        valid_index(old(index)@, feature@),
    ensures
        final(index)@.to_multiset() == old(index)@.to_multiset(),
        partitioned_at(final(index)@, feature@, split_value, missing_right, s as int),
        s == count_left(old(index)@, feature@, split_value, missing_right),
        forall|i: int|
            0 <= i < old(index)@.len() && settled(
                old(index)@,
                feature@,
                split_value,
                missing_right,
                s as int,
                i,
            ) ==> #[trigger] final(index)@[i] == old(index)@[i],
        is_partitioned(old(index)@, feature@, split_value, missing_right) ==> final(index)@ == old(
            index,
        )@,
{
    let n = index.len();
    let ghost wanted = left_codes(split_value, missing_right);
    let ghost lefts = count_left(old(index)@, feature@, split_value, missing_right) as int;
    if n == 0 {
        proof {
            lemma_split_point_counts(index@, feature@, wanted, 0);
            assert(final(index)@ =~= old(index)@);
        }
        return 0;
    }
    let mut low: usize = 0;
    let mut high: usize = n - 1;
    let max_idx: usize = high;
    while low < high
        invariant
            index@.len() == n,
            old(index)@.len() == n,
            max_idx + 1 == n,
            low <= high <= max_idx,
            wanted == left_codes(split_value, missing_right),
            lefts == count_codes(old(index)@, feature@, wanted),
            valid_index(index@, feature@),
            index@.to_multiset() == old(index)@.to_multiset(),
            all_left(index@, feature@, split_value, missing_right, 0, low as int),
            all_right(index@, feature@, split_value, missing_right, high + 1, n as int),
            high == max_idx || !routes_left(
                split_value,
                code_at(index@, feature@, high as int),
                missing_right,
            ),
            forall|i: int|
                0 <= i < n && settled(old(index)@, feature@, split_value, missing_right, lefts, i)
                    ==> #[trigger] index@[i] == old(index)@[i],
        decreases
                high - low,
                exchange_due(index@, feature@, split_value, missing_right, low as int, high as int),
    {
        let ghost low_before = low;
        let ghost high_before = high;
        // Skip the samples at the low end that already stand on the left.
        while low < max_idx && goes_left(split_value, feature[index[low]], missing_right)
            invariant
                index@.len() == n,
                low_before <= low,
                max_idx + 1 == n,
                low <= high <= max_idx,
                valid_index(index@, feature@),
                all_left(index@, feature@, split_value, missing_right, 0, low as int),
                high == max_idx || !routes_left(
                    split_value,
                    code_at(index@, feature@, high as int),
                    missing_right,
                ),
            decreases max_idx - low,
        {
            low += 1;
        }
        // Skip the samples at the high end that already stand on the right.
        while high > low && !goes_left(split_value, feature[index[high]], missing_right)
            invariant
                index@.len() == n,
                high <= high_before,
                max_idx + 1 == n,
                low <= high <= max_idx,
                valid_index(index@, feature@),
                all_right(index@, feature@, split_value, missing_right, high + 1, n as int),
            decreases high,
        {
            high -= 1;
        }
        if low < high {
            proof {
                // The two samples stand on the wrong sides of the final point,
                // so neither of them is one that must stay.
                lemma_exchange_crosses_split(index@, feature@, wanted, low as int, high as int);
                lemma_count_codes_permutation(index@, old(index)@, feature@, wanted);
                let l = low as int;
                let h = high as int;
                assert(code_at(index@, feature@, l) == feature@[index@[l] as int]);
                assert(code_at(index@, feature@, h) == feature@[index@[h] as int]);
                assert(code_at(old(index)@, feature@, l) == feature@[old(index)@[l] as int]);
                assert(code_at(old(index)@, feature@, h) == feature@[old(index)@[h] as int]);
            }
            let ghost before = index@;
            swap_entries(index, high, low);
            proof {
                assert forall|i: int| 0 <= i < n implies code_at(index@, feature@, i) == (if i
                    == low {
                    code_at(before, feature@, high as int)
                } else if i == high {
                    code_at(before, feature@, low as int)
                } else {
                    code_at(before, feature@, i)
                }) by {}
            }
        }
    }
    let s = if goes_left(split_value, feature[index[low]], missing_right) {
        low + 1
    } else {
        low
    };
    proof {
        lemma_split_point_counts(index@, feature@, wanted, s as int);
        lemma_count_codes_permutation(index@, old(index)@, feature@, wanted);
        if is_partitioned(old(index)@, feature@, split_value, missing_right) {
            let t = choose|t: int|
                partitioned_at(old(index)@, feature@, split_value, missing_right, t);
            lemma_split_point_counts(old(index)@, feature@, wanted, t);
            assert forall|i: int| 0 <= i < n implies index@[i] == old(index)@[i] by {
                assert(settled(old(index)@, feature@, split_value, missing_right, s as int, i));
            }
            assert(index@ =~= old(index)@);
        }
    }
    s
}

/// Where the samples before `low` all meet `wanted` and the samples after
/// `high` all fail it, while the sample at `low` fails it and the sample at
/// `high` meets it, the number of samples that meet it lies beyond `low` and
/// not beyond `high`.
proof fn lemma_exchange_crosses_split(
    index: Seq<usize>,
    feature: Seq<u16>,
    wanted: spec_fn(u16) -> bool,
    low: int,
    high: int,
)
    requires
        0 <= low < high < index.len(),
        forall|i: int| 0 <= i < low ==> wanted(#[trigger] code_at(index, feature, i)),
        forall|i: int| high < i < index.len() ==> !wanted(#[trigger] code_at(index, feature, i)),
        !wanted(code_at(index, feature, low)),
        wanted(code_at(index, feature, high)),
    ensures
        low < count_codes(index, feature, wanted) <= high,
{
    // The samples before `low` count in full, and the one at `high` counts.
    let head = index.take(low);
    let tail = index.skip(low);
    lemma_count_codes_split(index, feature, wanted, low);
    assert(split_by(head, feature, wanted, low)) by {
        assert forall|i: int| 0 <= i < low implies wanted(#[trigger] code_at(head, feature, i)) by {
            assert(code_at(head, feature, i) == code_at(index, feature, i));
        }
    }
    lemma_split_point_counts(head, feature, wanted, low);
    assert(tail[high - low] == index[high]);
    lemma_count_codes_remove(tail, feature, wanted, high - low);
    // The samples after `high` do not count, and the one at `low` does not.
    let front = index.take(high + 1);
    let back = index.skip(high + 1);
    lemma_count_codes_split(index, feature, wanted, high + 1);
    assert(split_by(back, feature, wanted, 0)) by {
        assert forall|i: int| 0 <= i < back.len() implies !wanted(
            #[trigger] code_at(back, feature, i),
        ) by {
            assert(code_at(back, feature, i) == code_at(index, feature, i + high + 1));
        }
    }
    lemma_split_point_counts(back, feature, wanted, 0);
    assert(front[low] == index[low]);
    lemma_count_codes_remove(front, feature, wanted, low);
    lemma_count_codes_bound(front.remove(low), feature, wanted);
}

/// The samples before and after a position count separately.
proof fn lemma_count_codes_split(
    index: Seq<usize>,
    feature: Seq<u16>,
    wanted: spec_fn(u16) -> bool,
    k: int,
)
    requires
        0 <= k <= index.len(),
    ensures
        count_codes(index, feature, wanted) == count_codes(index.take(k), feature, wanted)
            + count_codes(index.skip(k), feature, wanted),
    decreases index.len(),
{
    if k == index.len() {
        assert(index.take(k) =~= index);
        assert(index.skip(k) =~= Seq::<usize>::empty());
    } else {
        let rest = index.drop_last();
        lemma_count_codes_split(rest, feature, wanted, k);
        assert(rest.take(k) =~= index.take(k));
        assert(index.skip(k).drop_last() =~= rest.skip(k));
        assert(index.skip(k).last() == index.last());
    }
}

/// No more samples meet `wanted` than there are.
proof fn lemma_count_codes_bound(
    index: Seq<usize>,
    feature: Seq<u16>,
    wanted: spec_fn(u16) -> bool,
)
    ensures
        count_codes(index, feature, wanted) <= index.len(),
    decreases index.len(),
{
    if index.len() > 0 {
        lemma_count_codes_bound(index.drop_last(), feature, wanted);
    }
}

/// One when the sample at `low` has a bin code of at least the split value.
spec fn stopped_at(index: Seq<usize>, feature: Seq<u16>, split_value: u16, low: int) -> nat {
    if code_at(index, feature, low) >= split_value {
        1
    } else {
        0
    }
}

/// A sample with a value that stands before one whose value is missing shows
/// that the index array is not in three runs.
proof fn lemma_late_missing_not_in_runs(
    index: Seq<usize>,
    feature: Seq<u16>,
    split_value: u16,
    a: int,
    b: int,
)
    requires
        0 <= a < b < index.len(),
        code_at(index, feature, a) != MISSING,
        code_at(index, feature, b) == MISSING,
    ensures
        !in_three_runs(index, feature, split_value),
{
    assert forall|low: int, missing: int| !three_runs(index, feature, split_value, low, missing) by {
        if three_runs(index, feature, split_value, low, missing) {
            if a < missing {
                assert(code_at(index, feature, a) == MISSING);
            } else {
                assert(code_at(index, feature, b) != MISSING);
            }
        }
    }
}

/// A sample at or above the split value that stands before one below it shows
/// that the index array is not in three runs.
proof fn lemma_late_low_not_in_runs(
    index: Seq<usize>,
    feature: Seq<u16>,
    split_value: u16,
    a: int,
    b: int,
)
    requires
        0 <= a < b < index.len(),
        code_at(index, feature, a) >= split_value,
        code_at(index, feature, b) < split_value,
        split_value != MISSING,
    ensures
        !in_three_runs(index, feature, split_value),
{
    assert forall|low: int, missing: int| !three_runs(index, feature, split_value, low, missing) by {
        if three_runs(index, feature, split_value, low, missing) {
            if a < missing {
                assert(code_at(index, feature, a) == MISSING);
            } else if a < low {
                assert(code_at(index, feature, a) < split_value);
            } else {
                assert(code_at(index, feature, b) >= split_value);
            }
        }
    }
}

/// What the bin codes are after two entries have been exchanged.
proof fn lemma_codes_after_swap(index: Seq<usize>, feature: Seq<u16>, a: int, b: int)
    requires
        0 <= a < index.len(),
        0 <= b < index.len(),
        valid_index(index, feature),
    ensures
        valid_index(swapped(index, a, b), feature),
        swapped(index, a, b).len() == index.len(),
        a == b ==> swapped(index, a, b) == index,
        forall|i: int|
            0 <= i < index.len() ==> #[trigger] code_at(swapped(index, a, b), feature, i) == (if i
                == a {
                code_at(index, feature, b)
            } else if i == b {
                code_at(index, feature, a)
            } else {
                code_at(index, feature, i)
            }),
{
    if a == b {
        assert(swapped(index, a, b) =~= index);
    }
    assert forall|i: int| 0 <= i < index.len() implies #[trigger] swapped(index, a, b)[i]
        < feature.len() by {
        assert(index[a] < feature.len());
        assert(index[b] < feature.len());
        assert(index[i] < feature.len());
    }
}

/// Reorders `index` in place into three runs and returns `(low, missing)`: the
/// samples whose value is missing come first and end at `missing`, the samples
/// with a bin code below `split_value` follow and end at `low`, and the samples
/// with a bin code of at least `split_value` fill the rest.
///
/// The caller can then weigh both routings of the missing samples from one
/// physical arrangement. The split value is a real bin code, never [`MISSING`].
/// No sample is dropped or duplicated, both points are counts of samples and so
/// do not depend on the order in which the samples arrive, and an array that
/// already stands in three runs is left as it is.
///
/// A slice in which every sample is missing is no exception: the walk looks at
/// each of its samples, the last one too, so the prefix is the whole slice and
/// both points equal its length. An empty slice gives `(0, 0)`.
#[inline]
pub fn pivot_on_split_exclude_missing(
    index: &mut [usize],
    feature: &[u16],
    split_value: u16,
) -> (points: (usize, usize))
    requires
        valid_index(old(index)@, feature@),
        split_value != MISSING,
    ensures
        final(index)@.to_multiset() == old(index)@.to_multiset(),
        three_runs(final(index)@, feature@, split_value, points.0 as int, points.1 as int),
        points.0 == count_below(old(index)@, feature@, split_value),
        points.1 == count_missing(old(index)@, feature@),
        all_missing(old(index)@, feature@) ==> points.0 == old(index)@.len() && points.1 == old(
            index,
        )@.len(),
        in_three_runs(old(index)@, feature@, split_value) ==> final(index)@ == old(index)@,
{
    let n = index.len();
    if n == 0 {
        proof {
            lemma_split_point_counts(index@, feature@, codes_below(split_value), 0);
            lemma_split_point_counts(index@, feature@, missing_codes(), 0);
        }
        return (0, 0);
    }
    let mut low: usize = 0;
    let mut high: usize = n - 1;
    // The position of the first sample that is not missing.
    let mut missing: usize = 0;
    let max_idx: usize = high;
    while low < high
        invariant
            index@.len() == n,
            max_idx + 1 == n,
            split_value != MISSING,
            missing <= low <= high <= max_idx,
            valid_index(index@, feature@),
            index@.to_multiset() == old(index)@.to_multiset(),
            three_runs(index@.take(low as int), feature@, split_value, low as int, missing as int),
            forall|i: int| high < i < n ==> #[trigger] code_at(index@, feature@, i) >= split_value,
            high == max_idx || code_at(index@, feature@, high as int) >= split_value || code_at(
                index@,
                feature@,
                low as int,
            ) >= split_value,
            index@ == old(index)@ || !in_three_runs(old(index)@, feature@, split_value),
        decreases high - low, stopped_at(index@, feature@, split_value, low as int),
    {
        let ghost low_before = low;
        let ghost high_before = high;
        let ghost index_before = index@;
        // Walk up from the low end, moving each missing sample into the prefix,
        // until a sample at or above the split value stops the walk.
        while low < max_idx
            invariant
                index@.len() == n,
                max_idx + 1 == n,
                split_value != MISSING,
                low_before <= low,
                missing <= low <= high <= max_idx,
                valid_index(index@, feature@),
                index@.to_multiset() == old(index)@.to_multiset(),
                three_runs(
                    index@.take(low as int),
                    feature@,
                    split_value,
                    low as int,
                    missing as int,
                ),
                forall|i: int|
                    high < i < n ==> #[trigger] code_at(index@, feature@, i) >= split_value,
                high == max_idx || code_at(index@, feature@, high as int) >= split_value
                    || code_at(index@, feature@, low as int) >= split_value,
                index@ == old(index)@ || !in_three_runs(old(index)@, feature@, split_value),
                low == low_before ==> index@ == index_before,
            ensures
                low == max_idx || code_at(index@, feature@, low as int) >= split_value,
            decreases max_idx - low,
        {
            let l = feature[index[low]];
            if l == MISSING {
                proof {
                    lemma_codes_after_swap(index@, feature@, missing as int, low as int);
                    if missing < low && index@ == old(index)@ {
                        assert(code_at(index@.take(low as int), feature@, missing as int)
                            == code_at(index@, feature@, missing as int));
                        lemma_late_missing_not_in_runs(
                            index@,
                            feature@,
                            split_value,
                            missing as int,
                            low as int,
                        );
                    }
                }
                let ghost before = index@;
                swap_entries(index, missing, low);
                missing += 1;
                proof {
                    lemma_runs_grow_by_missing(
                        before,
                        feature@,
                        split_value,
                        low as int,
                        missing as int - 1,
                    );
                }
            }
            if split_value <= l {
                break ;
            }
            proof {
                if l != MISSING {
                    lemma_runs_grow_by_low(
                        index@,
                        feature@,
                        split_value,
                        low as int,
                        missing as int,
                    );
                }
            }
            low += 1;
        }
        // Walk down from the high end over the samples at or above the split
        // value. A missing sample found there goes into the prefix; what it
        // displaces takes its place and is settled by the exchange below.
        while high > low
            invariant_except_break
                low == max_idx || code_at(index@, feature@, low as int) >= split_value,
                low == low_before ==> index@ == index_before,
            invariant
                index@.len() == n,
                max_idx + 1 == n,
                split_value != MISSING,
                low_before <= low,
                high <= high_before,
                missing <= low <= high <= max_idx,
                valid_index(index@, feature@),
                index@.to_multiset() == old(index)@.to_multiset(),
                three_runs(
                    index@.take(low as int),
                    feature@,
                    split_value,
                    low as int,
                    missing as int,
                ),
                forall|i: int|
                    high < i < n ==> #[trigger] code_at(index@, feature@, i) >= split_value,
                index@ == old(index)@ || !in_three_runs(old(index)@, feature@, split_value),
            ensures
                low == high ==> low == max_idx || code_at(index@, feature@, low as int)
                    >= split_value,
                low < high ==> {
                    ||| {
                        &&& code_at(index@, feature@, low as int) >= split_value
                        &&& code_at(index@, feature@, high as int) < split_value
                        &&& low == low_before && high == high_before ==> code_at(
                            index_before,
                            feature@,
                            low as int,
                        ) >= split_value
                    }
                    ||| {
                        &&& code_at(index@, feature@, high as int) >= split_value
                        &&& low > low_before
                        &&& !in_three_runs(old(index)@, feature@, split_value)
                    }
                },
            decreases high,
        {
            let h = feature[index[high]];
            if h == MISSING {
                proof {
                    lemma_codes_after_swap(index@, feature@, missing as int, high as int);
                    if index@ == old(index)@ {
                        if missing < low {
                            assert(code_at(index@.take(low as int), feature@, missing as int)
                                == code_at(index@, feature@, missing as int));
                        }
                        lemma_late_missing_not_in_runs(
                            index@,
                            feature@,
                            split_value,
                            missing as int,
                            high as int,
                        );
                    }
                }
                let ghost before = index@;
                swap_entries(index, missing, high);
                missing += 1;
                proof {
                    lemma_runs_take_missing(
                        before,
                        feature@,
                        split_value,
                        low as int,
                        missing as int - 1,
                        high as int,
                    );
                }
                // The low cursor never stands inside the prefix.
                if missing > low {
                    low = missing;
                }
            }
            if split_value <= h {
                high -= 1;
            } else {
                break ;
            }
        }
        if low < high {
            proof {
                lemma_codes_after_swap(index@, feature@, high as int, low as int);
                if index@ == old(index)@ && code_at(index@, feature@, high as int) < split_value {
                    lemma_late_low_not_in_runs(
                        index@,
                        feature@,
                        split_value,
                        low as int,
                        high as int,
                    );
                }
            }
            let ghost before = index@;
            swap_entries(index, high, low);
            proof {
                assert(index@.take(low as int) =~= before.take(low as int));
            }
        }
    }
    // The cursors have met on one sample, which the walks may not have looked at.
    let last = feature[index[low]];
    if last == MISSING {
        proof {
            lemma_codes_after_swap(index@, feature@, missing as int, low as int);
            if missing < low && index@ == old(index)@ {
                assert(code_at(index@.take(low as int), feature@, missing as int) == code_at(
                    index@,
                    feature@,
                    missing as int,
                ));
                lemma_late_missing_not_in_runs(
                    index@,
                    feature@,
                    split_value,
                    missing as int,
                    low as int,
                );
            }
        }
        let ghost before = index@;
        swap_entries(index, missing, low);
        missing += 1;
        proof {
            lemma_runs_grow_by_missing(
                before,
                feature@,
                split_value,
                low as int,
                missing as int - 1,
            );
        }
        low += 1;
    } else if last < split_value {
        proof {
            lemma_runs_grow_by_low(index@, feature@, split_value, low as int, missing as int);
        }
        low += 1;
    }
    proof {
        lemma_runs_of_prefix(index@, feature@, split_value, low as int, missing as int);
        lemma_three_runs_count(index@, feature@, split_value, low as int, missing as int);
        lemma_count_codes_permutation(index@, old(index)@, feature@, codes_below(split_value));
        lemma_count_codes_permutation(index@, old(index)@, feature@, missing_codes());
        if all_missing(old(index)@, feature@) {
            lemma_split_point_counts(old(index)@, feature@, missing_codes(), n as int);
        }
    }
    (low, missing)
}

/// The first `low` samples stand in runs that end at `missing` and `low`, and
/// the sample at `low` is missing: once it has changed places with the sample
/// at `missing`, the first `low + 1` samples stand in runs that end at
/// `missing + 1` and `low + 1`.
proof fn lemma_runs_grow_by_missing(
    index: Seq<usize>,
    feature: Seq<u16>,
    split_value: u16,
    low: int,
    missing: int,
)
    requires
        0 <= missing <= low < index.len(),
        valid_index(index, feature),
        split_value != MISSING,
        three_runs(index.take(low), feature, split_value, low, missing),
        code_at(index, feature, low) == MISSING,
    ensures
        three_runs(
            swapped(index, missing, low).take(low + 1),
            feature,
            split_value,
            low + 1,
            missing + 1,
        ),
{
    let after = swapped(index, missing, low);
    lemma_codes_after_swap(index, feature, missing, low);
    assert forall|i: int| 0 <= i < low + 1 implies #[trigger] code_at(
        after.take(low + 1),
        feature,
        i,
    ) == code_at(after, feature, i) by {}
    assert forall|i: int| 0 <= i < low implies #[trigger] code_at(index.take(low), feature, i)
        == code_at(index, feature, i) by {}
    assert forall|i: int| 0 <= i < missing + 1 implies #[trigger] code_at(
        after.take(low + 1),
        feature,
        i,
    ) == MISSING by {
        assert(code_at(after, feature, i) == code_at(after.take(low + 1), feature, i));
        if i < missing {
            assert(code_at(index.take(low), feature, i) == MISSING);
        }
    }
    assert forall|i: int| missing + 1 <= i < low + 1 implies {
        &&& #[trigger] code_at(after.take(low + 1), feature, i) != MISSING
        &&& code_at(after.take(low + 1), feature, i) < split_value
    } by {
        assert(code_at(after, feature, i) == code_at(after.take(low + 1), feature, i));
        if i < low {
            assert(code_at(index.take(low), feature, i) != MISSING);
        } else {
            assert(code_at(index.take(low), feature, missing) != MISSING);
        }
    }
}

/// The first `low` samples stand in runs that end at `missing` and `low`, and
/// the sample at `low` has a value below the split value: the first `low + 1`
/// samples stand in runs that end at `missing` and `low + 1`.
proof fn lemma_runs_grow_by_low(
    index: Seq<usize>,
    feature: Seq<u16>,
    split_value: u16,
    low: int,
    missing: int,
)
    requires
        0 <= missing <= low < index.len(),
        three_runs(index.take(low), feature, split_value, low, missing),
        code_at(index, feature, low) != MISSING,
        code_at(index, feature, low) < split_value,
    ensures
        three_runs(index.take(low + 1), feature, split_value, low + 1, missing),
{
    assert forall|i: int| 0 <= i < low implies #[trigger] code_at(index.take(low + 1), feature, i)
        == code_at(index.take(low), feature, i) by {}
    assert(code_at(index.take(low + 1), feature, low) == code_at(index, feature, low));
    assert forall|i: int| 0 <= i < missing implies #[trigger] code_at(
        index.take(low + 1),
        feature,
        i,
    ) == MISSING by {
        assert(code_at(index.take(low), feature, i) == MISSING);
    }
    assert forall|i: int| missing <= i < low + 1 implies {
        &&& #[trigger] code_at(index.take(low + 1), feature, i) != MISSING
        &&& code_at(index.take(low + 1), feature, i) < split_value
    } by {
        if i < low {
            assert(code_at(index.take(low), feature, i) != MISSING);
        }
    }
}

/// The first `low` samples stand in runs that end at `missing` and `low`, and a
/// sample further up, at `high`, is missing: once it has changed places with
/// the sample at `missing`, the prefix is one longer. If the middle run was
/// empty, the low cursor moves up with it.
proof fn lemma_runs_take_missing(
    index: Seq<usize>,
    feature: Seq<u16>,
    split_value: u16,
    low: int,
    missing: int,
    high: int,
)
    requires
        0 <= missing <= low < high < index.len(),
        valid_index(index, feature),
        split_value != MISSING,
        three_runs(index.take(low), feature, split_value, low, missing),
        code_at(index, feature, high) == MISSING,
    ensures
        missing < low ==> three_runs(
            swapped(index, missing, high).take(low),
            feature,
            split_value,
            low,
            missing + 1,
        ),
        missing == low ==> three_runs(
            swapped(index, missing, high).take(low + 1),
            feature,
            split_value,
            low + 1,
            missing + 1,
        ),
        code_at(swapped(index, missing, high), feature, high) == code_at(index, feature, missing),
        missing < low ==> code_at(swapped(index, missing, high), feature, high) < split_value,
{
    let after = swapped(index, missing, high);
    lemma_codes_after_swap(index, feature, missing, high);
    assert forall|i: int| 0 <= i < low implies #[trigger] code_at(index.take(low), feature, i)
        == code_at(index, feature, i) by {}
    if missing < low {
        assert(code_at(index.take(low), feature, missing) < split_value);
        assert forall|i: int| 0 <= i < low implies #[trigger] code_at(after.take(low), feature, i)
            == code_at(after, feature, i) by {}
        assert forall|i: int| 0 <= i < missing + 1 implies #[trigger] code_at(
            after.take(low),
            feature,
            i,
        ) == MISSING by {
            assert(code_at(after, feature, i) == code_at(after.take(low), feature, i));
            if i < missing {
                assert(code_at(index.take(low), feature, i) == MISSING);
            }
        }
        assert forall|i: int| missing + 1 <= i < low implies {
            &&& #[trigger] code_at(after.take(low), feature, i) != MISSING
            &&& code_at(after.take(low), feature, i) < split_value
        } by {
            assert(code_at(after, feature, i) == code_at(after.take(low), feature, i));
            assert(code_at(index.take(low), feature, i) != MISSING);
        }
    } else {
        assert forall|i: int| 0 <= i < low + 1 implies #[trigger] code_at(
            after.take(low + 1),
            feature,
            i,
        ) == MISSING by {
            assert(code_at(after, feature, i) == code_at(after.take(low + 1), feature, i));
            if i < missing {
                assert(code_at(index.take(low), feature, i) == MISSING);
            }
        }
    }
}

/// Runs that hold of the first `low` samples, with every later sample at or
/// above the split value, hold of the whole index array.
proof fn lemma_runs_of_prefix(
    index: Seq<usize>,
    feature: Seq<u16>,
    split_value: u16,
    low: int,
    missing: int,
)
    requires
        0 <= low <= index.len(),
        split_value != MISSING,
        three_runs(index.take(low), feature, split_value, low, missing),
        forall|i: int|
            low <= i < index.len() ==> #[trigger] code_at(index, feature, i) >= split_value,
    ensures
        three_runs(index, feature, split_value, low, missing),
{
    assert forall|i: int| 0 <= i < low implies #[trigger] code_at(index, feature, i) == code_at(
        index.take(low),
        feature,
        i,
    ) by {}
    assert forall|i: int| 0 <= i < missing implies #[trigger] code_at(index, feature, i)
        == MISSING by {
        assert(code_at(index.take(low), feature, i) == MISSING);
    }
    assert forall|i: int| missing <= i < low implies {
        &&& #[trigger] code_at(index, feature, i) != MISSING
        &&& code_at(index, feature, i) < split_value
    } by {
        assert(code_at(index.take(low), feature, i) != MISSING);
    }
}

/// In an index array that stands in three runs, the first point is the number
/// of samples with a bin code below the split value and the second the number
/// of samples with a missing value.
pub proof fn lemma_three_runs_count(
    index: Seq<usize>,
    feature: Seq<u16>,
    split_value: u16,
    low: int,
    missing: int,
)
    requires
        split_value != MISSING,
        three_runs(index, feature, split_value, low, missing),
    ensures
        low == count_below(index, feature, split_value),
        missing == count_missing(index, feature),
{
    assert(split_by(index, feature, codes_below(split_value), low)) by {
        assert forall|i: int| 0 <= i < low implies codes_below(split_value)(
            #[trigger] code_at(index, feature, i),
        ) by {
            if i < missing {
                assert(code_at(index, feature, i) == MISSING);
            }
        }
    }
    assert(split_by(index, feature, missing_codes(), missing)) by {
        assert forall|i: int| missing <= i < index.len() implies !missing_codes()(
            #[trigger] code_at(index, feature, i),
        ) by {
            if i < low {
                assert(code_at(index, feature, i) != MISSING);
            }
        }
    }
    lemma_split_point_counts(index, feature, codes_below(split_value), low);
    lemma_split_point_counts(index, feature, missing_codes(), missing);
}

/// Where the samples that meet `wanted` stand first, the point at which the
/// others begin is the number of samples that meet it.
pub proof fn lemma_split_point_counts(
    index: Seq<usize>,
    feature: Seq<u16>,
    wanted: spec_fn(u16) -> bool,
    s: int,
)
    requires
        split_by(index, feature, wanted, s),
    ensures
        s == count_codes(index, feature, wanted),
    decreases index.len(),
{
    if index.len() > 0 {
        let last = index.len() - 1;
        let rest = index.drop_last();
        assert(code_at(index, feature, last) == feature[index.last() as int]);
        let t = if s == index.len() {
            s - 1
        } else {
            s
        };
        assert(split_by(rest, feature, wanted, t)) by {
            assert forall|i: int| 0 <= i < t implies wanted(
                #[trigger] code_at(rest, feature, i),
            ) by {
                assert(code_at(rest, feature, i) == code_at(index, feature, i));
            }
            assert forall|i: int| t <= i < rest.len() implies !wanted(
                #[trigger] code_at(rest, feature, i),
            ) by {
                assert(code_at(rest, feature, i) == code_at(index, feature, i));
            }
        }
        lemma_split_point_counts(rest, feature, wanted, t);
    }
}

/// Taking one sample out of the index array lowers the count by one if that
/// sample's bin code meets `wanted`, and leaves it otherwise.
proof fn lemma_count_codes_remove(
    index: Seq<usize>,
    feature: Seq<u16>,
    wanted: spec_fn(u16) -> bool,
    j: int,
)
    requires
        0 <= j < index.len(),
    ensures
        count_codes(index, feature, wanted) == count_codes(index.remove(j), feature, wanted)
            + if wanted(feature[index[j] as int]) {
            1nat
        } else {
            0nat
        },
    decreases index.len(),
{
    if j == index.len() - 1 {
        assert(index.remove(j) =~= index.drop_last());
    } else {
        lemma_count_codes_remove(index.drop_last(), feature, wanted, j);
        assert(index.drop_last().remove(j) =~= index.remove(j).drop_last());
        assert(index.remove(j).last() == index.last());
    }
}

/// A count of samples by bin code depends on which samples the index array
/// holds, not on their order.
pub proof fn lemma_count_codes_permutation(
    a: Seq<usize>,
    b: Seq<usize>,
    feature: Seq<u16>,
    wanted: spec_fn(u16) -> bool,
)
    requires
        a.to_multiset() == b.to_multiset(),
    ensures
        count_codes(a, feature, wanted) == count_codes(b, feature, wanted),
    decreases a.len(),
{
    vstd::seq_lib::to_multiset_len(a);
    vstd::seq_lib::to_multiset_len(b);
    if a.len() > 0 {
        let x = a.last();
        vstd::seq_lib::to_multiset_contains(a, x);
        vstd::seq_lib::to_multiset_contains(b, x);
        assert(a[a.len() - 1] == x);
        let j = choose|j: int| 0 <= j < b.len() && b[j] == x;
        assert(a.remove(a.len() - 1) =~= a.drop_last());
        vstd::seq_lib::to_multiset_remove(a, a.len() - 1);
        vstd::seq_lib::to_multiset_remove(b, j);
        lemma_count_codes_permutation(a.drop_last(), b.remove(j), feature, wanted);
        lemma_count_codes_remove(b, feature, wanted, j);
    }
}

/// The split point is stable: however the same samples are arranged, an index
/// array that is split on a feature is split at the same point. Partitioning
/// again, or partitioning the reversed array, therefore returns the point that
/// the first run returned.
pub proof fn lemma_split_point_stable(
    a: Seq<usize>,
    b: Seq<usize>,
    feature: Seq<u16>,
    split_value: u16,
    missing_right: bool,
    s: int,
    t: int,
)
    requires
        a.to_multiset() == b.to_multiset(),
        partitioned_at(a, feature, split_value, missing_right, s),
        partitioned_at(b, feature, split_value, missing_right, t),
    ensures
        s == t,
{
    let wanted = left_codes(split_value, missing_right);
    lemma_split_point_counts(a, feature, wanted, s);
    lemma_split_point_counts(b, feature, wanted, t);
    lemma_count_codes_permutation(a, b, feature, wanted);
}

/// The two points are stable: however the same samples are arranged, an index
/// array that stands in three runs does so at the same pair of points.
pub proof fn lemma_three_runs_stable(
    a: Seq<usize>,
    b: Seq<usize>,
    feature: Seq<u16>,
    split_value: u16,
    low_a: int,
    missing_a: int,
    low_b: int,
    missing_b: int,
)
    requires
        split_value != MISSING,
        a.to_multiset() == b.to_multiset(),
        three_runs(a, feature, split_value, low_a, missing_a),
        three_runs(b, feature, split_value, low_b, missing_b),
    ensures
        low_a == low_b,
        missing_a == missing_b,
{
    lemma_three_runs_count(a, feature, split_value, low_a, missing_a);
    lemma_three_runs_count(b, feature, split_value, low_b, missing_b);
    lemma_count_codes_permutation(a, b, feature, codes_below(split_value));
    lemma_count_codes_permutation(a, b, feature, missing_codes());
}

/// Where every bin code meets `either` exactly when it meets one of `first`
/// and `second`, and none meets both, the samples that meet `either` are as
/// many as those that meet `first` and those that meet `second` together.
proof fn lemma_count_codes_sum(
    index: Seq<usize>,
    feature: Seq<u16>,
    first: spec_fn(u16) -> bool,
    second: spec_fn(u16) -> bool,
    either: spec_fn(u16) -> bool,
)
    requires
        forall|code: u16| #[trigger] either(code) <==> first(code) || second(code),
        forall|code: u16| !(#[trigger] first(code) && second(code)),
    ensures
        count_codes(index, feature, either) == count_codes(index, feature, first) + count_codes(
            index,
            feature,
            second,
        ),
    decreases index.len(),
{
    if index.len() > 0 {
        lemma_count_codes_sum(index.drop_last(), feature, first, second, either);
        let code = feature[index.last() as int];
        assert(either(code) <==> first(code) || second(code));
        assert(!(first(code) && second(code)));
    }
}

/// An index array in three runs serves both routings of the missing samples.
/// With the missing samples routed left it is split at `low`, the end of the
/// second run. With the missing samples routed right the samples that go left
/// are the second run alone, `low - missing` in number.
pub proof fn lemma_three_runs_serve_both_routings(
    index: Seq<usize>,
    feature: Seq<u16>,
    split_value: u16,
    low: int,
    missing: int,
)
    requires
        split_value != MISSING,
        three_runs(index, feature, split_value, low, missing),
    ensures
        partitioned_at(index, feature, split_value, false, low),
        count_left(index, feature, split_value, false) == low,
        count_left(index, feature, split_value, true) == low - missing,
        forall|i: int|
            0 <= i < index.len() ==> (routes_left(
                split_value,
                #[trigger] code_at(index, feature, i),
                true,
            ) <==> missing <= i < low),
{
    assert(partitioned_at(index, feature, split_value, false, low)) by {
        assert forall|i: int| 0 <= i < low implies routes_left(
            split_value,
            #[trigger] code_at(index, feature, i),
            false,
        ) by {
            if i < missing {
                assert(code_at(index, feature, i) == MISSING);
            } else {
                assert(code_at(index, feature, i) < split_value);
            }
        }
        assert forall|i: int| low <= i < index.len() implies !routes_left(
            split_value,
            #[trigger] code_at(index, feature, i),
            false,
        ) by {
            assert(code_at(index, feature, i) >= split_value);
        }
    }
    lemma_split_point_counts(index, feature, left_codes(split_value, false), low);
    lemma_three_runs_count(index, feature, split_value, low, missing);
    lemma_count_codes_sum(
        index,
        feature,
        left_codes(split_value, true),
        missing_codes(),
        codes_below(split_value),
    );
    assert forall|i: int| 0 <= i < index.len() implies (routes_left(
        split_value,
        #[trigger] code_at(index, feature, i),
        true,
    ) <==> missing <= i < low) by {
        if i < missing {
            assert(code_at(index, feature, i) == MISSING);
        } else if i < low {
            assert(code_at(index, feature, i) < split_value);
        } else {
            assert(code_at(index, feature, i) >= split_value);
        }
    }
}

} // verus!
