//! Summation of a sequence of numbers: in order, and in lanes.
//!
//! The sum in lanes keeps sixteen running totals, one for each position within
//! a chunk of sixteen values, and folds them at the end. The totals do not
//! depend on each other, which leaves the processor free to overlap the
//! additions. For a number type that rounds, the order of the additions shows
//! in the result, so each sum is specified by the order in which it adds.

use crate::numeric::{
    constant_value, exact_add, exact_constants, may_add, sum_of, total_add, zero,
};
use core::ops::Add;
use vstd::prelude::*;
use vstd::std_specs::convert::FromSpec;

verus! {

/// The number of running totals that the sum in lanes keeps.
pub const LANES: usize = 16;

/// The sum of the values taken in order, starting from zero.
pub open spec fn naive_sum_spec<T: Add<Output = T> + From<u8>>(values: Seq<T>) -> T
    decreases values.len(),
{
    if values.len() == 0 {
        zero::<T>()
    } else {
        sum_of(naive_sum_spec(values.drop_last()), values.last())
    }
}

/// The running total of one lane after `chunks` chunks: the sum, in order and
/// starting from zero, of the values at position `lane` of each chunk.
pub open spec fn lane_total<T: Add<Output = T> + From<u8>>(
    values: Seq<T>,
    lane: int,
    chunks: nat,
) -> T
    decreases chunks,
{
    if chunks == 0 {
        zero::<T>()
    } else {
        sum_of(lane_total(values, lane, (chunks - 1) as nat), values[(chunks - 1) * LANES + lane])
    }
}

/// The first `lanes` running totals after `chunks` chunks, added up in order
/// and starting from zero.
pub open spec fn lanes_folded<T: Add<Output = T> + From<u8>>(
    values: Seq<T>,
    chunks: nat,
    lanes: nat,
) -> T
    decreases lanes,
{
    if lanes == 0 {
        zero::<T>()
    } else {
        sum_of(
            lanes_folded(values, chunks, (lanes - 1) as nat),
            lane_total(values, lanes - 1, chunks),
        )
    }
}

/// The values that are left over after the last whole chunk.
pub open spec fn remainder<T>(values: Seq<T>) -> Seq<T> {
    values.subrange((values.len() / LANES as nat) * LANES, values.len() as int)
}

/// The sum in lanes: the running totals of all whole chunks folded together,
/// plus the sum in order of the values left over.
pub open spec fn fast_sum_spec<T: Add<Output = T> + From<u8>>(values: Seq<T>) -> T {
    sum_of(
        lanes_folded(values, values.len() / LANES as nat, LANES as nat),
        naive_sum_spec(remainder(values)),
    )
}

/// The arithmetic that a sum needs returns what its model says.
pub open spec fn exact_sums<T: Add<Output = T> + From<u8>>() -> bool {
    exact_add::<T>() && exact_constants::<T>()
}

/// Each addition that the sum in order makes may be made.
pub open spec fn naive_sum_defined<T: Add<Output = T> + From<u8>>(values: Seq<T>) -> bool
    decreases values.len(),
{
    values.len() == 0 || {
        &&& naive_sum_defined(values.drop_last())
        &&& may_add(naive_sum_spec(values.drop_last()), values.last())
    }
}

/// Each addition that the sum in lanes makes may be made: of a value to the
/// running total of its lane, of a running total to the fold of those before
/// it, of the values left over among themselves, and of their sum to the fold.
pub open spec fn fast_sum_defined<T: Add<Output = T> + From<u8>>(values: Seq<T>) -> bool {
    let chunks = values.len() / LANES as nat;
    &&& forall|lane: int, chunk: nat|
        0 <= lane < LANES && chunk < chunks ==> may_add(
            #[trigger] lane_total(values, lane, chunk),
            values[chunk * LANES + lane],
        )
    &&& forall|lanes: nat|
        lanes < LANES ==> may_add(
            #[trigger] lanes_folded(values, chunks, lanes),
            lane_total(values, lanes as int, chunks),
        )
    &&& naive_sum_defined(remainder(values))
    &&& may_add(lanes_folded(values, chunks, LANES as nat), naive_sum_spec(remainder(values)))
}

/// The sum in order can be taken: addition is total on the number type, or it
/// is exact and each addition that the sum makes may be made.
pub open spec fn can_sum_in_order<T: Add<Output = T> + From<u8>>(values: Seq<T>) -> bool {
    total_add::<T>() || (exact_sums::<T>() && naive_sum_defined(values))
}

/// The sum in lanes can be taken: addition is total on the number type, or it
/// is exact and each addition that the sum makes may be made.
pub open spec fn can_sum_in_lanes<T: Add<Output = T> + From<u8>>(values: Seq<T>) -> bool {
    total_add::<T>() || (exact_sums::<T>() && fast_sum_defined(values))
}

/// Where each addition of a sum in order may be made, so may each addition of
/// the sum in order of the first `count` values.
proof fn lemma_naive_sum_defined_prefix<T: Add<Output = T> + From<u8>>(values: Seq<T>, count: int)
    requires
        naive_sum_defined(values),
        0 <= count <= values.len(),
    ensures
        naive_sum_defined(values.take(count)),
    decreases values.len(),
{
    if count == values.len() {
        assert(values.take(count) =~= values);
    } else {
        lemma_naive_sum_defined_prefix(values.drop_last(), count);
        assert(values.drop_last().take(count) =~= values.take(count));
    }
}

/// Adds up the values from position `from` up to position `to`, in order.
fn sum_in_order<T: Copy + Add<Output = T> + From<u8>>(values: &[T], from: usize, to: usize) -> (sum:
    T)
    requires
        from <= to <= values@.len(),
        can_sum_in_order(values@.subrange(from as int, to as int)),
    ensures
        exact_sums::<T>() ==> sum == naive_sum_spec(values@.subrange(from as int, to as int)),
{
    let mut sum: T = constant_value(0);
    let mut k: usize = from;
    while k < to
        invariant
            from <= k <= to <= values@.len(),
            can_sum_in_order(values@.subrange(from as int, to as int)),
            exact_sums::<T>() ==> sum == naive_sum_spec(values@.subrange(from as int, k as int)),
        decreases to - k,
    {
        proof {
            let whole = values@.subrange(from as int, to as int);
            let next = values@.subrange(from as int, k + 1);
            assert(next.drop_last() =~= values@.subrange(from as int, k as int));
            assert(whole.take(k + 1 - from) =~= next);
            if !total_add::<T>() {
                lemma_naive_sum_defined_prefix(whole, k + 1 - from);
            }
        }
        sum = sum + values[k];
        k += 1;
    }
    sum
}

/// Adds up the values in order: a plain fold, starting from zero.
///
/// It is the yardstick for the sum in lanes. An empty sequence sums to zero.
pub fn naive_sum<T: Copy + Add<Output = T> + From<u8>>(values: &[T]) -> (sum: T)
    requires
        can_sum_in_order(values@),
    ensures
        exact_sums::<T>() ==> sum == naive_sum_spec(values@),
{
    proof {
        assert(values@.subrange(0, values@.len() as int) =~= values@);
    }
    sum_in_order(values, 0, values.len())
}

/// Adds up the values in sixteen lanes.
///
/// The values are taken in chunks of [`LANES`]. Each position within a chunk
/// has a running total of its own, to which every chunk adds its value at that
/// position. At the end the running totals are added up in order, and the sum
/// in order of the values that fill no whole chunk is added to that. An empty
/// sequence sums to zero plus zero.
#[inline]
pub fn fast_sum<T: Copy + Add<Output = T> + From<u8>>(values: &[T]) -> (sum: T)
    requires
        can_sum_in_lanes(values@),
    ensures
        exact_sums::<T>() ==> sum == fast_sum_spec(values@),
{
    let n = values.len();
    let chunks = n / LANES;
    let start: T = constant_value(0);
    let mut totals: [T; LANES] = [start;LANES];
    let mut chunk: usize = 0;
    while chunk < chunks
        invariant
            can_sum_in_lanes(values@),
            n == values@.len(),
            chunks == n / LANES,
            chunk <= chunks,
            exact_sums::<T>() ==> forall|lane: int|
                0 <= lane < LANES ==> #[trigger] totals@[lane] == lane_total(
                    values@,
                    lane,
                    chunk as nat,
                ),
        decreases chunks - chunk,
    {
        let mut lane: usize = 0;
        while lane < LANES
            invariant
                can_sum_in_lanes(values@),
                n == values@.len(),
                chunks == n / LANES,
                chunk < chunks,
                lane <= LANES,
                exact_sums::<T>() ==> forall|j: int|
                    0 <= j < LANES ==> #[trigger] totals@[j] == lane_total(
                        values@,
                        j,
                        if j < lane {
                            (chunk + 1) as nat
                        } else {
                            chunk as nat
                        },
                    ),
            decreases LANES - lane,
        {
            totals[lane] = totals[lane] + values[chunk * LANES + lane];
            lane += 1;
        }
        chunk += 1;
    }
    proof {
        assert(values@.subrange(chunks * LANES, n as int) == remainder(values@));
    }
    let rest = sum_in_order(values, chunks * LANES, n);
    let mut reduced: T = constant_value(0);
    let mut lane: usize = 0;
    while lane < LANES
        invariant
            can_sum_in_lanes(values@),
            n == values@.len(),
            chunks == n / LANES,
            lane <= LANES,
            exact_sums::<T>() ==> forall|j: int|
                0 <= j < LANES ==> #[trigger] totals@[j] == lane_total(values@, j, chunks as nat),
            exact_sums::<T>() ==> reduced == lanes_folded(values@, chunks as nat, lane as nat),
        decreases LANES - lane,
    {
        reduced = reduced + totals[lane];
        lane += 1;
    }
    reduced + rest
}

/// What a narrow value becomes in the wider number type.
pub open spec fn widen<N, W: From<N>>(value: N) -> W {
    <W as FromSpec<N>>::from_spec(value)
}

/// The values as the wider number type holds them.
pub open spec fn widened<N, W: From<N>>(values: Seq<N>) -> Seq<W> {
    Seq::new(values.len(), |i: int| widen::<N, W>(values[i]))
}

/// Conversion to the wider number type returns what its model says.
pub open spec fn exact_widening<N, W: From<N>>() -> bool {
    <W as FromSpec<N>>::obeys_from_spec()
}

/// The widened sum in lanes can be taken: addition is total on the wider
/// number type, or that type and the conversion to it are exact and each
/// addition that the sum makes may be made.
pub open spec fn can_sum_widened<N, W: Add<Output = W> + From<u8> + From<N>>(
    values: Seq<N>,
) -> bool {
    total_add::<W>() || (exact_sums::<W>() && exact_widening::<N, W>() && fast_sum_defined(
        widened::<N, W>(values),
    ))
}

/// Adds up the values from position `from` up to position `to`, in order and in
/// the wider number type.
fn sum_in_order_widened<N: Copy, W: Copy + Add<Output = W> + From<u8> + From<N>>(
    values: &[N],
    from: usize,
    to: usize,
) -> (sum: W)
    requires
        from <= to <= values@.len(),
        total_add::<W>() || (exact_sums::<W>() && exact_widening::<N, W>() && naive_sum_defined(
            widened::<N, W>(values@).subrange(from as int, to as int),
        )),
    ensures
        exact_sums::<W>() && exact_widening::<N, W>() ==> sum == naive_sum_spec(
            widened::<N, W>(values@).subrange(from as int, to as int),
        ),
{
    let mut sum: W = constant_value(0);
    let mut k: usize = from;
    while k < to
        invariant
            from <= k <= to <= values@.len(),
            total_add::<W>() || (exact_sums::<W>() && exact_widening::<N, W>()
                && naive_sum_defined(widened::<N, W>(values@).subrange(from as int, to as int))),
            exact_sums::<W>() && exact_widening::<N, W>() ==> sum == naive_sum_spec(
                widened::<N, W>(values@).subrange(from as int, k as int),
            ),
        decreases to - k,
    {
        proof {
            let wide = widened::<N, W>(values@);
            let whole = wide.subrange(from as int, to as int);
            let next = wide.subrange(from as int, k + 1);
            assert(next.drop_last() =~= wide.subrange(from as int, k as int));
            assert(whole.take(k + 1 - from) =~= next);
            if !total_add::<W>() {
                lemma_naive_sum_defined_prefix(whole, k + 1 - from);
            }
        }
        let value: W = W::from(values[k]);
        sum = sum + value;
        k += 1;
    }
    sum
}

/// Adds up narrow values in sixteen lanes of a wider number type.
///
/// Each value is converted to the wider type before it is added, and the sum is
/// returned in the wider type, for the caller to narrow. The lanes are those of
/// [`fast_sum`]: the result is the sum in lanes of the converted values. Many
/// narrow values can be added up this way without the rounding that their own
/// type would bring into each step.
#[inline]
pub fn fast_sum_widened<N: Copy, W: Copy + Add<Output = W> + From<u8> + From<N>>(
    values: &[N],
) -> (sum: W)
    requires
        can_sum_widened::<N, W>(values@),
    ensures
        exact_sums::<W>() && exact_widening::<N, W>() ==> sum == fast_sum_spec(
            widened::<N, W>(values@),
        ),
{
    let n = values.len();
    let chunks = n / LANES;
    let start: W = constant_value(0);
    let mut totals: [W; LANES] = [start;LANES];
    let mut chunk: usize = 0;
    while chunk < chunks
        invariant
            can_sum_widened::<N, W>(values@),
            n == values@.len(),
            chunks == n / LANES,
            chunk <= chunks,
            exact_sums::<W>() && exact_widening::<N, W>() ==> forall|lane: int|
                0 <= lane < LANES ==> #[trigger] totals@[lane] == lane_total(
                    widened::<N, W>(values@),
                    lane,
                    chunk as nat,
                ),
        decreases chunks - chunk,
    {
        let mut lane: usize = 0;
        while lane < LANES
            invariant
                can_sum_widened::<N, W>(values@),
                n == values@.len(),
                chunks == n / LANES,
                chunk < chunks,
                lane <= LANES,
                exact_sums::<W>() && exact_widening::<N, W>() ==> forall|j: int|
                    0 <= j < LANES ==> #[trigger] totals@[j] == lane_total(
                        widened::<N, W>(values@),
                        j,
                        if j < lane {
                            (chunk + 1) as nat
                        } else {
                            chunk as nat
                        },
                    ),
            decreases LANES - lane,
        {
            let value: W = W::from(values[chunk * LANES + lane]);
            totals[lane] = totals[lane] + value;
            lane += 1;
        }
        chunk += 1;
    }
    proof {
        let wide = widened::<N, W>(values@);
        assert(wide.subrange(chunks * LANES, n as int) == remainder(wide));
    }
    let rest: W = sum_in_order_widened(values, chunks * LANES, n);
    let mut reduced: W = constant_value(0);
    let mut lane: usize = 0;
    while lane < LANES
        invariant
            can_sum_widened::<N, W>(values@),
            n == values@.len(),
            chunks == n / LANES,
            lane <= LANES,
            exact_sums::<W>() && exact_widening::<N, W>() ==> forall|j: int|
                0 <= j < LANES ==> #[trigger] totals@[j] == lane_total(
                    widened::<N, W>(values@),
                    j,
                    chunks as nat,
                ),
            exact_sums::<W>() && exact_widening::<N, W>() ==> reduced == lanes_folded(
                widened::<N, W>(values@),
                chunks as nat,
                lane as nat,
            ),
        decreases LANES - lane,
    {
        reduced = reduced + totals[lane];
        lane += 1;
    }
    reduced + rest
}

/// Addition on the number type does not depend on order or grouping, and zero
/// is neutral: the type is exact in the sense of arithmetic, as the integers
/// and the rationals are and as a type that rounds is not.
#[verifier::opaque]
pub open spec fn order_free_addition<T: Add<Output = T> + From<u8>>() -> bool {
    &&& forall|a: T, b: T| sum_of(a, b) == sum_of(b, a)
    &&& forall|a: T, b: T, c: T| sum_of(sum_of(a, b), c) == sum_of(a, sum_of(b, c))
    &&& forall|a: T| sum_of(a, zero::<T>()) == a
}

proof fn lemma_commute<T: Add<Output = T> + From<u8>>(a: T, b: T)
    requires
        order_free_addition::<T>(),
    ensures
        sum_of(a, b) == sum_of(b, a),
{
    reveal(order_free_addition);
}

proof fn lemma_regroup<T: Add<Output = T> + From<u8>>(a: T, b: T, c: T)
    requires
        order_free_addition::<T>(),
    ensures
        sum_of(sum_of(a, b), c) == sum_of(a, sum_of(b, c)),
{
    reveal(order_free_addition);
}

proof fn lemma_neutral<T: Add<Output = T> + From<u8>>(a: T)
    requires
        order_free_addition::<T>(),
    ensures
        sum_of(a, zero::<T>()) == a,
        sum_of(zero::<T>(), a) == a,
{
    reveal(order_free_addition);
}

/// Two sums of two may exchange their inner terms.
proof fn lemma_interchange<T: Add<Output = T> + From<u8>>(a: T, b: T, c: T, d: T)
    requires
        order_free_addition::<T>(),
    ensures
        sum_of(sum_of(a, b), sum_of(c, d)) == sum_of(sum_of(a, c), sum_of(b, d)),
{
    lemma_regroup(a, b, sum_of(c, d));
    lemma_regroup(b, c, d);
    lemma_commute(b, c);
    lemma_regroup(c, b, d);
    lemma_regroup(a, c, sum_of(b, d));
}

/// The sum in order of two sequences joined is the sum of their sums.
proof fn lemma_naive_sum_of_joined<T: Add<Output = T> + From<u8>>(a: Seq<T>, b: Seq<T>)
    requires
        order_free_addition::<T>(),
    ensures
        naive_sum_spec(a + b) == sum_of(naive_sum_spec(a), naive_sum_spec(b)),
    decreases b.len(),
{
    if b.len() == 0 {
        assert(a + b =~= a);
        lemma_neutral(naive_sum_spec(a));
    } else {
        assert((a + b).drop_last() =~= a + b.drop_last());
        lemma_naive_sum_of_joined(a, b.drop_last());
        lemma_regroup(naive_sum_spec(a), naive_sum_spec(b.drop_last()), b.last());
    }
}

/// Before the first chunk every running total is zero, and so is their fold.
proof fn lemma_lanes_folded_at_start<T: Add<Output = T> + From<u8>>(values: Seq<T>, lanes: nat)
    requires
        order_free_addition::<T>(),
    ensures
        lanes_folded(values, 0, lanes) == zero::<T>(),
    decreases lanes,
{
    if lanes > 0 {
        lemma_lanes_folded_at_start(values, (lanes - 1) as nat);
        lemma_neutral(zero::<T>());
    }
}

/// One more chunk adds to the fold of the first `lanes` running totals the sum
/// in order of the first `lanes` values of that chunk.
proof fn lemma_lanes_folded_step<T: Add<Output = T> + From<u8>>(
    values: Seq<T>,
    chunks: nat,
    lanes: nat,
)
    requires
        order_free_addition::<T>(),
        lanes <= LANES,
        (chunks + 1) * LANES <= values.len(),
    ensures
        lanes_folded(values, chunks + 1, lanes) == sum_of(
            lanes_folded(values, chunks, lanes),
            naive_sum_spec(values.subrange(chunks * LANES, chunks * LANES + lanes)),
        ),
    decreases lanes,
{
    let base = chunks * LANES;
    if lanes == 0 {
        assert(values.subrange(base, base + 0) =~= Seq::<T>::empty());
        lemma_neutral(zero::<T>());
    } else {
        let fewer = (lanes - 1) as nat;
        lemma_lanes_folded_step(values, chunks, fewer);
        let head = values.subrange(base, base + lanes);
        assert(head.drop_last() =~= values.subrange(base, base + fewer));
        assert(head.last() == values[base + fewer]);
        assert(lane_total(values, fewer as int, chunks + 1) == sum_of(
            lane_total(values, fewer as int, chunks),
            values[base + fewer],
        ));
        lemma_interchange(
            lanes_folded(values, chunks, fewer),
            naive_sum_spec(values.subrange(base, base + fewer)),
            lane_total(values, fewer as int, chunks),
            values[base + fewer],
        );
    }
}

/// The fold of all running totals after `chunks` chunks is the sum in order of
/// the values of those chunks.
proof fn lemma_lanes_folded_is_naive_sum<T: Add<Output = T> + From<u8>>(
    values: Seq<T>,
    chunks: nat,
)
    requires
        order_free_addition::<T>(),
        chunks * LANES <= values.len(),
    ensures
        lanes_folded(values, chunks, LANES as nat) == naive_sum_spec(
            values.subrange(0, chunks * LANES),
        ),
    decreases chunks,
{
    if chunks == 0 {
        lemma_lanes_folded_at_start(values, LANES as nat);
        assert(values.subrange(0, 0) =~= Seq::<T>::empty());
    } else {
        let fewer = (chunks - 1) as nat;
        lemma_lanes_folded_is_naive_sum(values, fewer);
        lemma_lanes_folded_step(values, fewer, LANES as nat);
        let done = values.subrange(0, fewer * LANES);
        let next = values.subrange(fewer * LANES, fewer * LANES + LANES);
        assert(done + next =~= values.subrange(0, chunks * LANES));
        lemma_naive_sum_of_joined(done, next);
    }
}

/// Where addition does not depend on order or grouping, the sum in lanes is the
/// sum in order.
pub proof fn lemma_fast_sum_is_naive_sum<T: Add<Output = T> + From<u8>>(values: Seq<T>)
    requires
        order_free_addition::<T>(),
    ensures
        fast_sum_spec(values) == naive_sum_spec(values),
{
    let chunks = values.len() / LANES as nat;
    assert(chunks * LANES <= values.len()) by {
        assert(values.len() == LANES * chunks + values.len() % LANES as nat);
    }
    lemma_lanes_folded_is_naive_sum(values, chunks);
    let whole = values.subrange(0, chunks * LANES);
    assert(whole + remainder(values) =~= values);
    lemma_naive_sum_of_joined(whole, remainder(values));
}

/// `measure` reads the numbers as integers and sums as sums: zero reads as 0, a
/// sum that may be formed reads as the sum of the readings, and no two numbers
/// read alike. An integer type is read so by its own values, within the bounds
/// in which its sums may be formed.
pub open spec fn reads_as_integers<T: Add<Output = T> + From<u8>>(
    measure: spec_fn(T) -> int,
) -> bool {
    &&& measure(zero::<T>()) == 0
    &&& forall|a: T, b: T|
        may_add(a, b) ==> measure(#[trigger] sum_of(a, b)) == measure(a) + measure(b)
    &&& forall|a: T, b: T| #[trigger] measure(a) == #[trigger] measure(b) ==> a == b
}

/// The readings of the values, added up.
pub open spec fn measured_total<T>(values: Seq<T>, measure: spec_fn(T) -> int) -> int
    decreases values.len(),
{
    if values.len() == 0 {
        0
    } else {
        measured_total(values.drop_last(), measure) + measure(values.last())
    }
}

/// The readings of the values at position `lane` of the first `chunks` chunks,
/// added up.
spec fn measured_lane<T>(
    values: Seq<T>,
    measure: spec_fn(T) -> int,
    lane: int,
    chunks: nat,
) -> int
    decreases chunks,
{
    if chunks == 0 {
        0
    } else {
        measured_lane(values, measure, lane, (chunks - 1) as nat) + measure(
            values[(chunks - 1) * LANES + lane],
        )
    }
}

/// The readings of the first `lanes` lanes of the first `chunks` chunks, added
/// up.
spec fn measured_lanes<T>(
    values: Seq<T>,
    measure: spec_fn(T) -> int,
    chunks: nat,
    lanes: nat,
) -> int
    decreases lanes,
{
    if lanes == 0 {
        0
    } else {
        measured_lanes(values, measure, chunks, (lanes - 1) as nat) + measured_lane(
            values,
            measure,
            lanes - 1,
            chunks,
        )
    }
}

/// The readings of two sequences joined add up to the two totals together.
proof fn lemma_measured_total_of_joined<T>(a: Seq<T>, b: Seq<T>, measure: spec_fn(T) -> int)
    ensures
        measured_total(a + b, measure) == measured_total(a, measure) + measured_total(b, measure),
    decreases b.len(),
{
    if b.len() == 0 {
        assert(a + b =~= a);
    } else {
        assert((a + b).drop_last() =~= a + b.drop_last());
        lemma_measured_total_of_joined(a, b.drop_last(), measure);
    }
}

/// One more chunk adds to the readings of the first `lanes` lanes the readings
/// of the first `lanes` values of that chunk.
proof fn lemma_measured_lanes_step<T>(
    values: Seq<T>,
    measure: spec_fn(T) -> int,
    chunks: nat,
    lanes: nat,
)
    requires
        lanes <= LANES,
        (chunks + 1) * LANES <= values.len(),
    ensures
        measured_lanes(values, measure, chunks + 1, lanes) == measured_lanes(
            values,
            measure,
            chunks,
            lanes,
        ) + measured_total(values.subrange(chunks * LANES, chunks * LANES + lanes), measure),
    decreases lanes,
{
    let base = chunks * LANES;
    if lanes == 0 {
        assert(values.subrange(base, base + 0) =~= Seq::<T>::empty());
    } else {
        let fewer = (lanes - 1) as nat;
        lemma_measured_lanes_step(values, measure, chunks, fewer);
        let head = values.subrange(base, base + lanes);
        assert(head.drop_last() =~= values.subrange(base, base + fewer));
        assert(head.last() == values[base + fewer]);
        assert(measured_lane(values, measure, fewer as int, chunks + 1) == measured_lane(
            values,
            measure,
            fewer as int,
            chunks,
        ) + measure(values[base + fewer]));
    }
}

/// The readings of all lanes of the first `chunks` chunks add up to the total
/// of the readings of the values of those chunks.
proof fn lemma_measured_lanes_total<T>(values: Seq<T>, measure: spec_fn(T) -> int, chunks: nat)
    requires
        chunks * LANES <= values.len(),
    ensures
        measured_lanes(values, measure, chunks, LANES as nat) == measured_total(
            values.subrange(0, chunks * LANES),
            measure,
        ),
    decreases chunks,
{
    if chunks == 0 {
        lemma_measured_lanes_at_start(values, measure, LANES as nat);
        assert(values.subrange(0, 0) =~= Seq::<T>::empty());
    } else {
        let fewer = (chunks - 1) as nat;
        lemma_measured_lanes_total(values, measure, fewer);
        lemma_measured_lanes_step(values, measure, fewer, LANES as nat);
        let done = values.subrange(0, fewer * LANES);
        let next = values.subrange(fewer * LANES, fewer * LANES + LANES);
        assert(done + next =~= values.subrange(0, chunks * LANES));
        lemma_measured_total_of_joined(done, next, measure);
    }
}

/// Before the first chunk the lanes hold nothing.
proof fn lemma_measured_lanes_at_start<T>(values: Seq<T>, measure: spec_fn(T) -> int, lanes: nat)
    ensures
        measured_lanes(values, measure, 0, lanes) == 0,
    decreases lanes,
{
    if lanes > 0 {
        lemma_measured_lanes_at_start(values, measure, (lanes - 1) as nat);
    }
}

/// Where each addition of the sum in order may be made, the sum reads as the
/// total of the readings.
pub proof fn lemma_naive_sum_reads_as_total<T: Add<Output = T> + From<u8>>(
    values: Seq<T>,
    measure: spec_fn(T) -> int,
)
    requires
        reads_as_integers(measure),
        naive_sum_defined(values),
    ensures
        measure(naive_sum_spec(values)) == measured_total(values, measure),
    decreases values.len(),
{
    if values.len() > 0 {
        lemma_naive_sum_reads_as_total(values.drop_last(), measure);
    }
}

/// Where each addition to a running total of a lane may be made, the running
/// total reads as the readings of its lane added up.
proof fn lemma_lane_total_reads_as_lane<T: Add<Output = T> + From<u8>>(
    values: Seq<T>,
    measure: spec_fn(T) -> int,
    lane: int,
    chunks: nat,
)
    requires
        reads_as_integers(measure),
        0 <= lane < LANES,
        forall|l: int, c: nat|
            0 <= l < LANES && c < chunks ==> may_add(
                #[trigger] lane_total(values, l, c),
                values[c * LANES + l],
            ),
    ensures
        measure(lane_total(values, lane, chunks)) == measured_lane(values, measure, lane, chunks),
    decreases chunks,
{
    if chunks > 0 {
        let fewer = (chunks - 1) as nat;
        lemma_lane_total_reads_as_lane(values, measure, lane, fewer);
        assert(may_add(lane_total(values, lane, fewer), values[fewer * LANES + lane]));
    }
}

/// Where each addition of the sum in lanes may be made, the fold of the first
/// `lanes` running totals reads as the readings of those lanes added up.
proof fn lemma_lanes_folded_reads_as_lanes<T: Add<Output = T> + From<u8>>(
    values: Seq<T>,
    measure: spec_fn(T) -> int,
    lanes: nat,
)
    requires
        reads_as_integers(measure),
        fast_sum_defined(values),
        lanes <= LANES,
    ensures
        measure(lanes_folded(values, values.len() / LANES as nat, lanes)) == measured_lanes(
            values,
            measure,
            values.len() / LANES as nat,
            lanes,
        ),
    decreases lanes,
{
    let chunks = values.len() / LANES as nat;
    if lanes > 0 {
        let fewer = (lanes - 1) as nat;
        lemma_lanes_folded_reads_as_lanes(values, measure, fewer);
        lemma_lane_total_reads_as_lane(values, measure, fewer as int, chunks);
        assert(may_add(lanes_folded(values, chunks, fewer), lane_total(values, fewer as int, chunks)));
    }
}

/// Where each addition of the sum in lanes may be made, the sum reads as the
/// total of the readings.
pub proof fn lemma_fast_sum_reads_as_total<T: Add<Output = T> + From<u8>>(
    values: Seq<T>,
    measure: spec_fn(T) -> int,
)
    requires
        reads_as_integers(measure),
        fast_sum_defined(values),
    ensures
        measure(fast_sum_spec(values)) == measured_total(values, measure),
{
    let chunks = values.len() / LANES as nat;
    assert(chunks * LANES <= values.len()) by {
        assert(values.len() == LANES * chunks + values.len() % LANES as nat);
    }
    lemma_lanes_folded_reads_as_lanes(values, measure, LANES as nat);
    lemma_measured_lanes_total(values, measure, chunks);
    lemma_naive_sum_reads_as_total(remainder(values), measure);
    let whole = values.subrange(0, chunks * LANES);
    assert(whole + remainder(values) =~= values);
    lemma_measured_total_of_joined(whole, remainder(values), measure);
}

/// For a number type that reads as integers, such as an integer type, the sum
/// in lanes is the sum in order wherever each addition of either may be made.
pub proof fn lemma_fast_sum_is_naive_sum_where_defined<T: Add<Output = T> + From<u8>>(
    values: Seq<T>,
    measure: spec_fn(T) -> int,
)
    requires
        reads_as_integers(measure),
        naive_sum_defined(values),
        fast_sum_defined(values),
    ensures
        fast_sum_spec(values) == naive_sum_spec(values),
{
    lemma_naive_sum_reads_as_total(values, measure);
    lemma_fast_sum_reads_as_total(values, measure);
}

/// For `u64` values the sum in lanes is the sum in order, and both are the total
/// of the values, wherever no addition of either overflows.
pub proof fn lemma_fast_sum_is_naive_sum_of_u64(values: Seq<u64>)
    requires
        naive_sum_defined(values),
        fast_sum_defined(values),
    ensures
        fast_sum_spec(values) == naive_sum_spec(values),
        fast_sum_spec(values) == measured_total(values, |value: u64| value as int),
{
    let measure = |value: u64| value as int;
    assert(reads_as_integers::<u64>(measure));
    lemma_fast_sum_is_naive_sum_where_defined(values, measure);
    lemma_fast_sum_reads_as_total(values, measure);
}

} // verus!
