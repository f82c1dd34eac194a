//! Summaries of measured numbers: order, percentiles, sums and shares.
use vstd::prelude::*;
use vstd::seq_lib::group_to_multiset_ensures;

verus! {

/// Numbers in rising order, with one more among them.
pub open spec fn placed_number(sorted: Seq<u128>, n: u128) -> Seq<u128>
    decreases sorted.len(),
{
    if sorted.len() == 0 || sorted.last() <= n {
        sorted.push(n)
    } else {
        placed_number(sorted.drop_last(), n).push(sorted.last())
    }
}

/// The numbers in rising order.
pub open spec fn ascending(numbers: Seq<u128>) -> Seq<u128>
    decreases numbers.len(),
{
    if numbers.len() == 0 {
        Seq::empty()
    } else {
        placed_number(ascending(numbers.drop_last()), numbers.last())
    }
}

/// Whether numbers are in rising order.
pub open spec fn is_ascending(numbers: Seq<u128>) -> bool {
    forall|i: int, j: int|
        0 <= i < j < numbers.len() ==> #[trigger] numbers[i] <= #[trigger] numbers[j]
}

proof fn lemma_placed_number(sorted: Seq<u128>, n: u128)
    requires
        is_ascending(sorted),
    ensures
        is_ascending(placed_number(sorted, n)),
        placed_number(sorted, n).to_multiset() == sorted.to_multiset().insert(n),
        forall|i: int|
            0 <= i < placed_number(sorted, n).len() ==> #[trigger] placed_number(sorted, n)[i] <= (
            if sorted.len() > 0 && sorted.last() > n {
                sorted.last()
            } else {
                n
            }),
    decreases sorted.len(),
{
    broadcast use group_to_multiset_ensures;

    if sorted.len() > 0 && sorted.last() > n {
        let front = sorted.drop_last();
        lemma_placed_number(front, n);
        assert(sorted =~= front.push(sorted.last()));
        if front.len() > 0 {
            assert(sorted[front.len() - 1] <= sorted[sorted.len() - 1]);
        }
        assert(placed_number(sorted, n).to_multiset() =~= sorted.to_multiset().insert(n));
    }
}

/// Putting numbers in rising order keeps each of them as often as it was there.
pub proof fn law_ascending_is_the_order(numbers: Seq<u128>)
    ensures
        is_ascending(ascending(numbers)),
        ascending(numbers).to_multiset() == numbers.to_multiset(),
        ascending(numbers).len() == numbers.len(),
    decreases numbers.len(),
{
    broadcast use group_to_multiset_ensures;

    if numbers.len() > 0 {
        law_ascending_is_the_order(numbers.drop_last());
        lemma_placed_number(ascending(numbers.drop_last()), numbers.last());
        assert(numbers =~= numbers.drop_last().push(numbers.last()));
    } else {
        assert(ascending(numbers) =~= numbers);
    }
    assert(ascending(numbers).to_multiset().len() == ascending(numbers).len());
    assert(numbers.to_multiset().len() == numbers.len());
}

/// There is only one rising order of given numbers.
proof fn lemma_order_is_unique(numbers: Seq<u128>, sorted: Seq<u128>)
    requires
        is_ascending(sorted),
        sorted.to_multiset() == numbers.to_multiset(),
    ensures
        sorted == ascending(numbers),
{
    law_ascending_is_the_order(numbers);
    let leq = |a: u128, b: u128| a <= b;
    assert(vstd::relations::total_ordering(leq));
    let other = ascending(numbers);
    assert(vstd::relations::sorted_by(sorted, leq));
    assert(vstd::relations::sorted_by(other, leq));
    vstd::seq_lib::lemma_sorted_unique(sorted, other, leq);
}

/// Two rows of numbers in rising order as one.
fn merge(left: &Vec<u128>, right: &Vec<u128>) -> (merged: Vec<u128>)
    requires
        is_ascending(left@),
        is_ascending(right@),
    ensures
        is_ascending(merged@),
        merged@.to_multiset() == left@.to_multiset().add(right@.to_multiset()),
{
    broadcast use group_to_multiset_ensures;

    let mut merged: Vec<u128> = Vec::new();
    let mut i: usize = 0;
    let mut j: usize = 0;
    proof {
        assert(left@.take(0) =~= Seq::empty());
        assert(right@.take(0) =~= Seq::empty());
        assert(merged@.to_multiset() =~= left@.take(0).to_multiset().add(
            right@.take(0).to_multiset(),
        ));
    }
    while i < left.len() || j < right.len()
        invariant
            i <= left.len(),
            j <= right.len(),
            is_ascending(left@),
            is_ascending(right@),
            is_ascending(merged@),
            merged@.to_multiset() == left@.take(i as int).to_multiset().add(
                right@.take(j as int).to_multiset(),
            ),
            i < left.len() ==> forall|k: int|
                0 <= k < merged@.len() ==> #[trigger] merged@[k] <= left@[i as int],
            j < right.len() ==> forall|k: int|
                0 <= k < merged@.len() ==> #[trigger] merged@[k] <= right@[j as int],
        decreases left.len() - i + right.len() - j,
    {
        if j == right.len() || (i < left.len() && left[i] <= right[j]) {
            proof {
                broadcast use group_to_multiset_ensures;

                assert(left@.take(i + 1) =~= left@.take(i as int).push(left@[i as int]));
                assert(merged@.push(left@[i as int]).to_multiset() =~= left@.take(
                    i + 1,
                ).to_multiset().add(right@.take(j as int).to_multiset()));
            }
            merged.push(left[i]);
            i = i + 1;
        } else {
            proof {
                broadcast use group_to_multiset_ensures;

                assert(right@.take(j + 1) =~= right@.take(j as int).push(right@[j as int]));
                assert(merged@.push(right@[j as int]).to_multiset() =~= left@.take(
                    i as int,
                ).to_multiset().add(right@.take(j + 1).to_multiset()));
            }
            merged.push(right[j]);
            j = j + 1;
        }
    }
    proof {
        assert(left@.take(left@.len() as int) =~= left@);
        assert(right@.take(right@.len() as int) =~= right@);
    }
    merged
}

/// The numbers from `from` up to, not including, `to` in rising order.
fn sorted_range(numbers: &[u128], from: usize, to: usize) -> (sorted: Vec<u128>)
    requires
        from <= to <= numbers.len(),
    ensures
        is_ascending(sorted@),
        sorted@.to_multiset() == numbers@.subrange(from as int, to as int).to_multiset(),
    decreases to - from,
{
    broadcast use group_to_multiset_ensures;

    let mut sorted: Vec<u128> = Vec::new();
    if to - from <= 1 {
        if from < to {
            sorted.push(numbers[from]);
        }
        proof {
            assert(sorted@ =~= numbers@.subrange(from as int, to as int));
        }
        return sorted;
    }
    let middle: usize = from + (to - from) / 2;
    let left = sorted_range(numbers, from, middle);
    let right = sorted_range(numbers, middle, to);
    proof {
        let head = numbers@.subrange(from as int, middle as int);
        let tail = numbers@.subrange(middle as int, to as int);
        assert(numbers@.subrange(from as int, to as int) =~= head + tail);
        vstd::seq_lib::lemma_multiset_commutative(head, tail);
    }
    merge(&left, &right)
}

/// The numbers in rising order.
pub fn sort_numbers(numbers: &[u128]) -> (sorted: Vec<u128>)
    ensures
        sorted@ == ascending(numbers@),
{
    let sorted = sorted_range(numbers, 0, numbers.len());
    proof {
        assert(numbers@.subrange(0, numbers@.len() as int) =~= numbers@);
        lemma_order_is_unique(numbers@, sorted@);
    }
    sorted
}

// ---------------------------------------------------------------------------------
// Percentiles and sums
// ---------------------------------------------------------------------------------

/// The index of a percentile among `count` numbers in rising order: the nearest rank
/// at or above it.
pub open spec fn rank(count: nat, percentile: nat) -> nat {
    let scaled = (count - 1) * percentile;
    let bounded = if scaled > usize::MAX {
        usize::MAX as int
    } else {
        scaled
    };
    ((bounded + 99) / 100) as nat
}

/// A percentile of numbers in rising order, if there are any.
pub open spec fn percentile_of(sorted: Seq<u128>, percentile: nat) -> Option<u128> {
    if sorted.len() == 0 || rank(sorted.len(), percentile) >= sorted.len() {
        None
    } else {
        Some(sorted[rank(sorted.len(), percentile) as int])
    }
}

/// A percentile of numbers in rising order, if there are any.
pub fn percentile(sorted: &[u128], percent: usize) -> (value: Option<u128>)
    ensures
        value == percentile_of(sorted@, percent as nat),
{
    if sorted.len() == 0 {
        return None;
    }
    let last: usize = sorted.len() - 1;
    let scaled: usize = match last.checked_mul(percent) {
        Some(product) => product,
        None => usize::MAX,
    };
    let index: usize = scaled / 100 + if scaled % 100 == 0 {
        0
    } else {
        1
    };
    proof {
        assert(scaled as int == if last * percent > usize::MAX {
            usize::MAX as int
        } else {
            last * percent
        });
        assert(index as int == (scaled + 99) / 100);
    }
    if index < sorted.len() {
        Some(sorted[index])
    } else {
        None
    }
}

/// The sum of numbers.
pub open spec fn sum_of(numbers: Seq<u128>) -> nat
    decreases numbers.len(),
{
    if numbers.len() == 0 {
        0
    } else {
        sum_of(numbers.drop_last()) + numbers.last() as nat
    }
}

/// Some of the numbers sum up to no more than all of them.
proof fn lemma_sum_grows(numbers: Seq<u128>, count: int)
    requires
        0 <= count <= numbers.len(),
    ensures
        sum_of(numbers.take(count)) <= sum_of(numbers),
    decreases numbers.len(),
{
    if count == numbers.len() {
        assert(numbers.take(count) =~= numbers);
    } else {
        lemma_sum_grows(numbers.drop_last(), count);
        assert(numbers.drop_last().take(count) =~= numbers.take(count));
    }
}

/// The sum of numbers, if it is not too large.
pub fn checked_sum(numbers: &[u128]) -> (sum: Option<u128>)
    ensures
        match sum {
            Some(total) => total == sum_of(numbers@),
            None => sum_of(numbers@) > u128::MAX,
        },
{
    let mut total: u128 = 0;
    let mut i: usize = 0;
    proof {
        assert(numbers@.take(0) =~= Seq::empty());
    }
    while i < numbers.len()
        invariant
            i <= numbers.len(),
            total == sum_of(numbers@.take(i as int)),
        decreases numbers.len() - i,
    {
        proof {
            assert(numbers@.take(i + 1).drop_last() =~= numbers@.take(i as int));
            assert(numbers@.take(i + 1).last() == numbers@[i as int]);
            lemma_sum_grows(numbers@, i + 1);
        }
        match total.checked_add(numbers[i]) {
            Some(next) => {
                total = next;
            },
            None => {
                return None;
            },
        }
        i = i + 1;
    }
    proof {
        assert(numbers@.take(numbers@.len() as int) =~= numbers@);
    }
    Some(total)
}

/// A quotient that is not worked out.
#[derive(Debug, Clone, Copy, PartialEq, Eq, Structural)]
pub struct Ratio {
    pub numerator: u128,
    pub denominator: u128,
}

/// One number as a share of another. There is none of nothing.
pub open spec fn share(numerator: usize, denominator: usize) -> Option<Ratio> {
    if denominator > 0 {
        Some(Ratio { numerator: numerator as u128, denominator: denominator as u128 })
    } else {
        None
    }
}

/// One number as a share of another. There is none of nothing.
pub fn percentage(numerator: usize, denominator: usize) -> (ratio: Option<Ratio>)
    ensures
        ratio == share(numerator, denominator),
{
    if denominator > 0 {
        Some(Ratio { numerator: numerator as u128, denominator: denominator as u128 })
    } else {
        None
    }
}

/// What is said of many measured numbers.
#[derive(Debug, Clone, Copy, PartialEq, Eq, Structural)]
pub struct DistributionSummary {
    pub count: usize,
    pub average: Option<Ratio>,
    pub p50: Option<u128>,
    pub p95: Option<u128>,
    pub maximum: Option<u128>,
}

/// What is said of the given numbers.
pub open spec fn summary_of(samples: Seq<u128>) -> DistributionSummary {
    let sorted = ascending(samples);
    if samples.len() == 0 {
        DistributionSummary { count: 0, average: None, p50: None, p95: None, maximum: None }
    } else {
        DistributionSummary {
            count: samples.len() as usize,
            average: Some(
                Ratio { numerator: sum_of(samples) as u128, denominator: samples.len() as u128 },
            ),
            p50: percentile_of(sorted, 50),
            p95: percentile_of(sorted, 95),
            maximum: Some(sorted.last()),
        }
    }
}

impl DistributionSummary {
    /// What is said of the given numbers, whose sum must not be too large.
    pub fn from_samples(samples: &[u128]) -> (summary: Self)
        requires
            sum_of(samples@) <= u128::MAX,
        ensures
            summary == summary_of(samples@),
    {
        if samples.len() == 0 {
            return DistributionSummary {
                count: 0,
                average: None,
                p50: None,
                p95: None,
                maximum: None,
            };
        }
        let sorted = sort_numbers(samples);
        proof {
            law_ascending_is_the_order(samples@);
        }
        let sum: u128 = match checked_sum(samples) {
            Some(total) => total,
            None => 0,
        };
        DistributionSummary {
            count: samples.len(),
            average: Some(Ratio { numerator: sum, denominator: samples.len() as u128 }),
            p50: percentile(sorted.as_slice(), 50),
            p95: percentile(sorted.as_slice(), 95),
            maximum: Some(sorted[sorted.len() - 1]),
        }
    }
}

/// Of a hundred percent or less there is always a percentile, it is one of the numbers,
/// and the largest number is no smaller.
pub proof fn law_percentiles_are_samples(samples: Seq<u128>, percentile: nat)
    requires
        0 < samples.len() <= usize::MAX,
        percentile <= 100,
    ensures
        percentile_of(ascending(samples), percentile) matches Some(value) && samples.contains(value)
            && value <= ascending(samples).last(),
{
    broadcast use group_to_multiset_ensures;

    law_ascending_is_the_order(samples);
    let sorted = ascending(samples);
    let last = sorted.len() - 1;
    assert(last * percentile <= last * 100) by (nonlinear_arith)
        requires
            0 <= last,
            percentile <= 100,
    ;
    let index = rank(sorted.len(), percentile) as int;
    assert(index <= last);
    assert(sorted.to_multiset().contains(sorted[index]));
    assert(samples.to_multiset().contains(sorted[index]));
}

/// A higher percentile is no smaller: the typical value lies at or below the slow one, and
/// that at or below the largest.
pub proof fn law_percentiles_rise(samples: Seq<u128>, low: nat, high: nat)
    requires
        0 < samples.len() <= usize::MAX,
        low <= high <= 100,
    ensures
        percentile_of(ascending(samples), low) matches Some(lower)
            && percentile_of(ascending(samples), high) matches Some(higher) && lower <= higher,
{
    law_percentiles_are_samples(samples, low);
    law_percentiles_are_samples(samples, high);
    law_ascending_is_the_order(samples);
    let sorted = ascending(samples);
    let last = sorted.len() - 1;
    assert(last * low <= last * high) by (nonlinear_arith)
        requires
            0 <= last,
            low <= high,
    ;
    assert(rank(sorted.len(), low) <= rank(sorted.len(), high));
}

/// The largest number is one of the numbers, and none is larger.
pub proof fn law_maximum_is_the_largest(samples: Seq<u128>)
    requires
        0 < samples.len() <= usize::MAX,
    ensures
        summary_of(samples).maximum matches Some(maximum) && samples.contains(maximum) && (forall|
            i: int,
        |
            0 <= i < samples.len() ==> #[trigger] samples[i] <= maximum),
{
    broadcast use group_to_multiset_ensures;

    law_ascending_is_the_order(samples);
    let sorted = ascending(samples);
    assert(sorted.to_multiset().contains(sorted.last()));
    assert(samples.to_multiset().contains(sorted.last()));
    assert forall|i: int| 0 <= i < samples.len() implies #[trigger] samples[i] <= sorted.last() by {
        assert(samples.to_multiset().contains(samples[i]));
        assert(sorted.to_multiset().contains(samples[i]));
        assert(sorted.contains(samples[i]));
        let k = choose|k: int| 0 <= k < sorted.len() && sorted[k] == samples[i];
        assert(sorted[k] <= sorted[sorted.len() - 1]);
    }
}

/// Whether a number stands at a percentile of some numbers: they can be put in rising order,
/// and it stands in that order at the first index that is no less than the percentile of the
/// last one.
pub open spec fn stands_at(
    samples: Seq<u128>,
    percentile: nat,
    value: u128,
    order: Seq<u128>,
    index: int,
) -> bool {
    &&& order.to_multiset() == samples.to_multiset()
    &&& forall|i: int, j: int|
        0 <= i < j < order.len() ==> #[trigger] order[i] <= #[trigger] order[j]
    &&& 0 <= index < order.len()
    &&& 100 * (index - 1) < (samples.len() - 1) * percentile <= 100 * index
    &&& order[index] == value
}

/// A summary counts the numbers, gives their sum over their count as the average, and the
/// numbers that stand at the fiftieth and at the ninety-fifth percentile.
pub proof fn law_summary_is_of_the_numbers(samples: Seq<u128>)
    requires
        0 < samples.len(),
        (samples.len() - 1) * 95 <= usize::MAX,
    ensures
        summary_of(samples).count == samples.len(),
        sum_of(samples) <= u128::MAX ==> (summary_of(samples).average matches Some(average)
            && average.numerator == sum_of(samples) && average.denominator == samples.len()),
        summary_of(samples).p50 is Some && exists|order: Seq<u128>, index: int|
            #[trigger] stands_at(samples, 50, summary_of(samples).p50->0, order, index),
        summary_of(samples).p95 is Some && exists|order: Seq<u128>, index: int|
            #[trigger] stands_at(samples, 95, summary_of(samples).p95->0, order, index),
{
    let order = ascending(samples);
    law_ascending_is_the_order(samples);
    let typical = rank(samples.len(), 50) as int;
    let slow = rank(samples.len(), 95) as int;
    assert((samples.len() - 1) * 50 <= usize::MAX);
    assert(100 * (typical - 1) < (samples.len() - 1) * 50 <= 100 * typical);
    assert(100 * (slow - 1) < (samples.len() - 1) * 95 <= 100 * slow);
    assert(typical < samples.len() && slow < samples.len());
    assert(summary_of(samples).p50 == Some(order[typical]));
    assert(summary_of(samples).p95 == Some(order[slow]));
    assert(stands_at(samples, 50, summary_of(samples).p50->0, order, typical));
    assert(stands_at(samples, 95, summary_of(samples).p95->0, order, slow));
}

/// Nothing is said of no numbers.
pub proof fn law_no_numbers_no_summary()
    ensures
        summary_of(Seq::empty()).count == 0,
        summary_of(Seq::empty()).average is None,
        summary_of(Seq::empty()).p50 is None,
        summary_of(Seq::empty()).p95 is None,
        summary_of(Seq::empty()).maximum is None,
{
}

/// Every number adds to the sum.
pub proof fn law_every_number_adds_up(left: Seq<u128>, right: Seq<u128>, n: u128)
    ensures
        sum_of(Seq::empty()) == 0,
        sum_of(seq![n]) == n,
        sum_of(left + right) == sum_of(left) + sum_of(right),
    decreases right.len(),
{
    assert(seq![n].drop_last() =~= Seq::empty());
    assert(sum_of(seq![n].drop_last()) == 0);
    if right.len() == 0 {
        assert(left + right =~= left);
    } else {
        law_every_number_adds_up(left, right.drop_last(), n);
        assert((left + right).drop_last() =~= left + right.drop_last());
    }
}

/// A share is the one number over the other, and there is one of anything but nothing.
pub proof fn law_share_is_of_the_whole(numerator: usize, denominator: usize)
    ensures
        denominator == 0 <==> share(numerator, denominator) is None,
        share(numerator, denominator) matches Some(part) ==> part.numerator == numerator
            && part.denominator == denominator,
{
}

} // verus!
