//! The benchmark statistics engine: reduces one run's timing samples to
//! maximum, minimum, mean and median, and compares two positionally aligned
//! runs pairwise, counting wins and summing the time saved.

use vstd::prelude::*;
use vstd::relations::total_ordering;
use vstd::relations::sorted_by;
use vstd::seq_lib::lemma_sorted_unique;

verus! {

broadcast use
    vstd::seq_lib::to_multiset_insert,
    vstd::seq_lib::to_multiset_build,
    vstd::seq_lib::group_to_multiset_ensures,
;

/// The sum of a sequence of timing samples, as an unbounded integer.
pub open spec fn sum_of(s: Seq<u128>) -> int
    decreases s.len(),
{
    if s.len() == 0 {
        0
    } else {
        sum_of(s.drop_last()) + s.last()
    }
}

/// The ascending order on samples, in the shape the sequence library sorts by.
pub open spec fn sample_leq() -> spec_fn(u128, u128) -> bool {
    |x: u128, y: u128| x <= y
}

/// The samples of `s` rearranged into ascending order.
pub open spec fn sorted_samples(s: Seq<u128>) -> Seq<u128> {
    s.sort_by(sample_leq())
}

/// Every earlier element is at most every later one.
pub open spec fn is_ascending(s: Seq<u128>) -> bool {
    forall|p: int, q: int| 0 <= p < q < s.len() ==> s[p] <= s[q]
}

/// The median under the upper-median convention: the element at index
/// `len / 2` of the ascending ordering. For even lengths this is the upper
/// of the two middle elements, never their average.
pub open spec fn median_of(s: Seq<u128>) -> u128
    recommends
        s.len() >= 1,
{
    sorted_samples(s)[s.len() as int / 2]
}

/// How many positions of `s` are as fast as (no larger than) `o`.
pub open spec fn win_count_of(s: Seq<u128>, o: Seq<u128>) -> nat
    recommends
        s.len() == o.len(),
    decreases s.len(),
{
    if s.len() == 0 || o.len() == 0 {
        0
    } else {
        win_count_of(s.drop_last(), o.drop_last()) + if s.last() <= o.last() {
            1nat
        } else {
            0nat
        }
    }
}

/// The total time saved over the winning positions: the sum of
/// `o[i] - s[i]` over exactly the positions where `s[i] <= o[i]`.
pub open spec fn saved_sum_of(s: Seq<u128>, o: Seq<u128>) -> int
    recommends
        s.len() == o.len(),
    decreases s.len(),
{
    if s.len() == 0 || o.len() == 0 {
        0
    } else {
        saved_sum_of(s.drop_last(), o.drop_last()) + if s.last() <= o.last() {
            o.last() - s.last()
        } else {
            0
        }
    }
}

/// Extending a prefix by one sample adds that sample to its sum.
proof fn lemma_sum_extend(s: Seq<u128>, i: int)
    requires
        0 <= i < s.len(),
    ensures
        sum_of(s.subrange(0, i + 1)) == sum_of(s.subrange(0, i)) + s[i],
{
    assert(s.subrange(0, i + 1).drop_last() =~= s.subrange(0, i));
    assert(s.subrange(0, i + 1).last() == s[i]);
}

/// A prefix of a sample sequence never sums to more than the whole.
proof fn lemma_sum_prefix_le(s: Seq<u128>, i: int)
    requires
        0 <= i <= s.len(),
    ensures
        sum_of(s.subrange(0, i)) <= sum_of(s),
    decreases s.len(),
{
    if i == s.len() {
        assert(s.subrange(0, i) =~= s);
    } else {
        assert(s.subrange(0, i) =~= s.drop_last().subrange(0, i));
        lemma_sum_prefix_le(s.drop_last(), i);
    }
}

/// Extending both prefixes by one position adds that position's win and
/// saving to the pairwise totals.
proof fn lemma_pair_extend(s: Seq<u128>, o: Seq<u128>, i: int)
    requires
        s.len() == o.len(),
        0 <= i < s.len(),
    ensures
        win_count_of(s.subrange(0, i + 1), o.subrange(0, i + 1)) == win_count_of(
            s.subrange(0, i),
            o.subrange(0, i),
        ) + (if s[i] <= o[i] {
            1nat
        } else {
            0nat
        }),
        saved_sum_of(s.subrange(0, i + 1), o.subrange(0, i + 1)) == saved_sum_of(
            s.subrange(0, i),
            o.subrange(0, i),
        ) + (if s[i] <= o[i] {
            o[i] - s[i]
        } else {
            0
        }),
{
    assert(s.subrange(0, i + 1).drop_last() =~= s.subrange(0, i));
    assert(o.subrange(0, i + 1).drop_last() =~= o.subrange(0, i));
    assert(s.subrange(0, i + 1).last() == s[i]);
    assert(o.subrange(0, i + 1).last() == o[i]);
}

/// The time saved can never exceed the other run's whole time: each winning
/// position saves at most the other's sample there.
pub proof fn lemma_saved_le_sum(s: Seq<u128>, o: Seq<u128>)
    requires
        s.len() == o.len(),
    ensures
        0 <= saved_sum_of(s, o) <= sum_of(o),
    decreases s.len(),
{
    if s.len() > 0 {
        lemma_saved_le_sum(s.drop_last(), o.drop_last());
    }
}

/// There is one ascending arrangement of given samples: any ascending
/// sequence with the same multiset of samples is `sorted_samples` of them.
proof fn lemma_sorted_samples_agree(s: Seq<u128>, r: Seq<u128>)
    requires
        is_ascending(r),
        r.to_multiset() == s.to_multiset(),
    ensures
        r == sorted_samples(s),
{
    let leq = sample_leq();
    assert(total_ordering(leq));
    s.lemma_sort_by_ensures(leq);
    assert(sorted_by(r, leq));
    lemma_sorted_unique(r, s.sort_by(leq), leq);
}

/// One algorithm's run over the shared pair sequence: the per-pair timing
/// samples in the order the pairs were run, with the summary statistics
/// derived from them once. Immutable after `summarize` constructs it.
pub struct RunResult {
    /// The samples, in the order the pairs were run.
    pub times: Vec<u128>,
    /// The largest sample.
    pub maximum: u128,
    /// The smallest sample.
    pub minimum: u128,
    /// The sum of all samples; the mean is this total divided by the count.
    pub total: u128,
    /// The sample at index `len / 2` of the ascending ordering.
    pub median: u128,
}

impl RunResult {
    /// The statistics fields say of the samples exactly what `summarize`
    /// computes: the extrema, the exact sum behind the mean, and the
    /// upper-convention median.
    pub open spec fn wf(self) -> bool {
        &&& self.times@.len() >= 1
        &&& self.times@.contains(self.maximum)
        &&& (forall|i: int| 0 <= i < self.times@.len() ==> self.times@[i] <= self.maximum)
        &&& self.times@.contains(self.minimum)
        &&& (forall|i: int| 0 <= i < self.times@.len() ==> self.minimum <= self.times@[i])
        &&& self.total == sum_of(self.times@)
        &&& self.median == median_of(self.times@)
    }

    /// Counts the positions at which this run was as fast as `other`, and
    /// sums the time saved over exactly those positions. The average time
    /// saved is the sum divided by the count, which is undefined when the
    /// count is 0; the runs must be positionally aligned and of one length.
    pub fn compare_to(&self, other: &RunResult) -> (r: (usize, u128))
        requires
            self.times@.len() == other.times@.len(),
            sum_of(other.times@) <= u128::MAX,
        ensures
            r.0 == win_count_of(self.times@, other.times@),
            r.1 == saved_sum_of(self.times@, other.times@),
    {
        let s = &self.times;
        let o = &other.times;
        let ghost sv = self.times@;
        let ghost ov = other.times@;
        let mut count: usize = 0;
        let mut saved: u128 = 0;
        let mut i: usize = 0;
        while i < s.len()
            invariant
                s@ == sv,
                o@ == ov,
                sv.len() == ov.len(),
                sum_of(ov) <= u128::MAX,
                0 <= i <= sv.len(),
                count <= i,
                count == win_count_of(sv.subrange(0, i as int), ov.subrange(0, i as int)),
                saved == saved_sum_of(sv.subrange(0, i as int), ov.subrange(0, i as int)),
            decreases s@.len() - i,
        {
            proof {
                lemma_pair_extend(sv, ov, i as int);
                lemma_saved_le_sum(
                    sv.subrange(0, i as int + 1),
                    ov.subrange(0, i as int + 1),
                );
                lemma_sum_prefix_le(ov, i as int + 1);
            }
            if s[i] <= o[i] {
                count += 1;
                saved = saved + (o[i] - s[i]);
            }
            i += 1;
        }
        proof {
            assert(sv.subrange(0, sv.len() as int) =~= sv);
            assert(ov.subrange(0, ov.len() as int) =~= ov);
        }
        (count, saved)
    }
}

/// Rearranges the samples into ascending order by insertion.
fn sort_samples(v: &Vec<u128>) -> (r: Vec<u128>)
    ensures
        is_ascending(r@),
        r@.to_multiset() == v@.to_multiset(),
        r@.len() == v@.len(),
{
    let mut r: Vec<u128> = Vec::new();
    let mut idx: usize = 0;
    while idx < v.len()
        invariant
            idx <= v@.len(),
            is_ascending(r@),
            r@.to_multiset() == v@.subrange(0, idx as int).to_multiset(),
            r@.len() == idx,
        decreases v@.len() - idx,
    {
        let x = v[idx];
        let mut j: usize = 0;
        while j < r.len() && r[j] <= x
            invariant
                j <= r@.len(),
                is_ascending(r@),
                forall|k: int| 0 <= k < j ==> r@[k] <= x,
            decreases r@.len() - j,
        {
            j += 1;
        }
        let ghost before = r@;
        r.insert(j, x);
        proof {
            assert forall|p: int, q: int| 0 <= p < q < r@.len() implies r@[p] <= r@[q] by {
                if q < j {
                    assert(r@[p] == before[p] && r@[q] == before[q]);
                } else if p < j && q == j {
                    assert(r@[p] == before[p]);
                } else if p < j && q > j {
                    assert(r@[p] == before[p] && r@[q] == before[q - 1]);
                } else if p == j {
                    assert(r@[q] == before[q - 1] && before[j as int] > x);
                } else {
                    assert(r@[p] == before[p - 1] && r@[q] == before[q - 1]);
                }
            }
            assert(r@ == before.insert(j as int, x));
            assert(r@.to_multiset() == before.to_multiset().insert(x));
            assert(v@.subrange(0, idx as int + 1) =~= v@.subrange(0, idx as int).push(
                v@[idx as int],
            ));
            assert(v@.subrange(0, idx as int).push(v@[idx as int]).to_multiset() == v@.subrange(
                0,
                idx as int,
            ).to_multiset().insert(v@[idx as int]));
        }
        idx += 1;
    }
    assert(v@.subrange(0, v@.len() as int) =~= v@);
    r
}

/// Reduces a non-empty run of timing samples to its summary statistics:
/// the extrema, the exact sum behind the arithmetic mean, and the median
/// of the ascending ordering under the upper-median convention. The samples
/// themselves are kept in their original order.
pub fn summarize(times: Vec<u128>) -> (r: RunResult)
    requires
        times@.len() >= 1,
        sum_of(times@) <= u128::MAX,
    ensures
        r.times@ == times@,
        r.wf(),
{
    let ghost tv = times@;
    let mut maximum = times[0];
    let mut minimum = times[0];
    let mut total: u128 = 0;
    let mut i: usize = 0;
    while i < times.len()
        invariant
            times@ == tv,
            tv.len() >= 1,
            sum_of(tv) <= u128::MAX,
            0 <= i <= tv.len(),
            tv.contains(maximum),
            forall|k: int| 0 <= k < i ==> tv[k] <= maximum,
            tv.contains(minimum),
            forall|k: int| 0 <= k < i ==> minimum <= tv[k],
            total == sum_of(tv.subrange(0, i as int)),
        decreases times@.len() - i,
    {
        proof {
            lemma_sum_extend(tv, i as int);
            lemma_sum_prefix_le(tv, i as int + 1);
        }
        if times[i] > maximum {
            maximum = times[i];
        }
        if times[i] < minimum {
            minimum = times[i];
        }
        total = total + times[i];
        i += 1;
    }
    proof {
        assert(tv.subrange(0, tv.len() as int) =~= tv);
    }

    let sorted = sort_samples(&times);
    let median = sorted[times.len() / 2];
    proof {
        lemma_sorted_samples_agree(tv, sorted@);
    }

    RunResult { times, maximum, minimum, total, median }
}

} // verus!
