use crate::BucketIndexType;
use vstd::prelude::*;
use vstd::relations::{sorted_by, total_ordering};

verus! {

/// Number of items that fell into one sub-partition.
#[derive(Clone, Copy, Debug, PartialEq, Eq, Structural, PartialOrd, Ord)]
pub struct BucketCounter {
    pub count: u64,
}

/// The non-zero items of `r`, in order.
pub open spec fn nonzero_row(r: Seq<u64>) -> Seq<u64>
    decreases r.len(),
{
    if r.len() == 0 {
        Seq::empty()
    } else if r.last() != 0 {
        nonzero_row(r.drop_last()).push(r.last())
    } else {
        nonzero_row(r.drop_last())
    }
}

/// The non-zero counts of every partition, partition after partition.
pub open spec fn nonzero_counts(c: Seq<Seq<u64>>) -> Seq<u64>
    decreases c.len(),
{
    if c.len() == 0 {
        Seq::empty()
    } else {
        nonzero_counts(c.drop_last()) + nonzero_row(c.last())
    }
}

pub open spec fn geq() -> spec_fn(u64, u64) -> bool {
    |a: u64, b: u64| a >= b
}

/// The middle element of the non-zero counts in descending order (the one
/// at half the length, rounded down), or 0 where every count is 0.
pub open spec fn median_of(c: Seq<Seq<u64>>) -> u64 {
    let s = nonzero_counts(c);
    if s.len() == 0 {
        0
    } else {
        s.sort_by(geq())[(s.len() / 2) as int]
    }
}

/// The largest item of `r`, or 0 for an empty one.
pub open spec fn row_max(r: Seq<u64>) -> u64
    decreases r.len(),
{
    if r.len() == 0 {
        0
    } else if r.last() > row_max(r.drop_last()) {
        r.last()
    } else {
        row_max(r.drop_last())
    }
}

/// The largest count of any partition, or 0.
pub open spec fn max_of(c: Seq<Seq<u64>>) -> u64
    decreases c.len(),
{
    if c.len() == 0 {
        0
    } else if row_max(c.last()) > max_of(c.drop_last()) {
        row_max(c.last())
    } else {
        max_of(c.drop_last())
    }
}

pub open spec fn row_counts(r: Seq<BucketCounter>) -> Seq<u64> {
    r.map_values(|b: BucketCounter| b.count)
}

pub open spec fn all_counts(c: Seq<Vec<BucketCounter>>) -> Seq<Seq<u64>> {
    c.map_values(|r: Vec<BucketCounter>| row_counts(r@))
}

pub open spec fn rows_view(c: Seq<Vec<u64>>) -> Seq<Seq<u64>> {
    c.map_values(|r: Vec<u64>| r@)
}

/// Relies on `slice::sort_unstable`: the items come back in ascending order,
/// the same items as before.
#[verifier::external_body]
fn sort_ascending(v: &mut Vec<u64>)
    ensures
        final(v)@.to_multiset() == old(v)@.to_multiset(),
        forall|i: int, j: int| 0 <= i < j < final(v)@.len() ==> final(v)@[i] <= final(v)@[j],
{
    v.sort_unstable();
}

proof fn lemma_descending_is_reverse(s: Seq<u64>, a: Seq<u64>)
    requires
        a.to_multiset() == s.to_multiset(),
        forall|i: int, j: int| 0 <= i < j < a.len() ==> a[i] <= a[j],
    ensures
        s.sort_by(geq()) == a.reverse(),
{
    let leq = geq();
    assert(total_ordering(leq)) by {
        assert(forall|x: u64, y: u64| #[trigger] leq(x, y) <==> x >= y);
    }
    s.lemma_sort_by_ensures(leq);
    a.lemma_reverse_to_multiset();
    let r = a.reverse();
    assert(sorted_by(r, leq)) by {
        assert forall|i: int, j: int| 0 <= i < j < r.len() implies #[trigger] leq(r[i], r[j]) by {
            assert(r[i] == a[a.len() - 1 - i]);
            assert(r[j] == a[a.len() - 1 - j]);
        }
    }
    vstd::seq_lib::lemma_sorted_unique(s.sort_by(leq), r, leq);
}

/// Per-partition, per-sub-partition item counts and their median.
pub struct CountersAnalyzer {
    counters: Vec<Vec<BucketCounter>>,
    median: u64,
}

impl CountersAnalyzer {
    /// The counts, partition by partition.
    pub closed spec fn counts(&self) -> Seq<Seq<u64>> {
        all_counts(self.counters@)
    }

    pub closed spec fn spec_median(&self) -> u64 {
        self.median
    }

    /// Takes the final value of every counter and computes their median.
    pub fn new(counters: Vec<Vec<u64>>) -> (r: Self)
        ensures
            r.counts() == rows_view(counters@),
            r.spec_median() == median_of(rows_view(counters@)),
    {
        let ghost c = rows_view(counters@);
        let mut sorted_counters: Vec<u64> = Vec::new();
        let mut rows: Vec<Vec<BucketCounter>> = Vec::new();
        let mut bucket: usize = 0;
        while bucket < counters.len()
            invariant
                c == rows_view(counters@),
                bucket <= counters@.len(),
                sorted_counters@ == nonzero_counts(c.take(bucket as int)),
                all_counts(rows@) == c.take(bucket as int),
            decreases counters@.len() - bucket,
        {
            let vec = &counters[bucket];
            let ghost before = sorted_counters@;
            let mut row: Vec<BucketCounter> = Vec::new();
            let mut second: usize = 0;
            while second < vec.len()
                invariant
                    second <= vec@.len(),
                    sorted_counters@ == before + nonzero_row(vec@.take(second as int)),
                    row_counts(row@) == vec@.take(second as int),
                decreases vec@.len() - second,
            {
                let count = vec[second];
                if count != 0 {
                    sorted_counters.push(count);
                }
                row.push(BucketCounter { count });
                proof {
                    let t = vec@.take(second + 1);
                    assert(t.drop_last() =~= vec@.take(second as int));
                    if count != 0 {
                        assert(sorted_counters@ =~= before + nonzero_row(t));
                    } else {
                        assert(sorted_counters@ =~= before + nonzero_row(t));
                    }
                    assert(row_counts(row@) =~= t);
                }
                second += 1;
            }
            let ghost prev_rows = rows@;
            rows.push(row);
            proof {
                assert(vec@.take(second as int) =~= vec@);
                let t = c.take(bucket + 1);
                assert(t.drop_last() =~= c.take(bucket as int));
                assert(t.last() == vec@);
                assert(sorted_counters@ =~= nonzero_counts(t));
                assert(all_counts(rows@) =~= all_counts(prev_rows).push(row_counts(row@)));
                assert(all_counts(rows@) =~= t);
            }
            bucket += 1;
        }
        proof {
            assert(c.take(bucket as int) =~= c);
        }
        let ghost unsorted = sorted_counters@;
        sort_ascending(&mut sorted_counters);
        let n = sorted_counters.len();
        let median = if n > 0 {
            proof {
                lemma_descending_is_reverse(unsorted, sorted_counters@);
                unsorted.lemma_sort_by_ensures(geq());
                broadcast use vstd::seq_lib::group_to_multiset_ensures;
                assert(unsorted.to_multiset().len() == unsorted.len());
                assert(sorted_counters@.to_multiset().len() == sorted_counters@.len());
            }
            sorted_counters[n - 1 - n / 2]
        } else {
            proof {
                broadcast use vstd::seq_lib::group_to_multiset_ensures;
                assert(unsorted.to_multiset().len() == unsorted.len());
                assert(sorted_counters@.to_multiset().len() == sorted_counters@.len());
            }
            0
        };
        CountersAnalyzer { counters: rows, median }
    }

    /// Rebuilds an analyzer from counts and a median kept from an earlier run.
    pub fn from_parts(counters: Vec<Vec<BucketCounter>>, median: u64) -> (r: Self)
        ensures
            r.counts() == all_counts(counters@),
            r.spec_median() == median,
    {
        CountersAnalyzer { counters, median }
    }

    #[verifier::when_used_as_spec(spec_median)]
    pub fn median(&self) -> (r: u64)
        ensures
            r == self.spec_median(),
    {
        self.median
    }

    pub fn counters(&self) -> (r: &Vec<Vec<BucketCounter>>)
        ensures
            all_counts(r@) == self.counts(),
    {
        &self.counters
    }

    /// The sub-partition counters of partition `bucket`.
    pub fn get_counters_for_bucket(&self, bucket: BucketIndexType) -> (r: &Vec<BucketCounter>)
        requires
            bucket < self.counts().len(),
        ensures
            row_counts(r@) == self.counts()[bucket as int],
    {
        &self.counters[bucket as usize]
    }

    /// The largest count of partition `bucket`, or 0 where it has none.
    pub fn get_bucket_maximum(&self, bucket: BucketIndexType) -> (r: u64)
        requires
            bucket < self.counts().len(),
        ensures
            r == row_max(self.counts()[bucket as int]),
    {
        let row = &self.counters[bucket as usize];
        let ghost rc = row_counts(row@);
        let mut best: u64 = 0;
        let mut j: usize = 0;
        while j < row.len()
            invariant
                rc == row_counts(row@),
                rc == self.counts()[bucket as int],
                j <= row@.len(),
                best == row_max(rc.take(j as int)),
            decreases row@.len() - j,
        {
            proof {
                assert(rc.take(j + 1).drop_last() =~= rc.take(j as int));
            }
            if row[j].count > best {
                best = row[j].count;
            }
            j += 1;
        }
        proof {
            assert(rc.take(j as int) =~= rc);
        }
        best
    }

    /// The largest count over every partition, or 0 where there is none.
    pub fn maximum_count(&self) -> (r: u64)
        ensures
            r == max_of(self.counts()),
    {
        let ghost c = self.counts();
        let mut best: u64 = 0;
        let mut i: usize = 0;
        while i < self.counters.len()
            invariant
                c == all_counts(self.counters@),
                i <= self.counters@.len(),
                best == max_of(c.take(i as int)),
            decreases self.counters@.len() - i,
        {
            let row = &self.counters[i];
            let ghost rc = row_counts(row@);
            let mut row_best: u64 = 0;
            let mut j: usize = 0;
            while j < row.len()
                invariant
                    rc == row_counts(row@),
                    j <= row@.len(),
                    row_best == row_max(rc.take(j as int)),
                decreases row@.len() - j,
            {
                let v = row[j].count;
                proof {
                    assert(rc.take(j + 1).drop_last() =~= rc.take(j as int));
                }
                if v > row_best {
                    row_best = v;
                }
                j += 1;
            }
            proof {
                assert(rc.take(j as int) =~= rc);
                assert(c.take(i + 1).drop_last() =~= c.take(i as int));
                assert(c.take(i + 1).last() == rc);
            }
            if row_best > best {
                best = row_best;
            }
            i += 1;
        }
        proof {
            assert(c.take(i as int) =~= c);
        }
        best
    }
}

} // verus!
