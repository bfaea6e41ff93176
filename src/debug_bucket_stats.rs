use crate::maximal_unitig_index::{decimal_bytes, write_decimal};
use std::collections::HashSet;
use vstd::prelude::*;

verus! {

/// One read of a partition: the sub-partition it falls in and the hashes of
/// its k-mers.
pub struct ReadHashes {
    pub sub_bucket: usize,
    pub hashes: Vec<u64>,
}

/// Every k-mer hash of the reads, with the sub-partition of its read, in order.
pub open spec fn pairs(reads: Seq<ReadHashes>) -> Seq<(usize, u64)>
    decreases reads.len(),
{
    if reads.len() == 0 {
        Seq::empty()
    } else {
        pairs(reads.drop_last()) + read_pairs(reads.last().sub_bucket, reads.last().hashes@)
    }
}

pub open spec fn read_pairs(b: usize, hs: Seq<u64>) -> Seq<(usize, u64)> {
    hs.map_values(|h: u64| (b, h))
}

/// How many hashes fall in sub-partition `b`.
pub open spec fn total_in(p: Seq<(usize, u64)>, b: usize) -> nat
    decreases p.len(),
{
    if p.len() == 0 {
        0
    } else {
        total_in(p.drop_last(), b) + if p.last().0 == b { 1nat } else { 0nat }
    }
}

/// The distinct hashes that fall in sub-partition `b`.
pub open spec fn distinct_in(p: Seq<(usize, u64)>, b: usize) -> Set<u64>
    decreases p.len(),
{
    if p.len() == 0 {
        Set::empty()
    } else if p.last().0 == b {
        distinct_in(p.drop_last(), b).insert(p.last().1)
    } else {
        distinct_in(p.drop_last(), b)
    }
}

proof fn lemma_counts_bounded(p: Seq<(usize, u64)>, b: usize)
    ensures
        total_in(p, b) <= p.len(),
        distinct_in(p, b).finite(),
        distinct_in(p, b).len() <= total_in(p, b),
    decreases p.len(),
{
    broadcast use vstd::set::group_set_axioms;
    if p.len() > 0 {
        lemma_counts_bounded(p.drop_last(), b);
    }
}

/// Per sub-partition counts of one partition.
pub struct BucketStats {
    /// Hashes seen in each sub-partition.
    pub totals: Vec<u64>,
    /// Distinct hashes in each sub-partition.
    pub uniques: Vec<u64>,
}

pub open spec fn pair_key(b: usize, h: u64) -> u128 {
    ((b as int) * 0x1_0000_0000_0000_0000 + (h as int)) as u128
}

proof fn lemma_pair_key(b1: usize, h1: u64, b2: usize, h2: u64)
    ensures
        pair_key(b1, h1) == pair_key(b2, h2) ==> b1 == b2 && h1 == h2,
        (b1 as int) * 0x1_0000_0000_0000_0000 + (h1 as int) < 0x1_0000_0000_0000_0000_0000_0000_0000_0000,
{
    assert((b1 as int) * 0x1_0000_0000_0000_0000 + (h1 as int) < 0x1_0000_0000_0000_0000_0000_0000_0000_0000) by (nonlinear_arith)
        requires b1 <= usize::MAX, h1 <= u64::MAX, usize::MAX <= u64::MAX;
    assert((b2 as int) * 0x1_0000_0000_0000_0000 + (h2 as int) < 0x1_0000_0000_0000_0000_0000_0000_0000_0000) by (nonlinear_arith)
        requires b2 <= usize::MAX, h2 <= u64::MAX, usize::MAX <= u64::MAX;
    if pair_key(b1, h1) == pair_key(b2, h2) {
        assert(b1 == b2 && h1 == h2) by (nonlinear_arith)
            requires
                (b1 as int) * 0x1_0000_0000_0000_0000 + (h1 as int) == (b2 as int) * 0x1_0000_0000_0000_0000 + (h2 as int),
                0 <= h1 < 0x1_0000_0000_0000_0000,
                0 <= h2 < 0x1_0000_0000_0000_0000,
                0 <= b1,
                0 <= b2,
        ;
    }
}

fn make_key(b: usize, h: u64) -> (r: u128)
    ensures
        r == pair_key(b, h),
{
    proof {
        lemma_pair_key(b, h, b, h);
        assert((b as int) * 0x1_0000_0000_0000_0000 <= (usize::MAX as int) * 0x1_0000_0000_0000_0000) by (nonlinear_arith)
            requires b <= usize::MAX;
    }
    (b as u128) * 0x1_0000_0000_0000_0000u128 + (h as u128)
}

/// Counts, for each of `sub_buckets` sub-partitions, the hashes of the reads
/// that fall in it and how many of them are distinct.
pub fn count_sub_buckets(reads: &Vec<ReadHashes>, sub_buckets: usize) -> (r: BucketStats)
    requires
        forall|i: int| 0 <= i < reads@.len() ==> (#[trigger] reads@[i]).sub_bucket < sub_buckets,
        pairs(reads@).len() <= u64::MAX,
    ensures
        r.totals@.len() == sub_buckets,
        r.uniques@.len() == sub_buckets,
        forall|b: int| 0 <= b < sub_buckets ==> r.totals@[b] == total_in(pairs(reads@), b as usize)
            && r.uniques@[b] == distinct_in(pairs(reads@), b as usize).len(),
{
    broadcast use vstd::std_specs::hash::group_hash_axioms;
    broadcast use vstd::set::group_set_axioms;
    let ghost all = pairs(reads@);
    let mut totals: Vec<u64> = Vec::new();
    let mut uniques: Vec<u64> = Vec::new();
    let mut b: usize = 0;
    while b < sub_buckets
        invariant
            b <= sub_buckets,
            totals@.len() == b,
            uniques@.len() == b,
            forall|c: int| 0 <= c < b ==> totals@[c] == 0 && uniques@[c] == 0,
        decreases sub_buckets - b,
    {
        totals.push(0);
        uniques.push(0);
        b += 1;
    }
    let mut seen: HashSet<u128> = HashSet::new();
    let mut i: usize = 0;
    proof {
        lemma_prefix_pairs(reads@, 0);
        assert(reads@.take(0) =~= Seq::<ReadHashes>::empty());
        assert(pairs(reads@.take(0)) =~= Seq::<(usize, u64)>::empty());
    }
    while i < reads.len()
        invariant
            i <= reads@.len(),
            all == pairs(reads@),
            all.len() <= u64::MAX,
            forall|q: int| 0 <= q < reads@.len() ==> (#[trigger] reads@[q]).sub_bucket < sub_buckets,
            totals@.len() == sub_buckets,
            uniques@.len() == sub_buckets,
            is_prefix_of(pairs(reads@.take(i as int)), all),
            forall|c: int| 0 <= c < sub_buckets ==> (#[trigger] totals@[c]) == total_in(pairs(reads@.take(i as int)), c as usize)
                && uniques@[c] == distinct_in(pairs(reads@.take(i as int)), c as usize).len(),
            forall|c: usize, h: u64| c < sub_buckets ==> (seen@.contains(#[trigger] pair_key(c, h))
                <==> distinct_in(pairs(reads@.take(i as int)), c).contains(h)),
        decreases reads@.len() - i,
    {
        let read = &reads[i];
        let sb = read.sub_bucket;
        let ghost base = pairs(reads@.take(i as int));
        let ghost next = pairs(reads@.take(i + 1));
        proof {
            assert(reads@.take(i + 1).drop_last() =~= reads@.take(i as int));
            assert(next == base + read_pairs(sb, read.hashes@));
            lemma_prefix_pairs(reads@, i + 1);
        }
        let mut j: usize = 0;
        proof {
            assert(base + read_pairs(sb, read.hashes@.take(0)) =~= base);
        }
        while j < read.hashes.len()
            invariant
                j <= read.hashes@.len(),
                sb < sub_buckets,
                totals@.len() == sub_buckets,
                uniques@.len() == sub_buckets,
                next == base + read_pairs(sb, read.hashes@),
                is_prefix_of(next, all),
                all.len() <= u64::MAX,
                forall|c: int| 0 <= c < sub_buckets ==> (#[trigger] totals@[c]) == total_in(base + read_pairs(sb, read.hashes@.take(j as int)), c as usize)
                    && uniques@[c] == distinct_in(base + read_pairs(sb, read.hashes@.take(j as int)), c as usize).len(),
                forall|c: usize, h: u64| c < sub_buckets ==> (seen@.contains(#[trigger] pair_key(c, h))
                    <==> distinct_in(base + read_pairs(sb, read.hashes@.take(j as int)), c).contains(h)),
            decreases read.hashes@.len() - j,
        {
            let h = read.hashes[j];
            let ghost cur = base + read_pairs(sb, read.hashes@.take(j as int));
            let ghost cur2 = base + read_pairs(sb, read.hashes@.take(j + 1));
            proof {
                assert(cur2 =~= cur.push((sb, h)));
                assert(cur2.drop_last() =~= cur);
                lemma_counts_bounded(cur, sb);
                lemma_counts_bounded(cur2, sb);
                assert(cur2.len() <= next.len()) by {
                    assert(read_pairs(sb, read.hashes@.take(j + 1)).len() == j + 1);
                }
            }
            let k = make_key(sb, h);
            let ghost t0 = totals@;
            let ghost u0 = uniques@;
            let fresh = seen.insert(k);
            proof {
                assert forall|c: usize, x: u64| c < sub_buckets implies (seen@.contains(#[trigger] pair_key(c, x))
                    <==> distinct_in(cur2, c).contains(x)) by {
                    lemma_pair_key(c, x, sb, h);
                }
                assert(fresh == !distinct_in(cur, sb).contains(h));
            }
            proof {
                assert(t0[sb as int] == total_in(cur, sb));
                assert(u0[sb as int] == distinct_in(cur, sb).len());
            }
            totals.set(sb, totals[sb] + 1);
            if fresh {
                uniques.set(sb, uniques[sb] + 1);
            }
            proof {
                assert forall|c: int| 0 <= c < sub_buckets implies (#[trigger] totals@[c]) == total_in(cur2, c as usize)
                    && uniques@[c] == distinct_in(cur2, c as usize).len() by {
                    lemma_counts_bounded(cur, c as usize);
                    assert(t0[c] == total_in(cur, c as usize));
                    assert(u0[c] == distinct_in(cur, c as usize).len());
                    assert(cur2.last() == (sb, h));
                    if c == sb as int {
                        assert(total_in(cur2, c as usize) == total_in(cur, c as usize) + 1);
                        assert(distinct_in(cur2, c as usize) == distinct_in(cur, c as usize).insert(h));
                    } else {
                        assert(total_in(cur2, c as usize) == total_in(cur, c as usize));
                        assert(distinct_in(cur2, c as usize) == distinct_in(cur, c as usize));
                    }
                }
            }
            j += 1;
        }
        proof {
            assert(read.hashes@.take(j as int) =~= read.hashes@);
        }
        i += 1;
    }
    proof {
        assert(reads@.take(i as int) =~= reads@);
    }
    BucketStats { totals, uniques }
}

pub open spec fn is_prefix_of<T>(p: Seq<T>, f: Seq<T>) -> bool {
    p.len() <= f.len() && f.take(p.len() as int) == p
}

proof fn lemma_prefix_pairs(reads: Seq<ReadHashes>, a: int)
    requires
        0 <= a <= reads.len(),
    ensures
        is_prefix_of(pairs(reads.take(a)), pairs(reads)),
    decreases reads.len(),
{
    if a == reads.len() {
        assert(reads.take(a) =~= reads);
        let f = pairs(reads);
        assert(f.take(f.len() as int) =~= f);
    } else {
        let init = reads.drop_last();
        assert(init.take(a) =~= reads.take(a));
        lemma_prefix_pairs(init, a);
        let p = pairs(reads.take(a));
        assert(pairs(reads).take(p.len() as int) =~= pairs(init).take(p.len() as int));
    }
}

/// The text `(<unique>/<total>)` of each sub-partition, joined by `;`.
pub open spec fn stats_text(uniques: Seq<u64>, totals: Seq<u64>) -> Seq<u8>
    decreases uniques.len(),
{
    if uniques.len() == 0 {
        Seq::empty()
    } else {
        let item = seq![40u8] + decimal_bytes(uniques.last() as nat) + seq![47u8]
            + decimal_bytes(totals[uniques.len() - 1] as nat) + seq![41u8];
        if uniques.len() == 1 {
            item
        } else {
            stats_text(uniques.drop_last(), totals) + seq![59u8] + item
        }
    }
}

/// Formats the counts of every sub-partition on one line.
pub fn format_stats(stats: &BucketStats) -> (r: Vec<u8>)
    requires
        stats.uniques@.len() <= stats.totals@.len(),
    ensures
        r@ == stats_text(stats.uniques@, stats.totals@),
{
    let mut out: Vec<u8> = Vec::new();
    let mut i: usize = 0;
    while i < stats.uniques.len()
        invariant
            i <= stats.uniques@.len() <= stats.totals@.len(),
            out@ == stats_text(stats.uniques@.take(i as int), stats.totals@),
        decreases stats.uniques@.len() - i,
    {
        let ghost before = out@;
        if i > 0 {
            out.push(59u8);
        }
        out.push(40u8);
        write_decimal(&mut out, stats.uniques[i]);
        out.push(47u8);
        write_decimal(&mut out, stats.totals[i]);
        out.push(41u8);
        proof {
            let t = stats.uniques@.take(i + 1);
            assert(t.drop_last() =~= stats.uniques@.take(i as int));
            assert(out@ =~= stats_text(t, stats.totals@));
        }
        i += 1;
    }
    proof {
        assert(stats.uniques@.take(i as int) =~= stats.uniques@);
    }
    out
}

} // verus!
