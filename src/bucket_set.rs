use crate::pipeline::{generate_bucket_names, spec_bucket_name};
use crate::varint::{decode_varint, encode_varint, varint_bytes, varint_read};
use vstd::prelude::*;

verus! {

/// How a record is stored: its length, then its bytes.
pub open spec fn frame(r: Seq<u8>) -> Seq<u8> {
    varint_bytes(r.len()) + r
}

/// Records stored one after the other.
pub open spec fn frames(rs: Seq<Seq<u8>>) -> Seq<u8>
    decreases rs.len(),
{
    if rs.len() == 0 {
        Seq::empty()
    } else {
        frames(rs.drop_last()) + frame(rs.last())
    }
}

/// What replaying stored bytes yields: every record up to the end, or `None`
/// where a record is malformed or cut short.
pub open spec fn frames_read(s: Seq<u8>) -> Option<Seq<Seq<u8>>>
    decreases s.len(),
{
    if s.len() == 0 {
        Some(Seq::empty())
    } else {
        match varint_read(s) {
            Some((len, a)) => if a + len <= s.len() && a > 0 {
                match frames_read(s.skip((a + len) as int)) {
                    Some(rest) => Some(seq![s.subrange(a as int, (a + len) as int)] + rest),
                    None => None,
                }
            } else {
                None
            },
            None => None,
        }
    }
}

proof fn lemma_frames_front(rs: Seq<Seq<u8>>)
    requires
        rs.len() > 0,
    ensures
        frames(rs) == frame(rs[0]) + frames(rs.drop_first()),
    decreases rs.len(),
{
    if rs.len() == 1 {
        assert(rs.drop_first() =~= Seq::<Seq<u8>>::empty());
        assert(rs.drop_last() =~= Seq::<Seq<u8>>::empty());
        assert(frames(rs) =~= frame(rs[0]) + frames(rs.drop_first()));
    } else {
        lemma_frames_front(rs.drop_last());
        assert(rs.drop_last().drop_first() =~= rs.drop_first().drop_last());
        assert(rs.drop_last()[0] == rs[0]);
        assert(rs.drop_first().last() == rs.last());
        assert(frames(rs) =~= frame(rs[0]) + frames(rs.drop_first()));
    }
}

/// Records replayed from stored bytes come back as they were written, in
/// order.
pub proof fn lemma_frames_round_trip(rs: Seq<Seq<u8>>)
    requires
        forall|i: int| 0 <= i < rs.len() ==> (#[trigger] rs[i]).len() <= u64::MAX,
    ensures
        frames_read(frames(rs)) == Some(rs),
    decreases rs.len(),
{
    if rs.len() > 0 {
        lemma_frames_front(rs);
        let r = rs[0];
        let rest = frames(rs.drop_first());
        let s = frames(rs);
        assert(r.len() <= u64::MAX);
        crate::varint::lemma_varint_read_round_trip(r.len() as u64, r + rest);
        assert(s =~= varint_bytes(r.len()) + (r + rest));
        let a = varint_bytes(r.len()).len();
        assert(s.subrange(a as int, (a + r.len()) as int) =~= r);
        assert(s.skip((a + r.len()) as int) =~= rest);
        assert forall|i: int| 0 <= i < rs.drop_first().len() implies (#[trigger] rs.drop_first()[i]).len() <= u64::MAX by {
            assert(rs.drop_first()[i] == rs[i + 1]);
        }
        lemma_frames_round_trip(rs.drop_first());
        assert(seq![r] + rs.drop_first() =~= rs);
    } else {
        assert(frames(rs) =~= Seq::<u8>::empty());
    }
}

pub fn append_record(out: &mut Vec<u8>, record: &[u8])
    ensures
        final(out)@ == old(out)@ + frame(record@),
{
    let ghost start = old(out)@;
    encode_varint(out, record.len() as u64);
    let ghost mid = out@;
    let mut i: usize = 0;
    while i < record.len()
        invariant
            i <= record@.len(),
            out@ == mid + record@.take(i as int),
        decreases record@.len() - i,
    {
        out.push(record[i]);
        proof {
            assert(record@.take(i + 1) =~= record@.take(i as int).push(record@[i as int]));
        }
        i += 1;
    }
    proof {
        assert(record@.take(i as int) =~= record@);
        assert(out@ =~= start + frame(record@));
    }
}

fn append_all(out: &mut Vec<u8>, src: &[u8])
    ensures
        final(out)@ == old(out)@ + src@,
{
    let ghost start = old(out)@;
    let mut i: usize = 0;
    while i < src.len()
        invariant
            i <= src@.len(),
            out@ == start + src@.take(i as int),
        decreases src@.len() - i,
    {
        out.push(src[i]);
        proof {
            assert(src@.take(i + 1) =~= src@.take(i as int).push(src@[i as int]));
        }
        i += 1;
    }
    proof {
        assert(src@.take(i as int) =~= src@);
    }
}

/// What a finalized bucket set hands on: a file name per partition, the bytes
/// stored in each and the records written to each.
pub struct FinalizedSet {
    pub files: Vec<Vec<u8>>,
    pub bytes: Vec<u64>,
    pub records: Vec<u64>,
}

/// The file names, byte counts and record counts of partitions holding
/// `written` under names that start with `prefix`.
pub open spec fn spec_finalized(written: Seq<Seq<Seq<u8>>>, prefix: Seq<u8>) -> (Seq<Seq<u8>>, Seq<u64>, Seq<u64>) {
    (
        Seq::new(written.len(), |p: int| spec_bucket_name(prefix, p as nat, None)),
        Seq::new(written.len(), |p: int| frames(written[p]).len() as u64),
        Seq::new(written.len(), |p: int| written[p].len() as u64),
    )
}

pub open spec fn finalized_view(f: FinalizedSet) -> (Seq<Seq<u8>>, Seq<u64>, Seq<u64>) {
    (f.files@.map_values(|v: Vec<u8>| v@), f.bytes@, f.records@)
}

/// Append-only partitions of records: each record goes first to the scratch
/// buffer of its partition, which is moved to the partition once it holds
/// `buffer_size` bytes or when the set is finalized.
pub struct BucketSet {
    prefix: Vec<u8>,
    partitions: Vec<Vec<u8>>,
    buffers: Vec<Vec<u8>>,
    counts: Vec<u64>,
    buffer_size: usize,
    written: Ghost<Seq<Seq<Seq<u8>>>>,
}

impl BucketSet {
    /// The records written to each partition, in the order of writing.
    pub closed spec fn records(&self) -> Seq<Seq<Seq<u8>>> {
        self.written@
    }

    pub closed spec fn name_prefix(&self) -> Seq<u8> {
        self.prefix@
    }

    /// Every scratch buffer has been moved to its partition.
    pub closed spec fn is_flushed(&self) -> bool {
        forall|p: int| 0 <= p < self.buffers@.len() ==> (#[trigger] self.buffers@[p])@.len() == 0
    }

    pub closed spec fn wf(&self) -> bool {
        &&& self.partitions@.len() == self.written@.len()
        &&& self.buffers@.len() == self.written@.len()
        &&& self.counts@.len() == self.written@.len()
        &&& forall|p: int| 0 <= p < self.written@.len() ==>
            (#[trigger] self.partitions@[p])@ + self.buffers@[p]@ == frames(self.written@[p])
            && self.counts@[p] == self.written@[p].len()
    }

    /// A set of `count` empty partitions.
    pub fn new(prefix: &[u8], count: usize, buffer_size: usize) -> (r: Self)
        ensures
            r.wf(),
            r.is_flushed(),
            r.records() == Seq::new(count as nat, |p: int| Seq::<Seq<u8>>::empty()),
            r.name_prefix() == prefix@,
    {
        let mut partitions: Vec<Vec<u8>> = Vec::new();
        let mut buffers: Vec<Vec<u8>> = Vec::new();
        let mut counts: Vec<u64> = Vec::new();
        let mut i: usize = 0;
        while i < count
            invariant
                i <= count,
                partitions@.len() == i,
                buffers@.len() == i,
                counts@.len() == i,
                forall|p: int| 0 <= p < i ==> (#[trigger] partitions@[p])@.len() == 0 && buffers@[p]@.len() == 0 && counts@[p] == 0,
            decreases count - i,
        {
            partitions.push(Vec::new());
            buffers.push(Vec::new());
            counts.push(0);
            i += 1;
        }
        let mut p: Vec<u8> = Vec::new();
        append_all(&mut p, prefix);
        let r = BucketSet {
            prefix: p,
            partitions,
            buffers,
            counts,
            buffer_size,
            written: Ghost(Seq::new(count as nat, |p: int| Seq::<Seq<u8>>::empty())),
        };
        proof {
            assert(r.prefix@ =~= prefix@);
            assert forall|q: int| 0 <= q < r.buffers@.len() implies (#[trigger] r.buffers@[q])@.len() == 0 by {
                assert(r.partitions@[q]@.len() == 0);
            }
            assert forall|q: int| 0 <= q < count implies (#[trigger] r.partitions@[q])@ + r.buffers@[q]@ == frames(r.written@[q]) by {
                assert(r.partitions@[q]@ + r.buffers@[q]@ =~= Seq::<u8>::empty());
            }
        }
        r
    }

    pub fn partition_count(&self) -> (r: usize)
        requires
            self.wf(),
        ensures
            r == self.records().len(),
    {
        self.partitions.len()
    }

    /// Appends `record` to partition `bucket`.
    pub fn add_record(&mut self, bucket: usize, record: &[u8])
        requires
            old(self).wf(),
            bucket < old(self).records().len(),
            old(self).records()[bucket as int].len() < u64::MAX,
        ensures
            final(self).wf(),
            final(self).records() == old(self).records().update(bucket as int, old(self).records()[bucket as int].push(record@)),
            final(self).name_prefix() == old(self).name_prefix(),
    {
        let ghost w = self.written@;
        proof {
            assert(self.partitions@[bucket as int]@ + self.buffers@[bucket as int]@ == frames(w[bucket as int]));
        }
        append_record(&mut self.buffers[bucket], record);
        let c = self.counts[bucket];
        self.counts.set(bucket, c + 1);
        self.written = Ghost(w.update(bucket as int, w[bucket as int].push(record@)));
        proof {
            let rs = w[bucket as int].push(record@);
            assert(rs.drop_last() =~= w[bucket as int]);
            assert(self.partitions@[bucket as int]@ + self.buffers@[bucket as int]@ =~= frames(rs));
        }
        if self.buffers[bucket].len() >= self.buffer_size {
            self.flush(bucket);
        }
    }

    fn flush(&mut self, bucket: usize)
        requires
            old(self).wf(),
            bucket < old(self).records().len(),
        ensures
            final(self).wf(),
            final(self).records() == old(self).records(),
            final(self).name_prefix() == old(self).name_prefix(),
            final(self).buffers@[bucket as int]@.len() == 0,
            final(self).buffers@.len() == old(self).buffers@.len(),
            forall|p: int| 0 <= p < final(self).buffers@.len() && p != bucket ==> (#[trigger] final(self).buffers@[p])@ == old(self).buffers@[p]@,
    {
        let mut buf: Vec<u8> = Vec::new();
        std::mem::swap(&mut buf, &mut self.buffers[bucket]);
        append_all(&mut self.partitions[bucket], buf.as_slice());
        proof {
            let p = bucket as int;
            assert(self.partitions@[p]@ + self.buffers@[p]@ =~= old(self).partitions@[p]@ + old(self).buffers@[p]@);
        }
    }

    /// Moves every scratch buffer to its partition and gives the file names and
    /// counts. The result depends on what was written alone, so finalizing
    /// again gives the same.
    pub fn finalize(&mut self) -> (r: FinalizedSet)
        requires
            old(self).wf(),
        ensures
            final(self).wf(),
            final(self).is_flushed(),
            final(self).records() == old(self).records(),
            final(self).name_prefix() == old(self).name_prefix(),
            finalized_view(r) == spec_finalized(old(self).records(), old(self).name_prefix()),
    {
        let n = self.partitions.len();
        let mut b: usize = 0;
        while b < n
            invariant
                self.wf(),
                n == self.records().len(),
                b <= n,
                self.records() == old(self).records(),
                self.name_prefix() == old(self).name_prefix(),
                forall|p: int| 0 <= p < b ==> (#[trigger] self.buffers@[p])@.len() == 0,
            decreases n - b,
        {
            self.flush(b);
            b += 1;
        }
        let files = generate_bucket_names(self.prefix.as_slice(), n as u64, None);
        let mut bytes: Vec<u64> = Vec::new();
        let mut records: Vec<u64> = Vec::new();
        let mut p: usize = 0;
        while p < n
            invariant
                self.wf(),
                self.is_flushed(),
                n == self.records().len(),
                p <= n,
                bytes@.len() == p,
                records@.len() == p,
                forall|q: int| 0 <= q < p ==> (#[trigger] bytes@[q]) == frames(self.records()[q]).len() as u64,
                forall|q: int| 0 <= q < p ==> (#[trigger] records@[q]) == self.records()[q].len() as u64,
            decreases n - p,
        {
            proof {
                assert(self.partitions@[p as int]@ + self.buffers@[p as int]@ == frames(self.written@[p as int]));
                assert(self.partitions@[p as int]@ =~= frames(self.written@[p as int]));
            }
            bytes.push(self.partitions[p].len() as u64);
            records.push(self.counts[p]);
            p += 1;
        }
        let r = FinalizedSet { files, bytes, records };
        proof {
            let (f, by, re) = spec_finalized(self.records(), self.name_prefix());
            assert(r.files@.map_values(|v: Vec<u8>| v@) =~= f);
            assert(r.bytes@ =~= by);
            assert(r.records@ =~= re);
        }
        r
    }

    /// The bytes stored for partition `bucket`, once the set is flushed.
    pub fn partition_data(&self, bucket: usize) -> (r: &Vec<u8>)
        requires
            self.wf(),
            self.is_flushed(),
            bucket < self.records().len(),
        ensures
            r@ == frames(self.records()[bucket as int]),
    {
        proof {
            assert(self.partitions@[bucket as int]@ + self.buffers@[bucket as int]@ == frames(self.written@[bucket as int]));
            assert(self.partitions@[bucket as int]@ =~= frames(self.written@[bucket as int]));
        }
        &self.partitions[bucket]
    }
}

/// Finalizing keeps what was written and the names, and the result of
/// finalizing depends on those alone: two finalizations with no write
/// between them give the same files and counts.
pub proof fn lemma_finalize_idempotent(before: BucketSet, after: BucketSet)
    requires
        after.records() == before.records(),
        after.name_prefix() == before.name_prefix(),
    ensures
        spec_finalized(after.records(), after.name_prefix()) == spec_finalized(before.records(), before.name_prefix()),
{
}

pub open spec fn records_view(v: Seq<Vec<u8>>) -> Seq<Seq<u8>> {
    v.map_values(|x: Vec<u8>| x@)
}

/// Replays stored bytes into their records.
pub fn read_records(bytes: &[u8]) -> (r: Option<Vec<Vec<u8>>>)
    ensures
        r is None <==> frames_read(bytes@) is None,
        r matches Some(v) ==> frames_read(bytes@) == Some(records_view(v@)),
{
    let n = bytes.len();
    let mut out: Vec<Vec<u8>> = Vec::new();
    let mut pos: usize = 0;
    proof {
        assert(bytes@.skip(0) =~= bytes@);
        match frames_read(bytes@) {
            Some(x) => { assert(records_view(out@) + x =~= x); },
            None => {},
        }
    }
    while pos < n
        invariant
            n == bytes@.len(),
            pos <= n,
            frames_read(bytes@) == (match frames_read(bytes@.skip(pos as int)) {
                Some(rest) => Some(records_view(out@) + rest),
                None => None::<Seq<Seq<u8>>>,
            }),
        decreases n - pos,
    {
        let ghost s = bytes@.skip(pos as int);
        let (len, a) = match decode_varint(bytes, pos) {
            Some(p) => p,
            None => return None,
        };
        if len > (n - pos - a) as u64 || a == 0 {
            return None;
        }
        let start = pos + a;
        let end = start + len as usize;
        let mut rec: Vec<u8> = Vec::new();
        let mut i: usize = start;
        while i < end
            invariant
                start <= i <= end <= n,
                n == bytes@.len(),
                rec@ == bytes@.subrange(start as int, i as int),
            decreases end - i,
        {
            rec.push(bytes[i]);
            proof {
                assert(bytes@.subrange(start as int, i + 1) =~= bytes@.subrange(start as int, i as int).push(bytes@[i as int]));
            }
            i += 1;
        }
        let ghost before = out@;
        out.push(rec);
        proof {
            assert(s.subrange(a as int, (a + len) as int) =~= bytes@.subrange(start as int, end as int));
            assert(bytes@.skip(end as int) =~= s.skip((a + len) as int));
            assert(records_view(out@) =~= records_view(before).push(rec@));
            match frames_read(bytes@.skip(end as int)) {
                Some(x) => {
                    assert(records_view(before) + (seq![rec@] + x) =~= records_view(out@) + x);
                },
                None => {},
            }
        }
        pos = end;
    }
    proof {
        assert(bytes@.skip(pos as int) =~= Seq::<u8>::empty());
        assert(records_view(out@) + Seq::<Seq<u8>>::empty() =~= records_view(out@));
    }
    Some(out)
}

} // verus!
