use crate::bucket_set::{append_record, frame, frames};
use crate::BucketIndexType;
use vstd::prelude::*;

verus! {

/// The output of one partition of the merge phase: reads are stored in
/// order, each under the next read index.
pub struct ResultsBucket {
    read_index: u64,
    reads_writer: Vec<u8>,
    bucket_index: BucketIndexType,
    written: Ghost<Seq<Seq<u8>>>,
}

impl ResultsBucket {
    /// The reads stored so far, in order.
    pub closed spec fn reads(&self) -> Seq<Seq<u8>> {
        self.written@
    }

    /// The index that the next read gets.
    pub closed spec fn next_index(&self) -> u64 {
        self.read_index
    }

    pub closed spec fn spec_bucket_index(&self) -> BucketIndexType {
        self.bucket_index
    }

    pub closed spec fn wf(&self) -> bool {
        &&& self.reads_writer@ == frames(self.written@)
        &&& self.read_index == self.written@.len()
    }

    pub fn new(bucket_index: BucketIndexType) -> (r: Self)
        ensures
            r.wf(),
            r.reads().len() == 0,
            r.spec_bucket_index() == bucket_index,
            r.next_index() == 0,
    {
        let r = ResultsBucket { read_index: 0, reads_writer: Vec::new(), bucket_index, written: Ghost(Seq::empty()) };
        proof {
            assert(r.reads_writer@ =~= frames(Seq::<Seq<u8>>::empty()));
        }
        r
    }

    /// Stores `read` and gives the index under which it was stored.
    pub fn add_read(&mut self, read: &[u8]) -> (r: u64)
        requires
            old(self).wf(),
            old(self).next_index() < u64::MAX,
        ensures
            final(self).wf(),
            r == old(self).next_index(),
            r == old(self).reads().len(),
            final(self).next_index() == old(self).next_index() + 1,
            final(self).reads() == old(self).reads().push(read@),
            final(self).spec_bucket_index() == old(self).spec_bucket_index(),
    {
        let ghost w = self.written@;
        append_record(&mut self.reads_writer, read);
        self.written = Ghost(w.push(read@));
        proof {
            assert(w.push(read@).drop_last() =~= w);
        }
        let read_index = self.read_index;
        self.read_index = self.read_index + 1;
        read_index
    }

    #[verifier::when_used_as_spec(spec_bucket_index)]
    pub fn get_bucket_index(&self) -> (r: BucketIndexType)
        ensures
            r == self.spec_bucket_index(),
    {
        self.bucket_index
    }

    /// Ends the bucket and gives its stored bytes.
    pub fn finalize(self) -> (r: Vec<u8>)
        requires
            self.wf(),
        ensures
            r@ == frames(self.reads()),
    {
        self.reads_writer
    }
}

} // verus!
