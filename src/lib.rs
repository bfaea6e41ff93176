//! Verified core of a partitioned assembly pipeline: the encoding of chain
//! link records, load statistics of partitions, resolution of chains, their
//! assembly into sequences, and the decisions that drive the phases.

use vstd::prelude::*;

pub mod bucket_set;
pub mod build_unitigs;
pub mod counters_analyzer;
pub mod debug_bucket_stats;
pub mod links_compaction;
pub mod maximal_unitig_index;
pub mod pipeline;
pub mod results_bucket;
pub mod sequence_bucket;
pub mod varint;
pub mod vec_slice;

verus! {

/// Index of a partition.
pub type BucketIndexType = u16;

} // verus!
