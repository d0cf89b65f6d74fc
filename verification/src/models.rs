use vstd::prelude::*;
use crate::markout::{DataSource, MarkoutTime};

verus! {

/// One block's LVR value, in cents, from one source.
#[derive(Clone, Copy, Debug)]
pub struct UnifiedLVRData {
    pub block_number: u64,
    pub lvr_cents: u64,
    pub source: DataSource,
}

/// How many blocks of a cluster were seen at one markout time, and how many
/// of them had a non-zero LVR.
#[derive(Clone, Debug)]
pub struct ClusterBlockActivity {
    pub cluster_name: String,
    pub markout_time: MarkoutTime,
    pub total_blocks: u64,
    pub non_zero_blocks: u64,
}

impl ClusterBlockActivity {
    /// A cluster with no blocks counted yet.
    pub fn new(cluster_name: String, markout_time: MarkoutTime) -> (r: Self)
        ensures
            r.cluster_name@ == cluster_name@,
            r.markout_time == markout_time,
            r.total_blocks == 0,
            r.non_zero_blocks == 0,
    {
        ClusterBlockActivity { cluster_name, markout_time, total_blocks: 0, non_zero_blocks: 0 }
    }

    /// Counts one more block.
    pub fn increment_total(&mut self)
        requires
            old(self).total_blocks < u64::MAX,
        ensures
            final(self).total_blocks == old(self).total_blocks + 1,
            final(self).non_zero_blocks == old(self).non_zero_blocks,
            final(self).cluster_name == old(self).cluster_name,
            final(self).markout_time == old(self).markout_time,
    {
        self.total_blocks = self.total_blocks + 1;
    }

    /// Counts one more block with a non-zero LVR.
    pub fn increment_non_zero(&mut self)
        requires
            old(self).non_zero_blocks < u64::MAX,
        ensures
            final(self).non_zero_blocks == old(self).non_zero_blocks + 1,
            final(self).total_blocks == old(self).total_blocks,
            final(self).cluster_name == old(self).cluster_name,
            final(self).markout_time == old(self).markout_time,
    {
        self.non_zero_blocks = self.non_zero_blocks + 1;
    }
}

/// The largest LVR seen so far and the block where it was first seen.
#[derive(Clone, Copy, Debug)]
pub struct MaxLVRData {
    pub value: u64,
    pub block: u64,
}

/// The data of one chunk for one pool and markout time, waiting to be
/// applied to its checkpoint.
#[derive(Debug)]
pub struct CheckpointUpdate {
    pub pool_address: String,
    pub markout_time: MarkoutTime,
    pub data: Vec<UnifiedLVRData>,
    pub chunk_start: u64,
    pub chunk_end: u64,
}

/// The summary of one interval (a day of blocks) for one pool and markout
/// time.
#[derive(Clone, Debug)]
pub struct IntervalData {
    pub interval_id: u64,
    pub pair_address: String,
    pub markout_time: MarkoutTime,
    pub total_lvr_cents: u64,
    pub max_lvr_cents: u64,
    pub non_zero_count: u64,
    pub total_count: u64,
}

} // verus!

verus! {

/// A signed value as an unsigned one (what `num_traits`' `to_u64` gives):
/// the value when it is not negative.
fn i64_to_u64(x: i64) -> (r: Option<u64>)
    ensures
        r == (if x >= 0 { Some(x as u64) } else { None::<u64> }),
{
    if x >= 0 {
        Some(x as u64)
    } else {
        None
    }
}

/// What a pool accumulates at one markout time over all processed chunks:
/// its largest LVR, its running total, how many blocks fell in each bucket
/// and the last block processed.
#[derive(Debug)]
pub struct Checkpoint {
    pub pair_address: String,
    pub markout_time: MarkoutTime,
    pub max_lvr: MaxLVRData,
    pub running_total: i64,
    pub total_bucket_0: u64,
    pub total_bucket_0_10: u64,
    pub total_bucket_10_100: u64,
    pub total_bucket_100_500: u64,
    pub total_bucket_500_1000: u64,
    pub total_bucket_1000_10000: u64,
    pub total_bucket_10000_plus: u64,
    pub last_updated_block: u64,
}

impl Checkpoint {
    /// The seven bucket counts, from the zero bucket up.
    pub open spec fn spec_buckets(&self) -> Seq<u64> {
        seq![
            self.total_bucket_0,
            self.total_bucket_0_10,
            self.total_bucket_10_100,
            self.total_bucket_100_500,
            self.total_bucket_500_1000,
            self.total_bucket_1000_10000,
            self.total_bucket_10000_plus,
        ]
    }

    /// A checkpoint with nothing counted yet.
    pub fn new(pair_address: String, markout_time: MarkoutTime) -> (r: Self)
        ensures
            r.pair_address@ == pair_address@,
            r.markout_time == markout_time,
            r.max_lvr.value == 0,
            r.max_lvr.block == 0,
            r.running_total == 0,
            forall|k: int| 0 <= k < 7 ==> r.spec_buckets()[k] == 0,
            r.last_updated_block == 0,
    {
        Checkpoint {
            pair_address,
            markout_time,
            max_lvr: MaxLVRData { value: 0, block: 0 },
            running_total: 0,
            total_bucket_0: 0,
            total_bucket_0_10: 0,
            total_bucket_10_100: 0,
            total_bucket_100_500: 0,
            total_bucket_500_1000: 0,
            total_bucket_1000_10000: 0,
            total_bucket_10000_plus: 0,
            last_updated_block: 0,
        }
    }

    /// Records `lvr_cents` at `block_number` as the maximum when it is
    /// strictly larger than the maximum so far.
    pub fn update_max_lvr(&mut self, block_number: u64, lvr_cents: u64)
        ensures
            final(self).max_lvr == (if lvr_cents > old(self).max_lvr.value {
                MaxLVRData { value: lvr_cents, block: block_number }
            } else {
                old(self).max_lvr
            }),
            final(self).pair_address == old(self).pair_address,
            final(self).markout_time == old(self).markout_time,
            final(self).running_total == old(self).running_total,
            final(self).spec_buckets() == old(self).spec_buckets(),
            final(self).last_updated_block == old(self).last_updated_block,
    {
        if lvr_cents > self.max_lvr.value {
            self.max_lvr = MaxLVRData { value: lvr_cents, block: block_number };
        }
    }

    /// The running total, when it is not negative.
    pub fn running_total_u64(&self) -> (r: Option<u64>)
        ensures
            r == (if self.running_total >= 0 { Some(self.running_total as u64) } else { None::<u64> }),
    {
        i64_to_u64(self.running_total)
    }

    /// The number of blocks counted in all buckets, and in the non-zero ones.
    pub fn observation_counts(&self) -> (r: (u64, u64))
        requires
            self.total_bucket_0 + self.total_bucket_0_10 + self.total_bucket_10_100
                + self.total_bucket_100_500 + self.total_bucket_500_1000
                + self.total_bucket_1000_10000 + self.total_bucket_10000_plus <= u64::MAX,
        ensures
            r.0 == self.total_bucket_0 + self.total_bucket_0_10 + self.total_bucket_10_100
                + self.total_bucket_100_500 + self.total_bucket_500_1000
                + self.total_bucket_1000_10000 + self.total_bucket_10000_plus,
            r.1 == r.0 - self.total_bucket_0,
    {
        let total = self.total_bucket_0 + self.total_bucket_0_10 + self.total_bucket_10_100
            + self.total_bucket_100_500 + self.total_bucket_500_1000
            + self.total_bucket_1000_10000 + self.total_bucket_10000_plus;
        (total, total - self.total_bucket_0)
    }
}

} // verus!

verus! {

/// One row of the Aurora LVR table: a block and the JSON details of the
/// simulated arbitrage at one markout index.
#[derive(Clone, Debug)]
pub struct LVRDetails {
    pub block_number: u64,
    pub details: String,
    pub index: u32,
}

/// One LVR event reported by Brontes for a pool, in cents.
#[derive(Clone, Debug)]
pub struct LVRAnalysis {
    pub pool_address: String,
    pub block_number: u64,
    pub lvr_cents: u64,
}

} // verus!
