use vstd::prelude::*;
use crate::blocks::{
    block_values, compute_block_stats, interval_rows, spec_block_values, spec_interval_count,
    spec_bucket_count, spec_is_block_stats, spec_is_interval_rows, spec_part, spec_sum, BlockStats, BLOCKS_PER_DAY,
};
use crate::markout::{DataSource, MarkoutTime};
use crate::models::{Checkpoint, CheckpointUpdate, IntervalData, LVRAnalysis, MaxLVRData, UnifiedLVRData};
use crate::pools::{get_deployment_block, get_valid_pools, spec_deployment_block, spec_pool_addresses};
use crate::text::{eq_lower, eq_str, spec_lower};

verus! {

/// Intervals per interval file.
pub const INTERVALS_PER_FILE: u64 = 30;

/// Blocks per processing chunk: the blocks of one interval file.
pub const BLOCKS_PER_CHUNK: u64 = 216000;

/// The first block of a chunk that a pool deployed at `deployment` covers.
pub open spec fn spec_effective_start(chunk_start: u64, deployment: u64) -> u64 {
    if chunk_start >= deployment { chunk_start } else { deployment }
}

/// The blocks of `[chunk_start, chunk_end)` that a pool deployed at
/// `deployment_block` covers, if there are any.
pub fn effective_range(chunk_start: u64, chunk_end: u64, deployment_block: u64) -> (r: Option<(u64, u64)>)
    ensures
        r == (if spec_effective_start(chunk_start, deployment_block) < chunk_end {
            Some((spec_effective_start(chunk_start, deployment_block), chunk_end))
        } else {
            None::<(u64, u64)>
        }),
{
    let start = if chunk_start >= deployment_block { chunk_start } else { deployment_block };
    if start >= chunk_end {
        None
    } else {
        Some((start, chunk_end))
    }
}

/// `after` holds, over a maximum, running total, bucket counts and last
/// block, the statistics of a chunk ending at `chunk_end` applied: the
/// larger maximum, the totals and bucket counts added (with the wrap-around
/// of atomic additions), and the last block raised to the chunk's last
/// block.
pub open spec fn spec_applied_from(
    max_lvr: MaxLVRData,
    running_total: i64,
    buckets: Seq<u64>,
    last_updated_block: u64,
    stats: BlockStats,
    chunk_end: u64,
    after: Checkpoint,
) -> bool {
    &&& after.max_lvr == (if stats.max_lvr > max_lvr.value {
        MaxLVRData { value: stats.max_lvr, block: stats.max_lvr_block }
    } else {
        max_lvr
    })
    &&& after.running_total == vstd::wrapping::i64_specs::wrapping_add(running_total, stats.running_total)
    &&& forall|k: int| 0 <= k < 7 ==> #[trigger] after.spec_buckets()[k]
        == vstd::wrapping::u64_specs::wrapping_add(buckets[k], stats.buckets@[k])
    &&& after.last_updated_block == (if last_updated_block >= (chunk_end - 1) as u64 {
        last_updated_block
    } else {
        (chunk_end - 1) as u64
    })
}

/// `after` is `before` with the statistics of a chunk ending at `chunk_end`
/// applied (see `spec_applied_from`).
pub open spec fn spec_applied(before: Checkpoint, stats: BlockStats, chunk_end: u64, after: Checkpoint) -> bool {
    &&& after.pair_address == before.pair_address
    &&& after.markout_time == before.markout_time
    &&& spec_applied_from(
        before.max_lvr,
        before.running_total,
        before.spec_buckets(),
        before.last_updated_block,
        stats,
        chunk_end,
        after,
    )
}

/// `after` is a new checkpoint of `pool` at `m` with the statistics of a
/// chunk ending at `chunk_end` applied.
pub open spec fn spec_applied_to_new(
    pool: Seq<char>,
    m: MarkoutTime,
    stats: BlockStats,
    chunk_end: u64,
    after: Checkpoint,
) -> bool {
    &&& after.pair_address@ == pool
    &&& after.markout_time == m
    &&& spec_applied_from(
        MaxLVRData { value: 0, block: 0 },
        0,
        seq![0u64, 0u64, 0u64, 0u64, 0u64, 0u64, 0u64],
        0,
        stats,
        chunk_end,
        after,
    )
}

/// All seven bucket counters of a checkpoint, added up.
pub open spec fn spec_bucket_total(c: Checkpoint) -> int {
    c.total_bucket_0 + c.total_bucket_0_10 + c.total_bucket_10_100 + c.total_bucket_100_500
        + c.total_bucket_500_1000 + c.total_bucket_1000_10000 + c.total_bucket_10000_plus
}

/// Every value falls in exactly one of the seven buckets.
pub proof fn lemma_bucket_counts_cover(vals: Seq<u64>)
    ensures
        spec_bucket_count(vals, 0) + spec_bucket_count(vals, 1) + spec_bucket_count(vals, 2)
            + spec_bucket_count(vals, 3) + spec_bucket_count(vals, 4) + spec_bucket_count(vals, 5)
            + spec_bucket_count(vals, 6) == vals.len(),
    decreases vals.len(),
{
    if vals.len() > 0 {
        lemma_bucket_counts_cover(vals.drop_last());
    }
}

/// Updating a checkpoint with a chunk, as long as no counter wraps around:
/// its bucket counters grow in total by the number of blocks covered, the
/// zero bucket by the covered blocks without a positive value, the running
/// total by the sum of the covered values, and its last block becomes the
/// later of its own and the chunk's last.
pub proof fn lemma_checkpoint_chunk_update(
    before: Checkpoint,
    data: Seq<UnifiedLVRData>,
    lo: u64,
    chunk_end: u64,
    stats: BlockStats,
    after: Checkpoint,
)
    requires
        lo < chunk_end,
        spec_is_block_stats(stats, spec_block_values(data, lo as int, chunk_end as int), lo as int),
        spec_applied(before, stats, chunk_end, after),
        forall|k: int| 0 <= k < 7 ==> before.spec_buckets()[k] + stats.buckets@[k] <= u64::MAX,
        i64::MIN <= before.running_total + stats.running_total <= i64::MAX,
    ensures
        spec_bucket_total(after) == spec_bucket_total(before) + (chunk_end - lo),
        after.total_bucket_0 == before.total_bucket_0
            + spec_bucket_count(spec_block_values(data, lo as int, chunk_end as int), 0),
        after.running_total == before.running_total + spec_sum(spec_block_values(data, lo as int, chunk_end as int)),
        after.last_updated_block == (if before.last_updated_block >= chunk_end - 1 {
            before.last_updated_block
        } else {
            (chunk_end - 1) as u64
        }),
{
    let vals = spec_block_values(data, lo as int, chunk_end as int);
    lemma_bucket_counts_cover(vals);
    let b = before.spec_buckets();
    let a = after.spec_buckets();
    assert forall|k: int| 0 <= k < 7 implies #[trigger] a[k] == b[k] + stats.buckets@[k] by {
        assert(b[k] + stats.buckets@[k] <= u64::MAX);
    }
    assert(a[0] == b[0] + stats.buckets@[0]);
    assert(a[1] == b[1] + stats.buckets@[1]);
    assert(a[2] == b[2] + stats.buckets@[2]);
    assert(a[3] == b[3] + stats.buckets@[3]);
    assert(a[4] == b[4] + stats.buckets@[4]);
    assert(a[5] == b[5] + stats.buckets@[5]);
    assert(a[6] == b[6] + stats.buckets@[6]);
    assert(stats.buckets@[0] == spec_bucket_count(vals, 0));
    assert(stats.buckets@[1] == spec_bucket_count(vals, 1));
    assert(stats.buckets@[2] == spec_bucket_count(vals, 2));
    assert(stats.buckets@[3] == spec_bucket_count(vals, 3));
    assert(stats.buckets@[4] == spec_bucket_count(vals, 4));
    assert(stats.buckets@[5] == spec_bucket_count(vals, 5));
    assert(stats.buckets@[6] == spec_bucket_count(vals, 6));
}

/// Applies the statistics of a chunk ending at `chunk_end` to a checkpoint.
pub fn apply_block_stats(checkpoint: &mut Checkpoint, stats: &BlockStats, chunk_end: u64)
    requires
        stats.buckets.len() == 7,
        chunk_end >= 1,
    ensures
        spec_applied(*old(checkpoint), *stats, chunk_end, *final(checkpoint)),
{
    checkpoint.update_max_lvr(stats.max_lvr_block, stats.max_lvr);
    checkpoint.running_total = checkpoint.running_total.wrapping_add(stats.running_total);
    checkpoint.total_bucket_0 = checkpoint.total_bucket_0.wrapping_add(stats.buckets[0]);
    checkpoint.total_bucket_0_10 = checkpoint.total_bucket_0_10.wrapping_add(stats.buckets[1]);
    checkpoint.total_bucket_10_100 = checkpoint.total_bucket_10_100.wrapping_add(stats.buckets[2]);
    checkpoint.total_bucket_100_500 = checkpoint.total_bucket_100_500.wrapping_add(stats.buckets[3]);
    checkpoint.total_bucket_500_1000 = checkpoint.total_bucket_500_1000.wrapping_add(stats.buckets[4]);
    checkpoint.total_bucket_1000_10000 = checkpoint.total_bucket_1000_10000.wrapping_add(stats.buckets[5]);
    checkpoint.total_bucket_10000_plus = checkpoint.total_bucket_10000_plus.wrapping_add(stats.buckets[6]);
    let last = chunk_end - 1;
    if last > checkpoint.last_updated_block {
        checkpoint.last_updated_block = last;
    }
}

/// The checkpoints of all pools and markout times, one per pair of them.
#[derive(Debug)]
pub struct CheckpointSet {
    pub checkpoints: Vec<Checkpoint>,
}

impl CheckpointSet {
    /// The index of the checkpoint of `pool` at markout time `m`, if any.
    pub open spec fn spec_index_of(&self, pool: Seq<char>, m: MarkoutTime) -> Option<int> {
        if exists|i: int| 0 <= i < self.checkpoints.len()
            && (#[trigger] self.checkpoints@[i]).pair_address@ == pool
            && self.checkpoints@[i].markout_time == m {
            Some(choose|i: int| 0 <= i < self.checkpoints.len()
                && (#[trigger] self.checkpoints@[i]).pair_address@ == pool
                && self.checkpoints@[i].markout_time == m)
        } else {
            None
        }
    }

    /// No two checkpoints share their pool and markout time.
    pub open spec fn wf(&self) -> bool {
        forall|i: int, j: int| 0 <= i < j < self.checkpoints.len()
            ==> !((#[trigger] self.checkpoints@[i]).pair_address@ == (#[trigger] self.checkpoints@[j]).pair_address@
                && self.checkpoints@[i].markout_time == self.checkpoints@[j].markout_time)
    }

    /// An empty set.
    pub fn new() -> (r: Self)
        ensures
            r.wf(),
            r.checkpoints.len() == 0,
    {
        CheckpointSet { checkpoints: Vec::new() }
    }

    /// The index of the checkpoint of `pool` at `markout_time`, if there
    /// is one.
    pub fn find(&self, pool: &str, markout_time: MarkoutTime) -> (r: Option<usize>)
        requires
            self.wf(),
        ensures
            match r {
                Some(i) => self.spec_index_of(pool@, markout_time) == Some(i as int),
                None => self.spec_index_of(pool@, markout_time) is None,
            },
    {
        let mut i: usize = 0;
        while i < self.checkpoints.len()
            invariant
                i <= self.checkpoints.len(),
                self.wf(),
                forall|q: int| 0 <= q < i ==> !((#[trigger] self.checkpoints@[q]).pair_address@ == pool@
                    && self.checkpoints@[q].markout_time == markout_time),
            decreases self.checkpoints.len() - i,
        {
            let c = &self.checkpoints[i];
            if c.markout_time == markout_time && eq_str(c.pair_address.as_str(), pool) {
                proof {
                    let q = choose|q: int| 0 <= q < self.checkpoints.len()
                        && (#[trigger] self.checkpoints@[q]).pair_address@ == pool@
                        && self.checkpoints@[q].markout_time == markout_time;
                    if q != i {
                        if q < i {
                        } else {
                            assert(!(self.checkpoints@[i as int].pair_address@ == self.checkpoints@[q].pair_address@
                                && self.checkpoints@[i as int].markout_time == self.checkpoints@[q].markout_time));
                        }
                    }
                }
                return Some(i);
            }
            i = i + 1;
        }
        None
    }
}

} // verus!

verus! {

/// A copy of a checkpoint.
fn copy_checkpoint(c: &Checkpoint) -> (r: Checkpoint)
    ensures
        r == *c,
{
    Checkpoint {
        pair_address: c.pair_address.clone(),
        markout_time: c.markout_time,
        max_lvr: c.max_lvr,
        running_total: c.running_total,
        total_bucket_0: c.total_bucket_0,
        total_bucket_0_10: c.total_bucket_0_10,
        total_bucket_10_100: c.total_bucket_10_100,
        total_bucket_100_500: c.total_bucket_100_500,
        total_bucket_500_1000: c.total_bucket_500_1000,
        total_bucket_1000_10000: c.total_bucket_1000_10000,
        total_bucket_10000_plus: c.total_bucket_10000_plus,
        last_updated_block: c.last_updated_block,
    }
}

impl CheckpointSet {
    /// Applies one chunk of a pool's data at one markout time to its
    /// checkpoint. The blocks covered are those of the chunk from the pool's
    /// deployment on; when there are none, nothing changes. Otherwise the
    /// checkpoint is created if missing, the statistics of the covered
    /// blocks are applied to it, and its index and those statistics (whose
    /// positive values feed the pool's digest) are returned.
    pub fn update_checkpoint(
        &mut self,
        pool_address: &String,
        markout_time: MarkoutTime,
        data: &Vec<UnifiedLVRData>,
        chunk_start: u64,
        chunk_end: u64,
    ) -> (r: Option<(usize, BlockStats)>)
        requires
            old(self).wf(),
            ({
                let lo = spec_effective_start(chunk_start, spec_deployment_block(pool_address@));
                lo < chunk_end ==> {
                    &&& chunk_end - lo <= usize::MAX
                    &&& spec_sum(spec_block_values(data@, lo as int, chunk_end as int)) <= i64::MAX
                }
            }),
        ensures
            final(self).wf(),
            ({
                let lo = spec_effective_start(chunk_start, spec_deployment_block(pool_address@));
                let vals = spec_block_values(data@, lo as int, chunk_end as int);
                if lo >= chunk_end {
                    &&& r is None
                    &&& final(self).checkpoints@ == old(self).checkpoints@
                } else {
                    &&& r is Some
                    &&& spec_is_block_stats(r.unwrap().1, vals, lo as int)
                    &&& match old(self).spec_index_of(pool_address@, markout_time) {
                        Some(j) => {
                            &&& r.unwrap().0 == j
                            &&& final(self).checkpoints.len() == old(self).checkpoints.len()
                            &&& forall|q: int| 0 <= q < old(self).checkpoints.len() && q != j
                                ==> final(self).checkpoints@[q] == old(self).checkpoints@[q]
                            &&& spec_applied(old(self).checkpoints@[j], r.unwrap().1, chunk_end,
                                final(self).checkpoints@[j])
                        },
                        None => {
                            &&& r.unwrap().0 == old(self).checkpoints.len()
                            &&& final(self).checkpoints.len() == old(self).checkpoints.len() + 1
                            &&& forall|q: int| 0 <= q < old(self).checkpoints.len()
                                ==> final(self).checkpoints@[q] == old(self).checkpoints@[q]
                            &&& spec_applied_to_new(pool_address@, markout_time, r.unwrap().1, chunk_end,
                                final(self).checkpoints@[r.unwrap().0 as int])
                        },
                    }
                }
            }),
    {
        let deployment_block = get_deployment_block(pool_address.as_str());
        let (lo, hi) = match effective_range(chunk_start, chunk_end, deployment_block) {
            None => return None,
            Some(range) => range,
        };
        let index = match self.find(pool_address.as_str(), markout_time) {
            Some(i) => i,
            None => {
                let fresh = Checkpoint::new(pool_address.clone(), markout_time);
                self.checkpoints.push(fresh);
                proof {
                    assert forall|i: int, j: int| 0 <= i < j < self.checkpoints.len()
                        implies !((#[trigger] self.checkpoints@[i]).pair_address@ == (#[trigger] self.checkpoints@[j]).pair_address@
                            && self.checkpoints@[i].markout_time == self.checkpoints@[j].markout_time) by {
                        if j == self.checkpoints.len() - 1 {
                            assert(old(self).spec_index_of(pool_address@, markout_time) is None);
                            assert(self.checkpoints@[i] == old(self).checkpoints@[i]);
                        } else {
                            assert(self.checkpoints@[i] == old(self).checkpoints@[i]);
                            assert(self.checkpoints@[j] == old(self).checkpoints@[j]);
                        }
                    }
                }
                self.checkpoints.len() - 1
            },
        };
        let vals = block_values(data, lo, hi);
        let stats = compute_block_stats(&vals, lo);
        let mut updated = copy_checkpoint(&self.checkpoints[index]);
        apply_block_stats(&mut updated, &stats, hi);
        let ghost mid = self.checkpoints@;
        self.checkpoints.set(index, updated);
        proof {
            assert forall|i: int, j: int| 0 <= i < j < self.checkpoints.len()
                implies !((#[trigger] self.checkpoints@[i]).pair_address@ == (#[trigger] self.checkpoints@[j]).pair_address@
                    && self.checkpoints@[i].markout_time == self.checkpoints@[j].markout_time) by {
                assert(self.checkpoints@[i].pair_address == mid[i].pair_address);
                assert(self.checkpoints@[j].pair_address == mid[j].pair_address);
            }
        }
        Some((index, stats))
    }
}

} // verus!

verus! {

/// The interval summaries of one chunk of a pool's data at one markout
/// time: the blocks of the chunk from the pool's deployment on, cut into
/// days counted from the chunk's start, in day order. A chunk the pool does
/// not cover gives no rows.
pub fn calculate_interval_metrics(
    chunk_start: u64,
    chunk_end: u64,
    pool_address: &String,
    markout_time: MarkoutTime,
    data: &Vec<UnifiedLVRData>,
) -> (r: Vec<IntervalData>)
    requires
        chunk_end <= u64::MAX - BLOCKS_PER_DAY,
        ({
            let lo = spec_effective_start(chunk_start, spec_deployment_block(pool_address@));
            let vals = spec_block_values(data@, lo as int, chunk_end as int);
            lo < chunk_end ==> {
                &&& chunk_end - lo <= usize::MAX
                &&& forall|j: int|
                    0 <= j < spec_interval_count(chunk_start as int, lo as int, chunk_end as int)
                        ==> spec_sum(#[trigger] spec_part(vals, chunk_start as int, lo as int, chunk_end as int, j))
                        <= u64::MAX
            }
        }),
    ensures
        ({
            let lo = spec_effective_start(chunk_start, spec_deployment_block(pool_address@));
            let vals = spec_block_values(data@, lo as int, chunk_end as int);
            if lo >= chunk_end {
                r.len() == 0
            } else {
                spec_is_interval_rows(
                    r@,
                    vals,
                    chunk_start as int,
                    lo as int,
                    chunk_end as int,
                    pool_address@,
                    markout_time,
                )
            }
        }),
{
    let deployment_block = get_deployment_block(pool_address.as_str());
    match effective_range(chunk_start, chunk_end, deployment_block) {
        None => Vec::new(),
        Some((lo, hi)) => {
            let vals = block_values(data, lo, hi);
            interval_rows(&vals, chunk_start, lo, hi, pool_address, markout_time)
        },
    }
}

/// Applying a chunk's statistics to a checkpoint moves it exactly by the
/// interval rows written for the same chunk, as long as no count wraps
/// around: the running total by the rows' totals, the non-zero buckets by
/// the rows' non-zero counts, all buckets by the rows' block counts, the
/// zero bucket by the rows' zero blocks, and the maximum to the larger of
/// the old maximum and the rows' largest maximum.
pub proof fn lemma_checkpoint_tracks_interval_rows(
    before: Checkpoint,
    after: Checkpoint,
    stats: BlockStats,
    rows: Seq<IntervalData>,
    vals: Seq<u64>,
    chunk_start: int,
    lo: int,
    hi: int,
)
    requires
        chunk_start <= lo < hi,
        hi <= u64::MAX,
        vals.len() == hi - lo,
        spec_is_block_stats(stats, vals, lo),
        spec_is_interval_rows(rows, vals, chunk_start, lo, hi, before.pair_address@, before.markout_time),
        spec_applied(before, stats, hi as u64, after),
        i64::MIN <= before.running_total + stats.running_total <= i64::MAX,
        forall|k: int| 0 <= k < 7 ==> #[trigger] before.spec_buckets()[k] + stats.buckets@[k] <= u64::MAX,
    ensures
        after.running_total == before.running_total + crate::blocks::spec_rows_total(rows),
        crate::blocks::spec_bucket_sum(after.spec_buckets(), 1, 7)
            == crate::blocks::spec_bucket_sum(before.spec_buckets(), 1, 7)
            + crate::blocks::spec_rows_non_zero(rows),
        crate::blocks::spec_bucket_sum(after.spec_buckets(), 0, 7)
            == crate::blocks::spec_bucket_sum(before.spec_buckets(), 0, 7)
            + crate::blocks::spec_rows_count(rows),
        after.total_bucket_0 == before.total_bucket_0 + crate::blocks::spec_rows_count(rows)
            - crate::blocks::spec_rows_non_zero(rows),
        after.max_lvr.value == (if crate::blocks::spec_rows_max(rows) > before.max_lvr.value {
            crate::blocks::spec_rows_max(rows)
        } else {
            before.max_lvr.value as int
        }),
{
    crate::blocks::lemma_rows_agree_with_stats(
        rows,
        stats,
        vals,
        chunk_start,
        lo,
        hi,
        before.pair_address@,
        before.markout_time,
    );
    let a = after.spec_buckets();
    let b = before.spec_buckets();
    let s = stats.buckets@;
    assert forall|k: int| 0 <= k < 7 implies #[trigger] a[k] == b[k] + s[k] by {
        assert(before.spec_buckets()[k] + stats.buckets@[k] <= u64::MAX);
    }
    assert(crate::blocks::spec_bucket_sum(a, 1, 7) == a[1] + a[2] + a[3] + a[4] + a[5] + a[6]) by {
        reveal_with_fuel(crate::blocks::spec_bucket_sum, 7);
    }
    assert(crate::blocks::spec_bucket_sum(b, 1, 7) == b[1] + b[2] + b[3] + b[4] + b[5] + b[6]) by {
        reveal_with_fuel(crate::blocks::spec_bucket_sum, 7);
    }
    assert(crate::blocks::spec_bucket_sum(s, 1, 7) == s[1] + s[2] + s[3] + s[4] + s[5] + s[6]) by {
        reveal_with_fuel(crate::blocks::spec_bucket_sum, 7);
    }
    assert(crate::blocks::spec_bucket_sum(a, 0, 7) == a[0] + a[1] + a[2] + a[3] + a[4] + a[5] + a[6]) by {
        reveal_with_fuel(crate::blocks::spec_bucket_sum, 8);
    }
    assert(crate::blocks::spec_bucket_sum(b, 0, 7) == b[0] + b[1] + b[2] + b[3] + b[4] + b[5] + b[6]) by {
        reveal_with_fuel(crate::blocks::spec_bucket_sum, 8);
    }
    assert(crate::blocks::spec_bucket_sum(s, 0, 7) == s[0] + s[1] + s[2] + s[3] + s[4] + s[5] + s[6]) by {
        reveal_with_fuel(crate::blocks::spec_bucket_sum, 8);
    }
    assert(a[0] == after.total_bucket_0);
    assert(b[0] == before.total_bucket_0);
}

} // verus!

verus! {

/// The number of chunks that cover `[start_block, end_block)`.
pub open spec fn spec_total_chunks(start_block: u64, end_block: u64) -> int {
    ((end_block - start_block) + BLOCKS_PER_CHUNK - 1) / (BLOCKS_PER_CHUNK as int)
}

/// The blocks of chunk `idx` of `[start_block, end_block)`.
pub open spec fn spec_chunk_bounds(start_block: u64, end_block: u64, idx: int) -> (int, int) {
    let s = start_block + idx * BLOCKS_PER_CHUNK;
    (s, if s + BLOCKS_PER_CHUNK < end_block { s + BLOCKS_PER_CHUNK } else { end_block as int })
}

/// How many chunks of `BLOCKS_PER_CHUNK` blocks cover `[start_block,
/// end_block)` (the last one may be shorter).
pub fn total_chunks(start_block: u64, end_block: u64) -> (r: u64)
    requires
        start_block <= end_block,
        end_block - start_block + BLOCKS_PER_CHUNK <= u64::MAX,
    ensures
        r == spec_total_chunks(start_block, end_block),
{
    (end_block - start_block + BLOCKS_PER_CHUNK - 1) / BLOCKS_PER_CHUNK
}

/// The first and the end (exclusive) block of chunk `chunk_idx`.
pub fn chunk_bounds(start_block: u64, end_block: u64, chunk_idx: u64) -> (r: (u64, u64))
    requires
        start_block <= end_block,
        end_block <= u64::MAX - BLOCKS_PER_CHUNK,
        chunk_idx < spec_total_chunks(start_block, end_block),
    ensures
        (r.0 as int, r.1 as int) == spec_chunk_bounds(start_block, end_block, chunk_idx as int),
{
    proof {
        let n = end_block - start_block;
        assert(chunk_idx * 216000 <= n + 215999 - 216000) by (nonlinear_arith)
            requires
                chunk_idx < (n + 215999) / 216000,
                n >= 0,
        ;
    }
    let chunk_start = start_block + chunk_idx * BLOCKS_PER_CHUNK;
    let next = chunk_start + BLOCKS_PER_CHUNK;
    let chunk_end = if next < end_block { next } else { end_block };
    (chunk_start, chunk_end)
}

/// The chunks tile `[start_block, end_block)`: the first starts at
/// `start_block`, each is non-empty, holds at most `BLOCKS_PER_CHUNK`
/// blocks and ends where the next starts, and the last ends at
/// `end_block`.
pub proof fn lemma_chunks_tile(start_block: u64, end_block: u64)
    requires
        start_block < end_block,
    ensures
        spec_total_chunks(start_block, end_block) >= 1,
        spec_chunk_bounds(start_block, end_block, 0).0 == start_block,
        forall|i: int| 0 <= i < spec_total_chunks(start_block, end_block) ==> {
            let b = #[trigger] spec_chunk_bounds(start_block, end_block, i);
            b.0 < b.1 && b.1 - b.0 <= BLOCKS_PER_CHUNK
        },
        forall|i: int| 0 <= i < spec_total_chunks(start_block, end_block) - 1
            ==> (#[trigger] spec_chunk_bounds(start_block, end_block, i)).1
                == spec_chunk_bounds(start_block, end_block, i + 1).0,
        spec_chunk_bounds(start_block, end_block, spec_total_chunks(start_block, end_block) - 1).1
            == end_block,
{
    let n = end_block - start_block;
    let t = spec_total_chunks(start_block, end_block);
    assert(t * 216000 >= n && (t - 1) * 216000 < n && t >= 1) by (nonlinear_arith)
        requires
            t == (n + 215999) / 216000,
            n >= 1,
    ;
    assert forall|i: int| 0 <= i < t implies {
        let b = #[trigger] spec_chunk_bounds(start_block, end_block, i);
        b.0 < b.1 && b.1 - b.0 <= BLOCKS_PER_CHUNK
    } by {
        assert(i * 216000 <= (t - 1) * 216000) by (nonlinear_arith)
            requires i <= t - 1;
    }
    assert forall|i: int| 0 <= i < t - 1 implies (#[trigger] spec_chunk_bounds(start_block, end_block, i)).1
        == spec_chunk_bounds(start_block, end_block, i + 1).0 by {
        assert((i + 1) * 216000 <= (t - 1) * 216000) by (nonlinear_arith)
            requires i + 1 <= t - 1;
        assert((i + 1) * 216000 == i * 216000 + 216000) by (nonlinear_arith);
    }
    assert((t - 1) * 216000 + 216000 == t * 216000) by (nonlinear_arith);
}

/// Whether a processed chunk's interval rows are written: when the chunk
/// is a whole chunk or the last one of the run.
pub fn writes_interval_file(chunk_start: u64, chunk_end: u64, end_block: u64) -> (r: bool)
    requires
        chunk_start <= chunk_end,
    ensures
        r == (chunk_end - chunk_start >= BLOCKS_PER_CHUNK || chunk_end == end_block),
{
    chunk_end - chunk_start >= BLOCKS_PER_CHUNK || chunk_end == end_block
}

} // verus!

verus! {

/// The Brontes events of pool `pool` (a lowercase address) inside
/// `[cs, ce)`, in the order they were reported.
pub open spec fn spec_brontes_events(records: Seq<LVRAnalysis>, pool: Seq<char>, cs: int, ce: int) -> Seq<UnifiedLVRData>
    decreases records.len(),
{
    if records.len() == 0 {
        Seq::empty()
    } else {
        let prev = spec_brontes_events(records.drop_last(), pool, cs, ce);
        let r = records.last();
        if cs <= r.block_number < ce && spec_lower(r.pool_address@) == pool {
            prev.push(UnifiedLVRData { block_number: r.block_number, lvr_cents: r.lvr_cents, source: DataSource::Brontes })
        } else {
            prev
        }
    }
}

/// The first event of `events` for block `b`, if any.
pub open spec fn spec_first_event(events: Seq<UnifiedLVRData>, b: int) -> Option<UnifiedLVRData>
    decreases events.len(),
{
    if events.len() == 0 {
        None
    } else {
        match spec_first_event(events.drop_last(), b) {
            Some(e) => Some(e),
            None => if events.last().block_number == b { Some(events.last()) } else { None },
        }
    }
}

/// The entry of block `b` in a Brontes series: its first event, or a zero
/// when Brontes reported none.
pub open spec fn spec_series_entry(events: Seq<UnifiedLVRData>, b: int) -> UnifiedLVRData {
    match spec_first_event(events, b) {
        Some(e) => e,
        None => UnifiedLVRData { block_number: b as u64, lvr_cents: 0, source: DataSource::Brontes },
    }
}

/// The Brontes series of one pool over a chunk: an entry for every block of
/// `[chunk_start, chunk_end)`, in block order, holding the first event
/// Brontes reported for it, or zero.
pub fn brontes_block_series(
    records: &Vec<LVRAnalysis>,
    pool_address: &str,
    chunk_start: u64,
    chunk_end: u64,
) -> (r: Vec<UnifiedLVRData>)
    requires
        chunk_start <= chunk_end,
        chunk_end - chunk_start <= usize::MAX,
    ensures
        r.len() == chunk_end - chunk_start,
        forall|i: int| 0 <= i < r.len() ==> #[trigger] r@[i] == spec_series_entry(
            spec_brontes_events(records@, pool_address@, chunk_start as int, chunk_end as int),
            chunk_start + i,
        ),
{
    let n = (chunk_end - chunk_start) as usize;
    let mut r: Vec<UnifiedLVRData> = Vec::new();
    let mut filled: Vec<bool> = Vec::new();
    let mut i: usize = 0;
    while i < n
        invariant
            i <= n,
            n == chunk_end - chunk_start,
            r.len() == i,
            filled.len() == i,
            forall|q: int| 0 <= q < i ==> #[trigger] r@[q] == (UnifiedLVRData {
                block_number: (chunk_start + q) as u64,
                lvr_cents: 0,
                source: DataSource::Brontes,
            }),
            forall|q: int| 0 <= q < i ==> !#[trigger] filled@[q],
        decreases n - i,
    {
        r.push(UnifiedLVRData { block_number: chunk_start + i as u64, lvr_cents: 0, source: DataSource::Brontes });
        filled.push(false);
        i = i + 1;
    }
    let ghost cs = chunk_start as int;
    let ghost ce = chunk_end as int;
    let mut j: usize = 0;
    while j < records.len()
        invariant
            j <= records.len(),
            n == chunk_end - chunk_start,
            r.len() == n,
            filled.len() == n,
            cs == chunk_start,
            ce == chunk_end,
            forall|q: int| 0 <= q < n ==> #[trigger] r@[q] == spec_series_entry(
                spec_brontes_events(records@.take(j as int), pool_address@, cs, ce),
                cs + q,
            ),
            forall|q: int| 0 <= q < n ==> (#[trigger] filled@[q] <==> spec_first_event(
                spec_brontes_events(records@.take(j as int), pool_address@, cs, ce),
                cs + q,
            ) is Some),
        decreases records.len() - j,
    {
        let rec = &records[j];
        let ghost prev = spec_brontes_events(records@.take(j as int), pool_address@, cs, ce);
        proof {
            assert(records@.take(j + 1).drop_last() =~= records@.take(j as int));
            assert(records@.take(j + 1).last() == records@[j as int]);
        }
        if rec.block_number >= chunk_start && rec.block_number < chunk_end && eq_lower(rec.pool_address.as_str(), pool_address) {
            let idx = (rec.block_number - chunk_start) as usize;
            let e = UnifiedLVRData { block_number: rec.block_number, lvr_cents: rec.lvr_cents, source: DataSource::Brontes };
            let ghost next = prev.push(e);
            proof {
                assert(spec_brontes_events(records@.take(j + 1), pool_address@, cs, ce) == next);
                assert(next.drop_last() =~= prev);
            }
            if !filled[idx] {
                r.set(idx, e);
                filled.set(idx, true);
            }
            proof {
                assert forall|q: int| 0 <= q < n implies #[trigger] r@[q] == spec_series_entry(next, cs + q)
                    && (filled@[q] <==> spec_first_event(next, cs + q) is Some) by {
                    assert(next.last() == e);
                }
            }
        } else {
            proof {
                assert(spec_brontes_events(records@.take(j + 1), pool_address@, cs, ce) == prev);
            }
        }
        j = j + 1;
    }
    assert(records@.take(records.len() as int) =~= records@);
    r
}

/// Whether `u` is the Brontes update of `pool` over `[cs, ce)`: the
/// pool, the `brontes` markout time, the chunk, and one entry per block of
/// the chunk as `brontes_block_series` gives it.
pub open spec fn spec_is_brontes_update(u: CheckpointUpdate, records: Seq<LVRAnalysis>, pool: Seq<char>, cs: u64, ce: u64) -> bool {
    &&& u.pool_address@ == pool
    &&& u.markout_time == MarkoutTime::Brontes
    &&& u.chunk_start == cs
    &&& u.chunk_end == ce
    &&& u.data.len() == ce - cs
    &&& forall|i: int| 0 <= i < u.data.len() ==> #[trigger] u.data@[i] == spec_series_entry(
        spec_brontes_events(records, pool, cs as int, ce as int),
        cs + i,
    )
}

/// Whether the tracked pools' lowercased addresses are pairwise distinct.
pub open spec fn spec_lowered_pools_distinct() -> bool {
    forall|i: int, j: int| 0 <= i < j < spec_pool_addresses().len()
        ==> spec_lower(#[trigger] spec_pool_addresses()[i]) != spec_lower(#[trigger] spec_pool_addresses()[j])
}

/// With the tracked pools' lowercased addresses distinct, the Brontes
/// updates hold exactly one update per tracked pool: each pool's address
/// has an update, and no two updates share an address.
pub proof fn lemma_brontes_updates_unique(u: Seq<CheckpointUpdate>, records: Seq<LVRAnalysis>, cs: u64, ce: u64)
    requires
        spec_lowered_pools_distinct(),
        u.len() == spec_pool_addresses().len(),
        forall|k: int| 0 <= k < u.len() ==> spec_is_brontes_update(#[trigger] u[k], records,
            spec_lower(spec_pool_addresses()[k]), cs, ce),
    ensures
        forall|i: int| 0 <= i < spec_pool_addresses().len() ==> (#[trigger] u[i]).pool_address@
            == spec_lower(spec_pool_addresses()[i]),
        forall|i: int, j: int| 0 <= i < u.len() && 0 <= j < u.len()
            && (#[trigger] u[i]).pool_address@ == (#[trigger] u[j]).pool_address@ ==> i == j,
{
    assert forall|i: int, j: int| 0 <= i < u.len() && 0 <= j < u.len()
        && (#[trigger] u[i]).pool_address@ == (#[trigger] u[j]).pool_address@ implies i == j by {
        assert(spec_is_brontes_update(u[i], records, spec_lower(spec_pool_addresses()[i]), cs, ce));
        assert(spec_is_brontes_update(u[j], records, spec_lower(spec_pool_addresses()[j]), cs, ce));
        if i < j {
            assert(spec_lower(spec_pool_addresses()[i]) != spec_lower(spec_pool_addresses()[j]));
        } else if j < i {
            assert(spec_lower(spec_pool_addresses()[j]) != spec_lower(spec_pool_addresses()[i]));
        }
    }
}

/// The Brontes updates of a chunk: exactly one per tracked pool, in table
/// order, under the pool's lowercased address, each with one entry per
/// block of the chunk.
pub fn brontes_updates(records: &Vec<LVRAnalysis>, chunk_start: u64, chunk_end: u64) -> (r: Vec<CheckpointUpdate>)
    requires
        chunk_start <= chunk_end,
        chunk_end - chunk_start <= usize::MAX,
    ensures
        r.len() == spec_pool_addresses().len(),
        forall|k: int| 0 <= k < r.len() ==> spec_is_brontes_update(#[trigger] r@[k], records@,
            spec_lower(spec_pool_addresses()[k]), chunk_start, chunk_end),
{
    let pools = get_valid_pools();
    let mut r: Vec<CheckpointUpdate> = Vec::new();
    let mut k: usize = 0;
    while k < pools.len()
        invariant
            k <= pools.len(),
            chunk_start <= chunk_end,
            chunk_end - chunk_start <= usize::MAX,
            pools.len() == spec_pool_addresses().len(),
            forall|q: int| 0 <= q < pools.len() ==> (#[trigger] pools@[q])@ == spec_lower(spec_pool_addresses()[q]),
            r.len() == k,
            forall|q: int| 0 <= q < k ==> spec_is_brontes_update(#[trigger] r@[q], records@,
                spec_lower(spec_pool_addresses()[q]), chunk_start, chunk_end),
        decreases pools.len() - k,
    {
        let series = brontes_block_series(records, pools[k].as_str(), chunk_start, chunk_end);
        let u = CheckpointUpdate {
            pool_address: pools[k].clone(),
            markout_time: MarkoutTime::Brontes,
            data: series,
            chunk_start,
            chunk_end,
        };
        r.push(u);
        proof {
            assert(r@[k as int] == u);
        }
        k = k + 1;
    }
    r
}

} // verus!
