use vstd::prelude::*;
use crate::markout::MarkoutTime;
use crate::models::{IntervalData, UnifiedLVRData};

verus! {

/// The value of the last data point recorded for block `b`, if any.
pub open spec fn spec_last_value(data: Seq<UnifiedLVRData>, b: int) -> Option<u64>
    decreases data.len(),
{
    if data.len() == 0 {
        None
    } else if data.last().block_number == b {
        Some(data.last().lvr_cents)
    } else {
        spec_last_value(data.drop_last(), b)
    }
}

/// The LVR of block `b`: its last recorded value, or zero when no data point
/// names it.
pub open spec fn spec_block_value(data: Seq<UnifiedLVRData>, b: int) -> u64 {
    match spec_last_value(data, b) {
        Some(v) => v,
        None => 0,
    }
}

/// The LVR of each block of `[lo, hi)`, in block order.
pub open spec fn spec_block_values(data: Seq<UnifiedLVRData>, lo: int, hi: int) -> Seq<u64> {
    Seq::new((hi - lo) as nat, |i: int| spec_block_value(data, lo + i))
}

/// The sum of a sequence of values.
pub open spec fn spec_sum(s: Seq<u64>) -> int
    decreases s.len(),
{
    if s.len() == 0 {
        0
    } else {
        spec_sum(s.drop_last()) + s.last()
    }
}

/// The largest value of a sequence, zero for the empty sequence.
pub open spec fn spec_max(s: Seq<u64>) -> u64
    decreases s.len(),
{
    if s.len() == 0 {
        0
    } else if s.last() > spec_max(s.drop_last()) {
        s.last()
    } else {
        spec_max(s.drop_last())
    }
}

/// The block of the first occurrence of the largest positive value, where
/// `s[i]` is the value of block `lo + i`; zero when no value is positive.
pub open spec fn spec_max_block(s: Seq<u64>, lo: int) -> int
    decreases s.len(),
{
    if s.len() == 0 {
        0
    } else if s.last() > spec_max(s.drop_last()) {
        lo + s.len() - 1
    } else {
        spec_max_block(s.drop_last(), lo)
    }
}

/// The histogram bucket of a value in cents: zero, then up to $10, $100,
/// $500, $1,000, $10,000, and above.
pub open spec fn spec_bucket(v: u64) -> int {
    if v == 0 {
        0
    } else if v <= 1000 {
        1
    } else if v <= 10000 {
        2
    } else if v <= 50000 {
        3
    } else if v <= 100000 {
        4
    } else if v <= 1000000 {
        5
    } else {
        6
    }
}

/// The largest value is at least every value and is one of them (zero for
/// none); its block is that of its first occurrence when it is positive,
/// zero otherwise; and the positive values are those above zero, in order.
pub proof fn lemma_max_and_positives(s: Seq<u64>, lo: int)
    ensures
        forall|i: int| 0 <= i < s.len() ==> #[trigger] s[i] <= spec_max(s),
        s.len() == 0 ==> spec_max(s) == 0,
        s.len() > 0 ==> exists|i: int| 0 <= i < s.len() && #[trigger] s[i] == spec_max(s),
        spec_max(s) > 0 ==> exists|i: int| 0 <= i < s.len() && #[trigger] s[i] == spec_max(s)
            && spec_max_block(s, lo) == lo + i && forall|j: int| 0 <= j < i ==> #[trigger] s[j] < spec_max(s),
        spec_max(s) == 0 ==> spec_max_block(s, lo) == 0,
        spec_non_zero(s) == s.filter(|v: u64| v > 0),
    decreases s.len(),
{
    let f = |v: u64| v > 0;
    if s.len() == 0 {
        assert(s.filter(f) =~= Seq::<u64>::empty()) by {
            reveal(Seq::filter);
        }
    } else {
        let d = s.drop_last();
        let n = s.len() - 1;
        lemma_max_and_positives(d, lo);
        assert(s.last() == s[n]);
        assert forall|i: int| 0 <= i < n implies #[trigger] s[i] == d[i] by {}
        assert(s.filter(f) == if f(s.last()) { d.filter(f).push(s.last()) } else { d.filter(f) }) by {
            reveal(Seq::filter);
        }
        assert forall|i: int| 0 <= i < s.len() implies #[trigger] s[i] <= spec_max(s) by {
            if i < n {
                assert(d[i] <= spec_max(d));
            }
        }
        if s.last() > spec_max(d) {
            assert(forall|j: int| 0 <= j < n ==> #[trigger] s[j] < spec_max(s)) by {
                assert forall|j: int| 0 <= j < n implies #[trigger] s[j] < spec_max(s) by {
                    assert(d[j] <= spec_max(d));
                }
            }
        } else if d.len() > 0 {
            let w = choose|i: int| 0 <= i < d.len() && #[trigger] d[i] == spec_max(d);
            assert(s[w] == spec_max(s));
            if spec_max(s) > 0 {
                let w2 = choose|i: int| 0 <= i < d.len() && #[trigger] d[i] == spec_max(d)
                    && spec_max_block(d, lo) == lo + i && forall|j: int| 0 <= j < i ==> #[trigger] d[j] < spec_max(d);
                assert(s[w2] == spec_max(s));
                assert forall|j: int| 0 <= j < w2 implies #[trigger] s[j] < spec_max(s) by {
                    assert(d[j] < spec_max(d));
                }
            }
        }
    }
}

/// The histogram buckets are fixed by the dollar thresholds: no LVR, up to
/// $10, up to $100, up to $500, up to $1,000, up to $10,000, and above, a
/// value in cents falling in exactly the bucket whose range holds it.
pub proof fn lemma_bucket_ranges(v: u64)
    ensures
        spec_bucket(v) == 0 <==> v == 0,
        spec_bucket(v) == 1 <==> 0 < v && v <= 1000,
        spec_bucket(v) == 2 <==> 1000 < v && v <= 10000,
        spec_bucket(v) == 3 <==> 10000 < v && v <= 50000,
        spec_bucket(v) == 4 <==> 50000 < v && v <= 100000,
        spec_bucket(v) == 5 <==> 100000 < v && v <= 1000000,
        spec_bucket(v) == 6 <==> 1000000 < v,
{
}

/// How many values of `s` fall in bucket `k`.
pub open spec fn spec_bucket_count(s: Seq<u64>, k: int) -> nat
    decreases s.len(),
{
    if s.len() == 0 {
        0
    } else {
        spec_bucket_count(s.drop_last(), k) + if spec_bucket(s.last()) == k { 1nat } else { 0nat }
    }
}

/// The count of bucket `k` is the number of values whose bucket is `k`.
pub proof fn lemma_bucket_count_values(s: Seq<u64>, k: int)
    ensures
        spec_bucket_count(s, k) == s.filter(|v: u64| spec_bucket(v) == k).len(),
    decreases s.len(),
{
    let f = |v: u64| spec_bucket(v) == k;
    if s.len() > 0 {
        lemma_bucket_count_values(s.drop_last(), k);
        assert(s.filter(f) == if f(s.last()) { s.drop_last().filter(f).push(s.last()) } else { s.drop_last().filter(f) }) by {
            reveal(Seq::filter);
        }
    } else {
        assert(s.filter(f) =~= Seq::<u64>::empty()) by {
            reveal(Seq::filter);
        }
    }
}

/// The positive values of `s`, in order.
pub open spec fn spec_non_zero(s: Seq<u64>) -> Seq<u64>
    decreases s.len(),
{
    if s.len() == 0 {
        Seq::empty()
    } else if s.last() > 0 {
        spec_non_zero(s.drop_last()).push(s.last())
    } else {
        spec_non_zero(s.drop_last())
    }
}

/// The prefix sums of non-negative values never exceed the whole sum.
pub proof fn lemma_sum_prefix(s: Seq<u64>, n: int)
    requires
        0 <= n <= s.len(),
    ensures
        0 <= spec_sum(s.take(n)) <= spec_sum(s),
    decreases s.len(),
{
    if n < s.len() {
        assert(s.drop_last().take(n) =~= s.take(n));
        lemma_sum_prefix(s.drop_last(), n);
    } else {
        assert(s.take(n) =~= s);
        lemma_sum_nonneg(s);
    }
}

/// A sum of non-negative values is non-negative.
pub proof fn lemma_sum_nonneg(s: Seq<u64>)
    ensures
        spec_sum(s) >= 0,
    decreases s.len(),
{
    if s.len() > 0 {
        lemma_sum_nonneg(s.drop_last());
    }
}

/// The statistics of a range of blocks that a checkpoint accumulates.
#[derive(Clone, Debug)]
pub struct BlockStats {
    /// How many blocks the range holds.
    pub blocks: u64,
    /// The sum of the blocks' LVR, in cents.
    pub running_total: i64,
    /// The largest LVR of the range (zero if none is positive).
    pub max_lvr: u64,
    /// The first block holding `max_lvr` (zero if none is positive).
    pub max_lvr_block: u64,
    /// The number of blocks in each of the seven buckets of `spec_bucket`.
    pub buckets: Vec<u64>,
    /// The positive values, in block order.
    pub non_zero_values: Vec<u64>,
}

/// `r` holds the statistics of the blocks `lo, lo + 1, ...` whose values
/// are `vals`.
pub open spec fn spec_is_block_stats(r: BlockStats, vals: Seq<u64>, lo: int) -> bool {
    &&& r.blocks == vals.len()
    &&& r.running_total == spec_sum(vals)
    &&& r.max_lvr == spec_max(vals)
    &&& r.max_lvr_block == spec_max_block(vals, lo)
    &&& r.buckets.len() == 7
    &&& forall|k: int| 0 <= k < 7 ==> r.buckets@[k] == spec_bucket_count(vals, k)
    &&& r.non_zero_values@ == spec_non_zero(vals)
}

/// The value of each block of `[lo, hi)`: the last data point recorded for
/// it, zero when there is none.
pub fn block_values(data: &Vec<UnifiedLVRData>, lo: u64, hi: u64) -> (r: Vec<u64>)
    requires
        lo <= hi,
        hi - lo <= usize::MAX,
    ensures
        r@ == spec_block_values(data@, lo as int, hi as int),
{
    let n = (hi - lo) as usize;
    let mut r: Vec<u64> = Vec::new();
    while r.len() < n
        invariant
            r.len() <= n,
            forall|i: int| 0 <= i < r.len() ==> r@[i] == 0,
        decreases n - r.len(),
    {
        r.push(0);
    }
    assert forall|i: int| 0 <= i < n implies r@[i] == spec_block_value(data@.take(0), lo + i) by {
        assert(data@.take(0).len() == 0);
    }
    let mut j: usize = 0;
    while j < data.len()
        invariant
            j <= data.len(),
            r.len() == n,
            n == hi - lo,
            lo <= hi,
            forall|i: int| 0 <= i < n ==> r@[i] == spec_block_value(data@.take(j as int), lo + i),
        decreases data.len() - j,
    {
        let d = data[j];
        let ghost before = r@;
        if d.block_number >= lo && d.block_number < hi {
            r.set((d.block_number - lo) as usize, d.lvr_cents);
        }
        proof {
            let t = data@.take(j + 1);
            assert(t.drop_last() =~= data@.take(j as int));
            assert(t.last() == d);
            assert forall|i: int| 0 <= i < n implies r@[i] == spec_block_value(t, lo + i) by {
                if d.block_number == lo + i {
                    assert(spec_last_value(t, lo + i) == Some(d.lvr_cents));
                } else {
                    assert(spec_last_value(t, lo + i) == spec_last_value(data@.take(j as int), lo + i));
                }
            }
        }
        j = j + 1;
    }
    assert(data@.take(data.len() as int) =~= data@);
    assert(r@ =~= spec_block_values(data@, lo as int, hi as int));
    r
}

/// The bucket of a value in cents (see `spec_bucket`).
pub fn bucket_index(v: u64) -> (k: usize)
    ensures
        k == spec_bucket(v),
        k < 7,
{
    if v == 0 {
        0
    } else if v <= 1000 {
        1
    } else if v <= 10000 {
        2
    } else if v <= 50000 {
        3
    } else if v <= 100000 {
        4
    } else if v <= 1000000 {
        5
    } else {
        6
    }
}

/// The statistics of the blocks `lo, lo + 1, ...` whose values are `vals`.
pub fn compute_block_stats(vals: &Vec<u64>, lo: u64) -> (r: BlockStats)
    requires
        spec_sum(vals@) <= i64::MAX,
        lo + vals.len() <= u64::MAX,
    ensures
        spec_is_block_stats(r, vals@, lo as int),
{
    let mut total: i64 = 0;
    let mut max_lvr: u64 = 0;
    let mut max_lvr_block: u64 = 0;
    let mut buckets: Vec<u64> = Vec::new();
    let mut k: usize = 0;
    while k < 7
        invariant
            k <= 7,
            buckets.len() == k,
            forall|q: int| 0 <= q < k ==> buckets@[q] == 0,
        decreases 7 - k,
    {
        buckets.push(0);
        k = k + 1;
    }
    let mut non_zero_values: Vec<u64> = Vec::new();
    let mut i: usize = 0;
    assert(vals@.take(0) =~= Seq::<u64>::empty());
    while i < vals.len()
        invariant
            i <= vals.len(),
            spec_sum(vals@) <= i64::MAX,
            lo + vals.len() <= u64::MAX,
            total == spec_sum(vals@.take(i as int)),
            max_lvr == spec_max(vals@.take(i as int)),
            max_lvr_block == spec_max_block(vals@.take(i as int), lo as int),
            buckets.len() == 7,
            forall|q: int| 0 <= q < 7 ==> buckets@[q] == spec_bucket_count(vals@.take(i as int), q),
            forall|q: int| 0 <= q < 7 ==> buckets@[q] <= i,
            non_zero_values@ == spec_non_zero(vals@.take(i as int)),
        decreases vals.len() - i,
    {
        let v = vals[i];
        let ghost t = vals@.take(i + 1);
        proof {
            assert(t.drop_last() =~= vals@.take(i as int));
            assert(t.last() == v);
            lemma_sum_prefix(vals@, i + 1);
            lemma_sum_nonneg(vals@.take(i as int));
            assert(spec_sum(t) == spec_sum(vals@.take(i as int)) + v);
        }
        total = total + v as i64;
        if v > max_lvr {
            max_lvr = v;
            max_lvr_block = lo + i as u64;
        }
        let b = bucket_index(v);
        let c = buckets[b];
        buckets.set(b, c + 1);
        if v > 0 {
            non_zero_values.push(v);
        }
        i = i + 1;
    }
    assert(vals@.take(vals.len() as int) =~= vals@);
    BlockStats {
        blocks: vals.len() as u64,
        running_total: total,
        max_lvr,
        max_lvr_block,
        buckets,
        non_zero_values,
    }
}

} // verus!

verus! {

/// Blocks per interval: one day of blocks.
pub const BLOCKS_PER_DAY: u64 = 7200;

/// The first block of interval `k` inside `[lo, hi)`, where intervals are
/// counted from `cs`.
pub open spec fn spec_interval_start(cs: int, lo: int, k: int) -> int {
    if cs + k * 7200 > lo { cs + k * 7200 } else { lo }
}

/// The end (exclusive) of interval `k` inside `[lo, hi)`.
pub open spec fn spec_interval_end(cs: int, hi: int, k: int) -> int {
    if cs + (k + 1) * 7200 < hi { cs + (k + 1) * 7200 } else { hi }
}

/// The interval holding block `lo`.
pub open spec fn spec_first_interval(cs: int, lo: int) -> int {
    (lo - cs) / 7200
}

/// The number of intervals that hold a block of `[lo, hi)`.
pub open spec fn spec_interval_count(cs: int, lo: int, hi: int) -> int {
    (hi - 1 - cs) / 7200 - (lo - cs) / 7200 + 1
}

/// The values of the blocks of the `j`-th interval of `[lo, hi)`, where
/// `vals[i]` is the value of block `lo + i`.
pub open spec fn spec_part(vals: Seq<u64>, cs: int, lo: int, hi: int, j: int) -> Seq<u64> {
    let k = spec_first_interval(cs, lo) + j;
    vals.subrange(spec_interval_start(cs, lo, k) - lo, spec_interval_end(cs, hi, k) - lo)
}

/// The block values of `[lo, hi)` cut into intervals, in order.
pub open spec fn spec_parts(vals: Seq<u64>, cs: int, lo: int, hi: int) -> Seq<Seq<u64>> {
    Seq::new(spec_interval_count(cs, lo, hi) as nat, |j: int| spec_part(vals, cs, lo, hi, j))
}

/// The concatenation of a sequence of sequences.
pub open spec fn spec_join(parts: Seq<Seq<u64>>) -> Seq<u64>
    decreases parts.len(),
{
    if parts.len() == 0 {
        Seq::empty()
    } else {
        spec_join(parts.drop_last()) + parts.last()
    }
}

/// `rows` are the interval summaries of the blocks `[lo, hi)` with values
/// `vals`, intervals being counted from `cs`.
pub open spec fn spec_is_interval_rows(
    rows: Seq<IntervalData>,
    vals: Seq<u64>,
    cs: int,
    lo: int,
    hi: int,
    pair_address: Seq<char>,
    markout_time: MarkoutTime,
) -> bool {
    let parts = spec_parts(vals, cs, lo, hi);
    &&& rows.len() == parts.len()
    &&& forall|j: int| 0 <= j < rows.len() ==> {
        let row = #[trigger] rows[j];
        &&& row.interval_id == spec_first_interval(cs, lo) + j
        &&& row.pair_address@ == pair_address
        &&& row.markout_time == markout_time
        &&& row.total_lvr_cents == spec_sum(parts[j])
        &&& row.max_lvr_cents == spec_max(parts[j])
        &&& row.non_zero_count == spec_non_zero(parts[j]).len()
        &&& row.total_count == parts[j].len()
    }
}

/// The interval that holds block `b`, intervals being counted from `cs`.
pub open spec fn spec_block_interval(cs: int, b: int) -> int {
    (b - cs) / 7200
}

/// Whether some row summarises interval `k`.
pub open spec fn spec_has_interval(rows: Seq<IntervalData>, k: int) -> bool {
    exists|j: int| 0 <= j < rows.len() && #[trigger] rows[j].interval_id == k
}

/// The interval summaries of `[lo, hi)` hold one row per interval that
/// holds a block of the range, in increasing interval order: every row's
/// interval holds some block, and every block's interval has a row.
pub proof fn lemma_interval_ids(
    rows: Seq<IntervalData>,
    vals: Seq<u64>,
    cs: int,
    lo: int,
    hi: int,
    pair_address: Seq<char>,
    markout_time: MarkoutTime,
)
    requires
        cs <= lo < hi,
        spec_is_interval_rows(rows, vals, cs, lo, hi, pair_address, markout_time),
    ensures
        forall|j: int| 0 <= j < rows.len() ==> (lo - cs) / 7200 <= #[trigger] rows[j].interval_id <= (hi - 1 - cs) / 7200,
        forall|i: int, j: int| 0 <= i < j < rows.len() ==> rows[i].interval_id < rows[j].interval_id,
        forall|b: int| lo <= b < hi ==> spec_has_interval(rows, #[trigger] spec_block_interval(cs, b)),
{
    assert forall|b: int| lo <= b < hi implies spec_has_interval(rows, #[trigger] spec_block_interval(cs, b)) by {
        assert((lo - cs) / 7200 <= (b - cs) / 7200 <= (hi - 1 - cs) / 7200) by (nonlinear_arith)
            requires cs <= lo <= b <= hi - 1;
        let j = (b - cs) / 7200 - (lo - cs) / 7200;
        assert(rows.len() == spec_interval_count(cs, lo, hi));
        assert(0 <= j < rows.len());
        assert(rows[j].interval_id == spec_first_interval(cs, lo) + j);
        assert(rows[j].interval_id == spec_block_interval(cs, b));
        assert(spec_has_interval(rows, spec_block_interval(cs, b)));
    }
}

/// The number of blocks the interval summaries count, all rows together.
pub open spec fn spec_counted_blocks(rows: Seq<IntervalData>) -> int
    decreases rows.len(),
{
    if rows.len() == 0 {
        0
    } else {
        spec_counted_blocks(rows.drop_last()) + rows.last().total_count
    }
}

/// The first `n` rows count as many blocks as the first `n` parts hold.
proof fn lemma_counted_prefix(rows: Seq<IntervalData>, parts: Seq<Seq<u64>>, n: int)
    requires
        0 <= n <= rows.len(),
        rows.len() == parts.len(),
        forall|j: int| 0 <= j < rows.len() ==> (#[trigger] rows[j]).total_count == parts[j].len(),
    ensures
        spec_counted_blocks(rows.take(n)) == spec_join(parts.take(n)).len(),
    decreases n,
{
    if n > 0 {
        lemma_counted_prefix(rows, parts, n - 1);
        assert(rows.take(n).drop_last() =~= rows.take(n - 1));
        assert(parts.take(n).drop_last() =~= parts.take(n - 1));
        assert(rows.take(n).last() == rows[n - 1]);
        assert(parts.take(n).last() == parts[n - 1]);
    }
}

/// Each interval of `[lo, hi)` is a non-empty stretch of the range.
proof fn lemma_part_bounds(cs: int, lo: int, hi: int, j: int)
    requires
        cs <= lo < hi,
        0 <= j < spec_interval_count(cs, lo, hi),
    ensures
        lo <= spec_interval_start(cs, lo, spec_first_interval(cs, lo) + j)
            < spec_interval_end(cs, hi, spec_first_interval(cs, lo) + j) <= hi,
{
    let k0 = spec_first_interval(cs, lo);
    let kl = (hi - 1 - cs) / 7200;
    let k = k0 + j;
    lemma_interval_of(cs, lo);
    lemma_interval_of(cs, hi - 1);
    assert(k <= kl);
    assert(k * 7200 <= kl * 7200) by (nonlinear_arith) requires k <= kl;
    assert(k0 * 7200 <= k * 7200) by (nonlinear_arith) requires k0 <= k;
    assert(cs + (k + 1) * 7200 == cs + k * 7200 + 7200) by (nonlinear_arith);
    assert(cs + (k0 + 1) * 7200 == cs + k0 * 7200 + 7200) by (nonlinear_arith);
}

/// Each interval summary of `[lo, hi)` counts exactly the blocks of the
/// range that its interval holds, and the summaries together count every
/// block of the range once.
pub proof fn lemma_interval_rows_blocks(
    rows: Seq<IntervalData>,
    vals: Seq<u64>,
    cs: int,
    lo: int,
    hi: int,
    pair_address: Seq<char>,
    markout_time: MarkoutTime,
)
    requires
        cs <= lo < hi,
        vals.len() == hi - lo,
        spec_is_interval_rows(rows, vals, cs, lo, hi, pair_address, markout_time),
    ensures
        forall|j: int, b: int| 0 <= j < rows.len() && lo <= b < hi ==> (
            #[trigger] spec_block_interval(cs, b) == (#[trigger] rows[j]).interval_id
                <==> spec_interval_start(cs, lo, rows[j].interval_id as int) <= b
                    < spec_interval_end(cs, hi, rows[j].interval_id as int)),
        forall|j: int| 0 <= j < rows.len() ==> (#[trigger] rows[j]).total_count
            == spec_interval_end(cs, hi, rows[j].interval_id as int) - spec_interval_start(cs, lo, rows[j].interval_id as int),
        spec_counted_blocks(rows) == hi - lo,
{
    let parts = spec_parts(vals, cs, lo, hi);
    lemma_interval_ids(rows, vals, cs, lo, hi, pair_address, markout_time);
    lemma_interval_of(cs, lo);
    lemma_interval_of(cs, hi - 1);
    assert forall|j: int, b: int| 0 <= j < rows.len() && lo <= b < hi implies (
        #[trigger] spec_block_interval(cs, b) == (#[trigger] rows[j]).interval_id
            <==> spec_interval_start(cs, lo, rows[j].interval_id as int) <= b
                < spec_interval_end(cs, hi, rows[j].interval_id as int)) by {
        let k = rows[j].interval_id as int;
        lemma_interval_of(cs, b);
        let q = (b - cs) / 7200;
        assert(cs + k * 7200 + 7200 == cs + (k + 1) * 7200) by (nonlinear_arith);
        assert(cs + q * 7200 + 7200 == cs + (q + 1) * 7200) by (nonlinear_arith);
        if q < k {
            assert(q * 7200 + 7200 <= k * 7200) by (nonlinear_arith) requires q < k;
        }
        if q > k {
            assert(k * 7200 + 7200 <= q * 7200) by (nonlinear_arith) requires q > k;
        }
    }
    assert forall|j: int| 0 <= j < rows.len() implies (#[trigger] rows[j]).total_count
        == spec_interval_end(cs, hi, rows[j].interval_id as int) - spec_interval_start(cs, lo, rows[j].interval_id as int) by {
        let k = rows[j].interval_id as int;
        assert(k == spec_first_interval(cs, lo) + j);
        assert(parts[j] == spec_part(vals, cs, lo, hi, j));
        lemma_part_bounds(cs, lo, hi, j);
    }
    lemma_parts_partition(vals, cs, lo, hi);
    lemma_counted_prefix(rows, parts, rows.len() as int);
    assert(rows.take(rows.len() as int) =~= rows);
    assert(parts.take(parts.len() as int) =~= parts);
}

/// Sums are additive over concatenation.
pub proof fn lemma_sum_concat(a: Seq<u64>, b: Seq<u64>)
    ensures
        spec_sum(a + b) == spec_sum(a) + spec_sum(b),
    decreases b.len(),
{
    if b.len() == 0 {
        assert(a + b =~= a);
    } else {
        assert((a + b).drop_last() =~= a + b.drop_last());
        lemma_sum_concat(a, b.drop_last());
    }
}

/// The maximum of a concatenation is the larger of the two maxima.
pub proof fn lemma_max_concat(a: Seq<u64>, b: Seq<u64>)
    ensures
        spec_max(a + b) == if spec_max(a) >= spec_max(b) { spec_max(a) } else { spec_max(b) },
    decreases b.len(),
{
    if b.len() == 0 {
        assert(a + b =~= a);
    } else {
        assert((a + b).drop_last() =~= a + b.drop_last());
        lemma_max_concat(a, b.drop_last());
    }
}

/// The positive values of a concatenation are those of each part.
pub proof fn lemma_non_zero_concat(a: Seq<u64>, b: Seq<u64>)
    ensures
        spec_non_zero(a + b) == spec_non_zero(a) + spec_non_zero(b),
    decreases b.len(),
{
    if b.len() == 0 {
        assert(a + b =~= a);
        assert(spec_non_zero(a) + spec_non_zero(b) =~= spec_non_zero(a));
    } else {
        assert((a + b).drop_last() =~= a + b.drop_last());
        lemma_non_zero_concat(a, b.drop_last());
        if b.last() > 0 {
            assert(spec_non_zero(a) + spec_non_zero(b.drop_last()).push(b.last())
                =~= (spec_non_zero(a) + spec_non_zero(b.drop_last())).push(b.last()));
        }
    }
}

/// Facts about the interval of a block, from the definition of division.
proof fn lemma_interval_of(cs: int, b: int)
    requires
        cs <= b,
    ensures
        cs + ((b - cs) / 7200) * 7200 <= b,
        b < cs + ((b - cs) / 7200 + 1) * 7200,
        (b - cs) / 7200 >= 0,
{
    let d = b - cs;
    assert(d == 7200 * (d / 7200) + d % 7200) by {
        vstd::arithmetic::div_mod::lemma_fundamental_div_mod(d, 7200);
    }
    assert(0 <= d % 7200 < 7200) by {
        vstd::arithmetic::div_mod::lemma_mod_bound(d, 7200);
    }
    assert(d / 7200 >= 0) by {
        vstd::arithmetic::div_mod::lemma_div_pos_is_pos(d, 7200);
    }
}

/// The first `j` intervals of `[lo, hi)` cover exactly the blocks before
/// the end of interval `j - 1`.
proof fn lemma_parts_prefix(vals: Seq<u64>, cs: int, lo: int, hi: int, j: int)
    requires
        cs <= lo < hi,
        vals.len() == hi - lo,
        1 <= j <= spec_interval_count(cs, lo, hi),
    ensures
        spec_join(spec_parts(vals, cs, lo, hi).take(j))
            == vals.take(spec_interval_end(cs, hi, spec_first_interval(cs, lo) + j - 1) - lo),
    decreases j,
{
    let parts = spec_parts(vals, cs, lo, hi);
    let k0 = spec_first_interval(cs, lo);
    let kl = (hi - 1 - cs) / 7200;
    lemma_interval_of(cs, lo);
    lemma_interval_of(cs, hi - 1);
    let k = k0 + j - 1;
    assert(k0 <= k <= kl);
    // interval k is non-empty and lies inside [lo, hi)
    assert(cs + k * 7200 <= cs + kl * 7200) by (nonlinear_arith)
        requires k <= kl;
    assert(cs + k0 * 7200 <= cs + k * 7200) by (nonlinear_arith)
        requires k0 <= k;
    assert(cs + (k + 1) * 7200 == cs + k * 7200 + 7200) by (nonlinear_arith);
    assert(cs + (k0 + 1) * 7200 == cs + k0 * 7200 + 7200) by (nonlinear_arith);
    assert(cs + (kl + 1) * 7200 == cs + kl * 7200 + 7200) by (nonlinear_arith);
    let s = spec_interval_start(cs, lo, k);
    let e = spec_interval_end(cs, hi, k);
    assert(lo <= s <= e <= hi);
    assert(s < e);
    assert(parts.take(j).drop_last() =~= parts.take(j - 1));
    assert(parts.take(j).last() == parts[j - 1]);
    if j == 1 {
        assert(s == lo);
        assert(parts.take(0).len() == 0);
        assert(spec_join(parts.take(0)) =~= Seq::<u64>::empty());
        assert(Seq::<u64>::empty() + parts[0] =~= vals.take(e - lo));
    } else {
        lemma_parts_prefix(vals, cs, lo, hi, j - 1);
        let kp = k - 1;
        assert(cs + kp * 7200 + 7200 == cs + k * 7200) by (nonlinear_arith)
            requires kp == k - 1;
        assert(cs + (kp + 1) * 7200 == cs + kp * 7200 + 7200) by (nonlinear_arith);
        // interval k - 1 ends where interval k starts
        assert(k > k0);
        assert(cs + k * 7200 >= cs + (k0 + 1) * 7200) by (nonlinear_arith)
            requires k >= k0 + 1;
        assert(spec_interval_end(cs, hi, kp) == s);
        assert(vals.take(s - lo) + vals.subrange(s - lo, e - lo) =~= vals.take(e - lo));
    }
}

/// The intervals of `[lo, hi)` partition its blocks: joined in order they
/// give back every block value exactly once.
pub proof fn lemma_parts_partition(vals: Seq<u64>, cs: int, lo: int, hi: int)
    requires
        cs <= lo < hi,
        vals.len() == hi - lo,
    ensures
        spec_join(spec_parts(vals, cs, lo, hi)) == vals,
{
    let parts = spec_parts(vals, cs, lo, hi);
    let n = spec_interval_count(cs, lo, hi);
    lemma_interval_of(cs, lo);
    lemma_interval_of(cs, hi - 1);
    let kl = (hi - 1 - cs) / 7200;
    assert(kl >= spec_first_interval(cs, lo)) by {
        vstd::arithmetic::div_mod::lemma_div_is_ordered(lo - cs, hi - 1 - cs, 7200);
    }
    lemma_parts_prefix(vals, cs, lo, hi, n);
    assert(parts.take(n) =~= parts);
    assert(cs + (kl + 1) * 7200 == cs + kl * 7200 + 7200) by (nonlinear_arith);
    assert(spec_interval_end(cs, hi, kl) == hi);
    assert(vals.take(hi - lo) =~= vals);
}

} // verus!

verus! {

/// The sum, the maximum and the number of positive values of
/// `vals[from..to]`.
fn summarize(vals: &Vec<u64>, from: usize, to: usize) -> (r: (u64, u64, u64))
    requires
        from <= to <= vals.len(),
        spec_sum(vals@.subrange(from as int, to as int)) <= u64::MAX,
    ensures
        r.0 == spec_sum(vals@.subrange(from as int, to as int)),
        r.1 == spec_max(vals@.subrange(from as int, to as int)),
        r.2 == spec_non_zero(vals@.subrange(from as int, to as int)).len(),
{
    let ghost whole = vals@.subrange(from as int, to as int);
    let mut sum: u64 = 0;
    let mut max: u64 = 0;
    let mut count: u64 = 0;
    let mut i: usize = from;
    assert(vals@.subrange(from as int, from as int) =~= Seq::<u64>::empty());
    while i < to
        invariant
            from <= i <= to <= vals.len(),
            whole == vals@.subrange(from as int, to as int),
            spec_sum(whole) <= u64::MAX,
            sum == spec_sum(vals@.subrange(from as int, i as int)),
            max == spec_max(vals@.subrange(from as int, i as int)),
            count == spec_non_zero(vals@.subrange(from as int, i as int)).len(),
            count <= i - from,
        decreases to - i,
    {
        let v = vals[i];
        proof {
            let t = vals@.subrange(from as int, i + 1);
            assert(t.drop_last() =~= vals@.subrange(from as int, i as int));
            assert(t.last() == v);
            assert(whole.take(i + 1 - from) =~= t);
            lemma_sum_prefix(whole, i + 1 - from);
            lemma_sum_nonneg(vals@.subrange(from as int, i as int));
        }
        sum = sum + v;
        if v > max {
            max = v;
        }
        if v > 0 {
            count = count + 1;
        }
        i = i + 1;
    }
    (sum, max, count)
}

/// The interval summaries of the blocks `[lo, hi)` whose values are `vals`,
/// intervals being days counted from `chunk_start`.
pub fn interval_rows(
    vals: &Vec<u64>,
    chunk_start: u64,
    lo: u64,
    hi: u64,
    pair_address: &String,
    markout_time: MarkoutTime,
) -> (rows: Vec<IntervalData>)
    requires
        chunk_start <= lo < hi,
        hi <= u64::MAX - BLOCKS_PER_DAY,
        vals.len() == hi - lo,
        forall|j: int|
            0 <= j < spec_interval_count(chunk_start as int, lo as int, hi as int) ==> spec_sum(
                #[trigger] spec_part(vals@, chunk_start as int, lo as int, hi as int, j),
            ) <= u64::MAX,
    ensures
        spec_is_interval_rows(
            rows@,
            vals@,
            chunk_start as int,
            lo as int,
            hi as int,
            pair_address@,
            markout_time,
        ),
{
    let ghost cs = chunk_start as int;
    proof {
        lemma_interval_of(cs, lo as int);
        lemma_interval_of(cs, hi - 1);
        vstd::arithmetic::div_mod::lemma_div_is_ordered(lo - cs, hi - 1 - cs, 7200);
    }
    let k0 = (lo - chunk_start) / BLOCKS_PER_DAY;
    let kl = (hi - 1 - chunk_start) / BLOCKS_PER_DAY;
    let n = kl - k0 + 1;
    let ghost parts = spec_parts(vals@, cs, lo as int, hi as int);
    let mut rows: Vec<IntervalData> = Vec::new();
    let mut j: u64 = 0;
    while j < n
        invariant
            chunk_start <= lo < hi,
            hi <= u64::MAX - BLOCKS_PER_DAY,
            vals.len() == hi - lo,
            cs == chunk_start,
            k0 == spec_first_interval(cs, lo as int),
            kl == (hi - 1 - cs) / 7200,
            k0 <= kl,
            n == kl - k0 + 1,
            n == spec_interval_count(cs, lo as int, hi as int),
            parts == spec_parts(vals@, cs, lo as int, hi as int),
            cs + k0 * 7200 <= lo,
            hi - 1 < cs + (kl + 1) * 7200,
            forall|q: int|
                0 <= q < n ==> spec_sum(#[trigger] spec_part(vals@, cs, lo as int, hi as int, q))
                    <= u64::MAX,
            j <= n,
            rows.len() == j,
            forall|q: int|
                0 <= q < j ==> {
                    let row = #[trigger] rows@[q];
                    &&& row.interval_id == k0 + q
                    &&& row.pair_address@ == pair_address@
                    &&& row.markout_time == markout_time
                    &&& row.total_lvr_cents == spec_sum(parts[q])
                    &&& row.max_lvr_cents == spec_max(parts[q])
                    &&& row.non_zero_count == spec_non_zero(parts[q]).len()
                    &&& row.total_count == parts[q].len()
                },
        decreases n - j,
    {
        let k = k0 + j;
        proof {
            assert(k * 7200 <= kl * 7200) by (nonlinear_arith)
                requires k <= kl;
            assert(k0 * 7200 <= k * 7200) by (nonlinear_arith)
                requires k0 <= k;
            assert((k + 1) * 7200 == k * 7200 + 7200) by (nonlinear_arith);
            assert((kl + 1) * 7200 == kl * 7200 + 7200) by (nonlinear_arith);
        }
        let base = chunk_start + k * BLOCKS_PER_DAY;
        let s = if base > lo { base } else { lo };
        let next = base + BLOCKS_PER_DAY;
        let e = if next < hi { next } else { hi };
        proof {
            assert(s == spec_interval_start(cs, lo as int, k as int));
            assert(e == spec_interval_end(cs, hi as int, k as int));
            assert(lo <= s <= e <= hi);
            assert(spec_part(vals@, cs, lo as int, hi as int, j as int)
                == vals@.subrange(s - lo, e - lo));
        }
        let (total, max, non_zero) = summarize(vals, (s - lo) as usize, (e - lo) as usize);
        let row = IntervalData {
            interval_id: k,
            pair_address: pair_address.clone(),
            markout_time,
            total_lvr_cents: total,
            max_lvr_cents: max,
            non_zero_count: non_zero,
            total_count: e - s,
        };
        rows.push(row);
        j = j + 1;
    }
    rows
}

} // verus!

verus! {

/// The sum of the totals of interval rows.
pub open spec fn spec_rows_total(rows: Seq<IntervalData>) -> int
    decreases rows.len(),
{
    if rows.len() == 0 {
        0
    } else {
        spec_rows_total(rows.drop_last()) + rows.last().total_lvr_cents
    }
}

/// The sum of the non-zero counts of interval rows.
pub open spec fn spec_rows_non_zero(rows: Seq<IntervalData>) -> int
    decreases rows.len(),
{
    if rows.len() == 0 {
        0
    } else {
        spec_rows_non_zero(rows.drop_last()) + rows.last().non_zero_count
    }
}

/// The sum of the block counts of interval rows.
pub open spec fn spec_rows_count(rows: Seq<IntervalData>) -> int
    decreases rows.len(),
{
    if rows.len() == 0 {
        0
    } else {
        spec_rows_count(rows.drop_last()) + rows.last().total_count
    }
}

/// The largest maximum of interval rows (zero for no rows).
pub open spec fn spec_rows_max(rows: Seq<IntervalData>) -> int
    decreases rows.len(),
{
    if rows.len() == 0 {
        0
    } else if rows.last().max_lvr_cents > spec_rows_max(rows.drop_last()) {
        rows.last().max_lvr_cents as int
    } else {
        spec_rows_max(rows.drop_last())
    }
}

/// The sum of `buckets[from..to]`.
pub open spec fn spec_bucket_sum(buckets: Seq<u64>, from: int, to: int) -> int
    decreases to - from,
{
    if to <= from {
        0
    } else {
        spec_bucket_sum(buckets, from, to - 1) + buckets[to - 1]
    }
}

/// Every value falls in exactly one bucket, and the positive ones in the
/// buckets after the first.
pub proof fn lemma_bucket_counts(s: Seq<u64>)
    ensures
        spec_bucket_count(s, 0) + spec_bucket_count(s, 1) + spec_bucket_count(s, 2)
            + spec_bucket_count(s, 3) + spec_bucket_count(s, 4) + spec_bucket_count(s, 5)
            + spec_bucket_count(s, 6) == s.len(),
        spec_bucket_count(s, 1) + spec_bucket_count(s, 2) + spec_bucket_count(s, 3)
            + spec_bucket_count(s, 4) + spec_bucket_count(s, 5) + spec_bucket_count(s, 6)
            == spec_non_zero(s).len(),
    decreases s.len(),
{
    if s.len() > 0 {
        lemma_bucket_counts(s.drop_last());
    }
}

/// The row aggregates of the first `j` intervals equal the aggregates of
/// the blocks they join.
proof fn lemma_rows_prefix(
    rows: Seq<IntervalData>,
    vals: Seq<u64>,
    cs: int,
    lo: int,
    hi: int,
    a: Seq<char>,
    m: MarkoutTime,
    j: int,
)
    requires
        spec_is_interval_rows(rows, vals, cs, lo, hi, a, m),
        0 <= j <= rows.len(),
    ensures
        ({
            let joined = spec_join(spec_parts(vals, cs, lo, hi).take(j));
            &&& spec_rows_total(rows.take(j)) == spec_sum(joined)
            &&& spec_rows_non_zero(rows.take(j)) == spec_non_zero(joined).len()
            &&& spec_rows_count(rows.take(j)) == joined.len()
            &&& spec_rows_max(rows.take(j)) == spec_max(joined)
        }),
    decreases j,
{
    let parts = spec_parts(vals, cs, lo, hi);
    if j == 0 {
        assert(parts.take(0).len() == 0);
        assert(rows.take(0).len() == 0);
        assert(spec_join(parts.take(0)) =~= Seq::<u64>::empty());
    } else {
        lemma_rows_prefix(rows, vals, cs, lo, hi, a, m, j - 1);
        assert(rows.take(j).drop_last() =~= rows.take(j - 1));
        assert(rows.take(j).last() == rows[j - 1]);
        assert(parts.take(j).drop_last() =~= parts.take(j - 1));
        assert(parts.take(j).last() == parts[j - 1]);
        let prev = spec_join(parts.take(j - 1));
        let p = parts[j - 1];
        assert(spec_join(parts.take(j)) == prev + p);
        lemma_sum_concat(prev, p);
        lemma_non_zero_concat(prev, p);
        lemma_max_concat(prev, p);
        let row = rows[j - 1];
        assert(row.total_lvr_cents == spec_sum(p));
        assert(row.max_lvr_cents == spec_max(p));
    }
}

/// The interval rows written for a range of blocks and the statistics a
/// checkpoint accumulates over the same range agree: the rows' totals sum
/// to the running total, their non-zero counts sum to the blocks counted
/// in the non-zero buckets (one per positive value), their block counts
/// sum to the blocks counted in all buckets, and their largest maximum is
/// the range's maximum.
pub proof fn lemma_rows_agree_with_stats(
    rows: Seq<IntervalData>,
    stats: BlockStats,
    vals: Seq<u64>,
    cs: int,
    lo: int,
    hi: int,
    pair_address: Seq<char>,
    markout_time: MarkoutTime,
)
    requires
        cs <= lo < hi,
        vals.len() == hi - lo,
        spec_is_interval_rows(rows, vals, cs, lo, hi, pair_address, markout_time),
        spec_is_block_stats(stats, vals, lo),
    ensures
        spec_rows_total(rows) == stats.running_total,
        spec_rows_non_zero(rows) == stats.non_zero_values.len(),
        spec_rows_non_zero(rows) == spec_bucket_sum(stats.buckets@, 1, 7),
        spec_rows_count(rows) == stats.blocks,
        spec_rows_count(rows) == spec_bucket_sum(stats.buckets@, 0, 7),
        spec_rows_max(rows) == stats.max_lvr,
{
    let parts = spec_parts(vals, cs, lo, hi);
    lemma_parts_partition(vals, cs, lo, hi);
    lemma_rows_prefix(rows, vals, cs, lo, hi, pair_address, markout_time, rows.len() as int);
    assert(rows.take(rows.len() as int) =~= rows);
    assert(parts.take(rows.len() as int) =~= parts);
    lemma_bucket_counts(vals);
    let b = stats.buckets@;
    assert(spec_bucket_sum(b, 1, 7) == b[1] + b[2] + b[3] + b[4] + b[5] + b[6]) by {
        reveal_with_fuel(spec_bucket_sum, 7);
    }
    assert(spec_bucket_sum(b, 0, 7) == b[0] + b[1] + b[2] + b[3] + b[4] + b[5] + b[6]) by {
        reveal_with_fuel(spec_bucket_sum, 8);
    }
}

} // verus!
