use vstd::prelude::*;
use crate::blocks::spec_sum;
use crate::files::{
    checkpoint_markout, checkpoint_pool, interval_file_range, path_ends_with, spec_interval_file_range, spec_checkpoint_markout, spec_checkpoint_pool,
    spec_ends_with,
};
use crate::pools::{
    get_pool_name, get_valid_pools, is_valid_pool, spec_is_valid_pool, spec_pool_addresses, spec_pool_name,
    MERGE_BLOCK,
};
use crate::ranking::{lemma_rank_desc_map, lemma_rank_desc_sorted, rank_desc, spec_rank_desc, RankKey};
use crate::running::{ApiError, IntervalRow, DEFAULT_END_BLOCK};
use crate::text::{concat, spec_lower, to_lower};

verus! {

/// The markout time a pool-totals request asks for.
pub struct PoolTotalsQuery {
    pub markout_time: Option<String>,
}

/// The LVR total of one pool.
pub struct PoolTotal {
    pub pool_name: String,
    pub pool_address: String,
    pub total_lvr_cents: u64,
}

/// The pool totals answering a request, largest first.
pub struct PoolTotalsResponse {
    pub totals: Vec<PoolTotal>,
}

impl View for PoolTotal {
    /// Pool name, pool address and total.
    type V = (Seq<char>, Seq<char>, u64);

    open spec fn view(&self) -> Self::V {
        (self.pool_name@, self.pool_address@, self.total_lvr_cents)
    }
}

impl RankKey for PoolTotal {
    open spec fn spec_rank(&self) -> u64 {
        self.total_lvr_cents
    }

    fn rank(&self) -> (r: u64) {
        self.total_lvr_cents
    }
}

/// The views of a sequence of pool totals.
pub open spec fn spec_pool_totals_view(v: Seq<PoolTotal>) -> Seq<(Seq<char>, Seq<char>, u64)> {
    v.map_values(|t: PoolTotal| t@)
}

/// One row of a checkpoint file, with the path of that file: what the
/// readers of checkpoints use of it.
pub struct CheckpointRow {
    pub file_path: String,
    pub pair_address: String,
    pub running_total: i64,
    pub max_lvr_value: u64,
    pub max_lvr_block: u64,
    pub total_bucket_0: u64,
    /// The counts of the non-zero buckets, smallest bucket first.
    pub non_zero_buckets: Vec<u64>,
    /// Whether the checkpoint's share of non-zero blocks is positive.
    pub has_activity: bool,
}

/// One row of the precomputed pool totals.
pub struct PoolMetricsRow {
    pub pool_address: String,
    pub pool_name: String,
    pub markout_time: String,
    pub total_lvr_cents: u64,
    pub non_zero_blocks: u64,
    pub total_blocks: u64,
}

impl View for PoolMetricsRow {
    /// Pool address, pool name, markout time, total, non-zero blocks and
    /// blocks.
    type V = (Seq<char>, Seq<char>, Seq<char>, u64, u64, u64);

    open spec fn view(&self) -> Self::V {
        (
            self.pool_address@,
            self.pool_name@,
            self.markout_time@,
            self.total_lvr_cents,
            self.non_zero_blocks,
            self.total_blocks,
        )
    }
}

/// The views of a sequence of precomputed pool-total rows.
pub open spec fn spec_metrics_view(v: Seq<PoolMetricsRow>) -> Seq<(Seq<char>, Seq<char>, Seq<char>, u64, u64, u64)> {
    v.map_values(|t: PoolMetricsRow| t@)
}

/// The magnitude of a signed total.
pub open spec fn spec_unsigned_abs(x: i64) -> u64 {
    if x < 0 {
        (-x) as u64
    } else {
        x as u64
    }
}

/// The magnitude of a signed total (see `spec_unsigned_abs`).
pub fn unsigned_abs(x: i64) -> (r: u64)
    ensures
        r == spec_unsigned_abs(x),
{
    if x >= 0 {
        x as u64
    } else if x == i64::MIN {
        9223372036854775808u64
    } else {
        (-x) as u64
    }
}

/// The markout time a request names, `brontes` when it names none.
pub open spec fn spec_markout_or_brontes(m: Option<String>) -> Seq<char> {
    match m {
        Some(s) => s@,
        None => "brontes"@,
    }
}

/// The markout time a request names, `brontes` when it names none.
fn markout_or_brontes(m: &Option<String>) -> (r: String)
    ensures
        r@ == spec_markout_or_brontes(*m),
{
    match m {
        Some(s) => s.clone(),
        None => String::from_str("brontes"),
    }
}

/// The ending of the checkpoint files of a markout time.
pub open spec fn spec_checkpoint_suffix(markout: Seq<char>) -> Seq<char> {
    seq!['_'] + markout + ".parquet"@
}

/// The ending of the checkpoint files of a markout time (see
/// `spec_checkpoint_suffix`).
fn checkpoint_suffix(markout: &String) -> (r: String)
    ensures
        r@ == spec_checkpoint_suffix(markout@),
{
    let a = concat("_", markout.as_str());
    let r = concat(a.as_str(), ".parquet");
    proof {
        reveal_strlit("_");
        assert("_"@ =~= seq!['_']);
    }
    r
}

/// Whether a checkpoint row counts toward the pool totals of a markout
/// time: its file is of that markout time, its pool is tracked and it has
/// some non-zero block.
pub open spec fn spec_pool_total_selected(r: CheckpointRow, markout: Seq<char>) -> bool {
    &&& spec_ends_with(r.file_path@, spec_checkpoint_suffix(markout))
    &&& spec_is_valid_pool(r.pair_address@)
    &&& r.has_activity
}

/// The pool total a checkpoint row gives: the pool's name, its lowercased
/// address, and the magnitude of the running total.
pub open spec fn spec_pool_total_of(r: CheckpointRow) -> (Seq<char>, Seq<char>, u64) {
    (spec_pool_name(spec_lower(r.pair_address@)), spec_lower(r.pair_address@), spec_unsigned_abs(r.running_total))
}

/// The pool totals of the selected checkpoint rows, in row order.
pub open spec fn spec_pool_total_rows(rows: Seq<CheckpointRow>, markout: Seq<char>) -> Seq<(Seq<char>, Seq<char>, u64)>
    decreases rows.len(),
{
    if rows.len() == 0 {
        Seq::empty()
    } else {
        let prev = spec_pool_total_rows(rows.drop_last(), markout);
        if spec_pool_total_selected(rows.last(), markout) {
            prev.push(spec_pool_total_of(rows.last()))
        } else {
            prev
        }
    }
}

/// The key by which pool totals are ranked.
pub open spec fn spec_total_key(v: (Seq<char>, Seq<char>, u64)) -> u64 {
    v.2
}

/// The pool totals of a markout time (`brontes` unless the request names
/// one), read from the checkpoints: the selected rows' totals, largest
/// first, ties in row order.
pub open spec fn spec_get_pool_totals(q: PoolTotalsQuery, rows: Seq<CheckpointRow>) -> Seq<(Seq<char>, Seq<char>, u64)> {
    spec_rank_desc(spec_pool_total_rows(rows, spec_markout_or_brontes(q.markout_time)), |v: (Seq<char>, Seq<char>, u64)| spec_total_key(v))
}

/// Whether `x` is the total of a selected checkpoint row.
pub open spec fn spec_total_from_row(rows: Seq<CheckpointRow>, markout: Seq<char>, x: (Seq<char>, Seq<char>, u64)) -> bool {
    exists|i: int| 0 <= i < rows.len() && spec_pool_total_selected(#[trigger] rows[i], markout)
        && spec_pool_total_of(rows[i]) == x
}

/// Every selected pool total comes from a selected checkpoint row.
proof fn lemma_pool_total_rows_from(rows: Seq<CheckpointRow>, markout: Seq<char>, x: (Seq<char>, Seq<char>, u64))
    requires
        spec_pool_total_rows(rows, markout).contains(x),
    ensures
        spec_total_from_row(rows, markout, x),
    decreases rows.len(),
{
    let d = rows.drop_last();
    let prev = spec_pool_total_rows(d, markout);
    if spec_pool_total_selected(rows.last(), markout) && spec_pool_total_of(rows.last()) == x {
        assert(rows[rows.len() - 1] == rows.last());
        assert(spec_pool_total_selected(rows[rows.len() - 1], markout));
    } else {
        if spec_pool_total_selected(rows.last(), markout) {
            let k = choose|k: int| 0 <= k < prev.push(spec_pool_total_of(rows.last())).len()
                && prev.push(spec_pool_total_of(rows.last()))[k] == x;
            assert(k < prev.len());
            assert(prev[k] == x);
        }
        assert(prev.contains(x));
        lemma_pool_total_rows_from(d, markout, x);
        let i = choose|i: int| 0 <= i < d.len() && spec_pool_total_selected(#[trigger] d[i], markout)
            && spec_pool_total_of(d[i]) == x;
        assert(rows[i] == d[i]);
    }
}

/// The pool totals served from the checkpoints come largest first, and
/// each is the total of a selected checkpoint row.
pub proof fn lemma_pool_totals_ranked(q: PoolTotalsQuery, rows: Seq<CheckpointRow>)
    ensures
        forall|i: int, j: int| 0 <= i < j < spec_get_pool_totals(q, rows).len()
            ==> spec_get_pool_totals(q, rows)[i].2 >= spec_get_pool_totals(q, rows)[j].2,
        forall|k: int| 0 <= k < spec_get_pool_totals(q, rows).len()
            ==> spec_total_from_row(rows, spec_markout_or_brontes(q.markout_time), #[trigger] spec_get_pool_totals(q, rows)[k]),
{
    let m = spec_markout_or_brontes(q.markout_time);
    let s = spec_pool_total_rows(rows, m);
    let key = |v: (Seq<char>, Seq<char>, u64)| spec_total_key(v);
    lemma_rank_desc_sorted(s, key);
    let r = spec_rank_desc(s, key);
    assert forall|i: int, j: int| 0 <= i < j < r.len() implies r[i].2 >= r[j].2 by {
        assert(key(r[i]) >= key(r[j]));
    }
    assert forall|k: int| 0 <= k < r.len() implies spec_total_from_row(rows, m, #[trigger] r[k]) by {
        broadcast use vstd::seq_lib::group_to_multiset_ensures;
        assert(r.to_multiset().count(r[k]) > 0);
        assert(s.to_multiset().count(r[k]) > 0);
        assert(s.contains(r[k]));
        lemma_pool_total_rows_from(rows, m, r[k]);
    }
}

/// Ranks pool totals, largest first, and states the result over views.
fn rank_pool_totals(v: Vec<PoolTotal>) -> (r: Vec<PoolTotal>)
    ensures
        spec_pool_totals_view(r@) == spec_rank_desc(spec_pool_totals_view(v@), |x: (Seq<char>, Seq<char>, u64)| spec_total_key(x)),
{
    let r = rank_desc(v);
    proof {
        let kt = |t: PoolTotal| t.spec_rank();
        let f = |t: PoolTotal| t@;
        let kv = |x: (Seq<char>, Seq<char>, u64)| spec_total_key(x);
        assert forall|a: PoolTotal| #[trigger] kv(f(a)) == kt(a) by {}
        lemma_rank_desc_map(v@, kt, f, kv);
    }
    r
}

/// The pool totals of a markout time read from the checkpoints (see
/// `spec_get_pool_totals`).
pub fn get_pool_totals(query: &PoolTotalsQuery, rows: &Vec<CheckpointRow>) -> (r: PoolTotalsResponse)
    ensures
        spec_pool_totals_view(r.totals@) == spec_get_pool_totals(*query, rows@),
{
    let markout = markout_or_brontes(&query.markout_time);
    let suffix = checkpoint_suffix(&markout);
    let ghost m = markout@;
    let mut out: Vec<PoolTotal> = Vec::new();
    let mut i: usize = 0;
    while i < rows.len()
        invariant
            i <= rows.len(),
            m == spec_markout_or_brontes(query.markout_time),
            markout@ == m,
            suffix@ == spec_checkpoint_suffix(m),
            spec_pool_totals_view(out@) == spec_pool_total_rows(rows@.take(i as int), m),
        decreases rows.len() - i,
    {
        let r = &rows[i];
        let ghost before = spec_pool_totals_view(out@);
        proof {
            assert(rows@.take(i + 1).drop_last() =~= rows@.take(i as int));
            assert(rows@.take(i + 1).last() == rows@[i as int]);
        }
        if path_ends_with(r.file_path.as_str(), suffix.as_str()) && is_valid_pool(r.pair_address.as_str())
            && r.has_activity {
            let address = to_lower(r.pair_address.as_str());
            let name = get_pool_name(address.as_str());
            let t = PoolTotal { pool_name: name, pool_address: address, total_lvr_cents: unsigned_abs(r.running_total) };
            out.push(t);
            proof {
                assert(spec_pool_totals_view(out@) =~= before.push(t@));
            }
        }
        i = i + 1;
    }
    assert(rows@.take(rows.len() as int) =~= rows@);
    PoolTotalsResponse { totals: rank_pool_totals(out) }
}

/// The sum of a prefix of counts is at most the sum of them all.
proof fn lemma_sum_prefix(s: Seq<u64>, i: int)
    requires
        0 <= i <= s.len(),
    ensures
        spec_sum(s.take(i)) <= spec_sum(s),
    decreases s.len(),
{
    if i < s.len() {
        lemma_sum_prefix(s.drop_last(), i);
        assert(s.drop_last().take(i) =~= s.take(i));
    } else {
        assert(s.take(i) =~= s);
    }
}

/// The sum of counts that together fit in 64 bits.
fn sum_counts(s: &Vec<u64>) -> (r: u64)
    requires
        spec_sum(s@) <= u64::MAX,
    ensures
        r == spec_sum(s@),
{
    let mut acc: u64 = 0;
    let mut i: usize = 0;
    while i < s.len()
        invariant
            i <= s.len(),
            spec_sum(s@) <= u64::MAX,
            acc == spec_sum(s@.take(i as int)),
        decreases s.len() - i,
    {
        proof {
            assert(s@.take(i + 1).drop_last() =~= s@.take(i as int));
            lemma_sum_prefix(s@, i + 1);
        }
        acc = acc + s[i];
        i = i + 1;
    }
    assert(s@.take(s.len() as int) =~= s@);
    acc
}

/// Whether the counts of a checkpoint row of a tracked pool fit in 64 bits.
pub open spec fn spec_counts_fit(r: CheckpointRow) -> bool {
    spec_is_valid_pool(r.pair_address@) ==> r.total_bucket_0 + spec_sum(r.non_zero_buckets@) <= u64::MAX
}

/// The precomputed pool-total rows of the checkpoint rows, in row order:
/// for each row of a tracked pool with some counted block, the pool's
/// lowercased address and name, the markout time its file names, the
/// magnitude of its running total, its non-zero blocks and all its blocks.
/// `None` when such a row's file names no markout time.
pub open spec fn spec_pool_metric_rows(rows: Seq<CheckpointRow>) -> Option<Seq<(Seq<char>, Seq<char>, Seq<char>, u64, u64, u64)>>
    decreases rows.len(),
{
    if rows.len() == 0 {
        Some(Seq::empty())
    } else {
        match spec_pool_metric_rows(rows.drop_last()) {
            None => None,
            Some(prev) => {
                let r = rows.last();
                let non_zero = spec_sum(r.non_zero_buckets@);
                let total = r.total_bucket_0 + non_zero;
                if !spec_is_valid_pool(r.pair_address@) || total <= 0 {
                    Some(prev)
                } else {
                    match spec_checkpoint_markout(r.file_path@) {
                        None => None,
                        Some(m) => {
                            let a = spec_lower(r.pair_address@);
                            Some(prev.push((a, spec_pool_name(a), m, spec_unsigned_abs(r.running_total),
                                non_zero as u64, total as u64)))
                        },
                    }
                }
            },
        }
    }
}

/// Whether a checkpoint row gives a precomputed pool-total row: its pool
/// is tracked and it counted some block.
pub open spec fn spec_metric_kept(r: CheckpointRow) -> bool {
    spec_is_valid_pool(r.pair_address@) && r.total_bucket_0 + spec_sum(r.non_zero_buckets@) > 0
}

/// The precomputed pool-total row a kept checkpoint row gives: its
/// lowercased pool and that pool's name, the markout time its file names,
/// the magnitude of its running total, its non-zero blocks (the sum of its
/// non-zero buckets) and all its blocks.
pub open spec fn spec_metric_of(r: CheckpointRow) -> (Seq<char>, Seq<char>, Seq<char>, u64, u64, u64) {
    let a = spec_lower(r.pair_address@);
    let non_zero = spec_sum(r.non_zero_buckets@);
    (a, spec_pool_name(a), spec_checkpoint_markout(r.file_path@).unwrap(), spec_unsigned_abs(r.running_total),
        non_zero as u64, (r.total_bucket_0 + non_zero) as u64)
}

/// The precomputed pool totals, row by row: they fail exactly when a kept
/// checkpoint row's file names no markout time; otherwise they are, in
/// order, the rows that each kept checkpoint row gives.
pub proof fn lemma_pool_metric_rows_law(rows: Seq<CheckpointRow>)
    ensures
        spec_pool_metric_rows(rows) is None <==> exists|i: int| 0 <= i < rows.len()
            && spec_metric_kept(#[trigger] rows[i]) && spec_checkpoint_markout(rows[i].file_path@) is None,
        spec_pool_metric_rows(rows) is Some ==> spec_pool_metric_rows(rows).unwrap()
            == rows.filter(|r: CheckpointRow| spec_metric_kept(r)).map_values(|r: CheckpointRow| spec_metric_of(r)),
    decreases rows.len(),
{
    if rows.len() > 0 {
        let d = rows.drop_last();
        lemma_pool_metric_rows_law(d);
        let x = rows.last();
        let n = rows.len() - 1;
        assert(rows[n] == x);
        assert forall|i: int| 0 <= i < d.len() implies #[trigger] d[i] == rows[i] by {}
        let kept = |r: CheckpointRow| spec_metric_kept(r);
        let of = |r: CheckpointRow| spec_metric_of(r);
        assert(rows.filter(kept) == if kept(x) { d.filter(kept).push(x) } else { d.filter(kept) }) by {
            reveal(Seq::filter);
            assert(rows.drop_last() == d);
        }
        if kept(x) {
            assert(d.filter(kept).push(x).map_values(of) =~= d.filter(kept).map_values(of).push(of(x)));
        }
        if exists|i: int| 0 <= i < d.len() && spec_metric_kept(#[trigger] d[i]) && spec_checkpoint_markout(d[i].file_path@) is None {
            let i = choose|i: int| 0 <= i < d.len() && spec_metric_kept(#[trigger] d[i]) && spec_checkpoint_markout(d[i].file_path@) is None;
            assert(rows[i] == d[i]);
        }
        if exists|i: int| 0 <= i < rows.len() && spec_metric_kept(#[trigger] rows[i]) && spec_checkpoint_markout(rows[i].file_path@) is None {
            let i = choose|i: int| 0 <= i < rows.len() && spec_metric_kept(#[trigger] rows[i]) && spec_checkpoint_markout(rows[i].file_path@) is None;
            if i < n {
                assert(d[i] == rows[i]);
            }
        }
    }
}

/// The precomputed pool-total rows of the checkpoint rows (see
/// `spec_pool_metric_rows`); `None` where a file names no markout time.
pub fn pool_metric_rows(rows: &Vec<CheckpointRow>) -> (r: Option<Vec<PoolMetricsRow>>)
    requires
        forall|i: int| 0 <= i < rows.len() ==> spec_counts_fit(#[trigger] rows@[i]),
    ensures
        match r {
            Some(v) => spec_pool_metric_rows(rows@) == Some(spec_metrics_view(v@)),
            None => spec_pool_metric_rows(rows@) is None,
        },
{
    let mut out: Vec<PoolMetricsRow> = Vec::new();
    let mut i: usize = 0;
    while i < rows.len()
        invariant
            i <= rows.len(),
            forall|k: int| 0 <= k < rows.len() ==> spec_counts_fit(#[trigger] rows@[k]),
            spec_pool_metric_rows(rows@.take(i as int)) == Some(spec_metrics_view(out@)),
        decreases rows.len() - i,
    {
        let r = &rows[i];
        let ghost before = spec_metrics_view(out@);
        proof {
            assert(rows@.take(i + 1).drop_last() =~= rows@.take(i as int));
            assert(rows@.take(i + 1).last() == rows@[i as int]);
            assert(spec_counts_fit(rows@[i as int]));
        }
        if is_valid_pool(r.pair_address.as_str()) {
            let non_zero = sum_counts(&r.non_zero_buckets);
            let total = r.total_bucket_0 + non_zero;
            if total > 0 {
                match checkpoint_markout(r.file_path.as_str()) {
                    None => {
                        proof {
                            lemma_metric_rows_fail(rows@, i as int);
                        }
                        return None;
                    },
                    Some(m) => {
                        let address = to_lower(r.pair_address.as_str());
                        let name = get_pool_name(address.as_str());
                        let row = PoolMetricsRow {
                            pool_address: address,
                            pool_name: name,
                            markout_time: m,
                            total_lvr_cents: unsigned_abs(r.running_total),
                            non_zero_blocks: non_zero,
                            total_blocks: total,
                        };
                        out.push(row);
                        proof {
                            assert(spec_metrics_view(out@) =~= before.push(row@));
                        }
                    },
                }
            }
        }
        i = i + 1;
    }
    assert(rows@.take(rows.len() as int) =~= rows@);
    Some(out)
}

/// Once a prefix of the rows fails, so do all the rows.
proof fn lemma_metric_rows_fail(rows: Seq<CheckpointRow>, i: int)
    requires
        0 <= i < rows.len(),
        spec_pool_metric_rows(rows.take(i + 1)) is None,
    ensures
        spec_pool_metric_rows(rows) is None,
    decreases rows.len(),
{
    if i + 1 < rows.len() {
        assert(rows.drop_last().take(i + 1) =~= rows.take(i + 1));
        lemma_metric_rows_fail(rows.drop_last(), i);
    } else {
        assert(rows.take(i + 1) =~= rows);
    }
}

/// Whether a precomputed pool-total row answers a request for a markout
/// time: it is of that markout time and has some non-zero block.
pub open spec fn spec_metrics_row_selected(r: (Seq<char>, Seq<char>, Seq<char>, u64, u64, u64), markout: Seq<char>) -> bool {
    r.2 == markout && r.4 > 0
}

/// The pool totals of the selected precomputed rows, in row order.
pub open spec fn spec_metrics_totals(rows: Seq<(Seq<char>, Seq<char>, Seq<char>, u64, u64, u64)>, markout: Seq<char>) -> Seq<(Seq<char>, Seq<char>, u64)>
    decreases rows.len(),
{
    if rows.len() == 0 {
        Seq::empty()
    } else {
        let prev = spec_metrics_totals(rows.drop_last(), markout);
        let r = rows.last();
        if spec_metrics_row_selected(r, markout) {
            prev.push((r.1, r.0, r.3))
        } else {
            prev
        }
    }
}

/// The pool totals of a markout time (`brontes` unless the request names
/// one), read from the precomputed rows: the totals of the rows of that
/// markout time with some non-zero block, largest first, ties in row order.
pub fn select_pool_totals(query: &PoolTotalsQuery, rows: &Vec<PoolMetricsRow>) -> (r: PoolTotalsResponse)
    ensures
        spec_pool_totals_view(r.totals@) == spec_rank_desc(
            spec_metrics_totals(spec_metrics_view(rows@), spec_markout_or_brontes(query.markout_time)),
            |x: (Seq<char>, Seq<char>, u64)| spec_total_key(x),
        ),
{
    let markout = markout_or_brontes(&query.markout_time);
    let ghost m = markout@;
    let ghost rv = spec_metrics_view(rows@);
    let mut out: Vec<PoolTotal> = Vec::new();
    let mut i: usize = 0;
    while i < rows.len()
        invariant
            i <= rows.len(),
            markout@ == m,
            rv == spec_metrics_view(rows@),
            spec_pool_totals_view(out@) == spec_metrics_totals(rv.take(i as int), m),
        decreases rows.len() - i,
    {
        let r = &rows[i];
        let ghost before = spec_pool_totals_view(out@);
        proof {
            assert(rv.take(i + 1).drop_last() =~= rv.take(i as int));
            assert(rv.take(i + 1).last() == r@);
        }
        if r.markout_time == markout && r.non_zero_blocks > 0 {
            let t = PoolTotal {
                pool_name: r.pool_name.clone(),
                pool_address: r.pool_address.clone(),
                total_lvr_cents: r.total_lvr_cents,
            };
            out.push(t);
            proof {
                assert(spec_pool_totals_view(out@) =~= before.push(t@));
            }
        }
        i = i + 1;
    }
    assert(rv.take(rows.len() as int) =~= rv);
    PoolTotalsResponse { totals: rank_pool_totals(out) }
}

/// The pool and markout time whose histogram a request asks for.
pub struct HistogramQuery {
    pub pool_address: String,
    pub markout_time: String,
}

/// The counts of the non-zero buckets of one pool and markout time.
pub struct HistogramCounts {
    pub pool_name: String,
    pub pool_address: String,
    /// The counts of the non-zero buckets, smallest bucket first.
    pub counts: Vec<u64>,
    /// The sum of the counts.
    pub total_observations: u64,
}

/// The first checkpoint row, from `i` on, whose lowercased path ends with
/// `pattern`.
pub open spec fn spec_first_ending(rows: Seq<CheckpointRow>, pattern: Seq<char>, i: int) -> Option<int>
    decreases rows.len() - i,
{
    if i < 0 || i >= rows.len() {
        None
    } else if spec_ends_with(spec_lower(rows[i].file_path@), pattern) {
        Some(i)
    } else {
        spec_first_ending(rows, pattern, i + 1)
    }
}

/// The checkpoint pattern of a pool and markout time: the lowercased pool,
/// `_`, the markout time as written, `.parquet`.
pub open spec fn spec_pool_pattern(q: HistogramQuery) -> Seq<char> {
    spec_lower(q.pool_address@) + seq!['_'] + q.markout_time@ + ".parquet"@
}

/// The histogram of a pool and markout time: refused for a pool that is
/// not tracked; else the non-zero bucket counts of the first checkpoint row
/// whose lowercased path ends with the pool's pattern, and their sum; not
/// found when no row matches.
pub open spec fn spec_get_lvr_histogram(q: HistogramQuery, rows: Seq<CheckpointRow>) -> Result<(Seq<char>, Seq<char>, Seq<u64>, int), ApiError> {
    let pool = spec_lower(q.pool_address@);
    if !spec_is_valid_pool(q.pool_address@) {
        Err(ApiError::BadRequest)
    } else {
        match spec_first_ending(rows, spec_pool_pattern(q), 0) {
            None => Err(ApiError::NotFound),
            Some(i) => Ok((spec_pool_name(pool), pool, rows[i].non_zero_buckets@, spec_sum(rows[i].non_zero_buckets@))),
        }
    }
}

/// A found row lies in the sequence.
proof fn lemma_first_ending(rows: Seq<CheckpointRow>, pattern: Seq<char>, i: int, j: int)
    requires
        spec_first_ending(rows, pattern, i) == Some(j),
    ensures
        i <= j < rows.len(),
    decreases rows.len() - i,
{
    if i >= 0 && i < rows.len() && !spec_ends_with(spec_lower(rows[i].file_path@), pattern) {
        lemma_first_ending(rows, pattern, i + 1, j);
    }
}

/// A copy of counts.
pub(crate) fn copy_counts(v: &Vec<u64>) -> (r: Vec<u64>)
    ensures
        r@ == v@,
{
    let mut counts: Vec<u64> = Vec::new();
    let mut k: usize = 0;
    while k < v.len()
        invariant
            k <= v.len(),
            counts@ == v@.take(k as int),
        decreases v.len() - k,
    {
        counts.push(v[k]);
        assert(v@.take(k + 1) =~= v@.take(k as int).push(v@[k as int]));
        k = k + 1;
    }
    assert(v@.take(v.len() as int) =~= v@);
    counts
}

/// The histogram of a pool and markout time (see `spec_get_lvr_histogram`).
pub fn get_lvr_histogram(query: &HistogramQuery, rows: &Vec<CheckpointRow>) -> (r: Result<HistogramCounts, ApiError>)
    requires
        forall|i: int| 0 <= i < rows.len() ==> spec_sum((#[trigger] rows@[i]).non_zero_buckets@) <= u64::MAX,
    ensures
        match r {
            Ok(h) => spec_get_lvr_histogram(*query, rows@)
                == Ok::<_, ApiError>((h.pool_name@, h.pool_address@, h.counts@, h.total_observations as int)),
            Err(e) => spec_get_lvr_histogram(*query, rows@) == Err::<(Seq<char>, Seq<char>, Seq<u64>, int), _>(e),
        },
{
    let pool = to_lower(query.pool_address.as_str());
    if !is_valid_pool(query.pool_address.as_str()) {
        return Err(ApiError::BadRequest);
    }
    let a = concat(pool.as_str(), "_");
    let b = concat(a.as_str(), query.markout_time.as_str());
    let pattern = concat(b.as_str(), ".parquet");
    proof {
        reveal_strlit("_");
        assert(pattern@ =~= spec_pool_pattern(*query));
    }
    let mut i: usize = 0;
    while i < rows.len()
        invariant
            i <= rows.len(),
            pattern@ == spec_pool_pattern(*query),
            pool@ == spec_lower(query.pool_address@),
            spec_is_valid_pool(query.pool_address@),
            forall|k: int| 0 <= k < rows.len() ==> spec_sum((#[trigger] rows@[k]).non_zero_buckets@) <= u64::MAX,
            spec_first_ending(rows@, pattern@, 0) == spec_first_ending(rows@, pattern@, i as int),
        decreases rows.len() - i,
    {
        let r = &rows[i];
        let lower_path = to_lower(r.file_path.as_str());
        if path_ends_with(lower_path.as_str(), pattern.as_str()) {
            assert(spec_first_ending(rows@, pattern@, i as int) == Some(i as int));
            assert(spec_sum(rows@[i as int].non_zero_buckets@) <= u64::MAX);
            let total = sum_counts(&r.non_zero_buckets);
            let counts = copy_counts(&r.non_zero_buckets);
            let name = get_pool_name(pool.as_str());
            return Ok(HistogramCounts { pool_name: name, pool_address: pool, counts, total_observations: total });
        }
        i = i + 1;
    }
    Err(ApiError::NotFound)
}

/// The markout time whose pool medians a request asks for.
pub struct MedianLVRQuery {
    pub markout_time: Option<String>,
}

/// The median interval LVR of one pool.
pub struct PoolMedianLVR {
    pub pool_name: String,
    pub pool_address: String,
    pub median_lvr_cents: u64,
}

/// The pool medians answering a request, largest first.
pub struct MedianLVRResponse {
    pub medians: Vec<PoolMedianLVR>,
}

impl View for PoolMedianLVR {
    /// Pool name, pool address and median.
    type V = (Seq<char>, Seq<char>, u64);

    open spec fn view(&self) -> Self::V {
        (self.pool_name@, self.pool_address@, self.median_lvr_cents)
    }
}

impl RankKey for PoolMedianLVR {
    open spec fn spec_rank(&self) -> u64 {
        self.median_lvr_cents
    }

    fn rank(&self) -> (r: u64) {
        self.median_lvr_cents
    }
}

impl RankKey for u64 {
    open spec fn spec_rank(&self) -> u64 {
        *self
    }

    fn rank(&self) -> (r: u64) {
        *self
    }
}

/// The views of a sequence of pool medians.
pub open spec fn spec_medians_view(v: Seq<PoolMedianLVR>) -> Seq<(Seq<char>, Seq<char>, u64)> {
    v.map_values(|t: PoolMedianLVR| t@)
}

/// Whether an interval row counts toward the pool medians of a markout
/// time: it is of that markout time, of a tracked pool, and both its median
/// and its count of non-zero blocks are positive.
pub open spec fn spec_median_row(r: IntervalRow, markout: Seq<char>) -> bool {
    &&& r.markout_time@ == markout
    &&& spec_is_valid_pool(r.pair_address@)
    &&& r.median_lvr_cents > 0
    &&& r.non_zero_count > 0
}

/// The first index of the group of `key`.
pub open spec fn spec_group_find(g: Seq<(Seq<char>, Seq<u64>)>, key: Seq<char>, i: int) -> Option<int>
    decreases g.len() - i,
{
    if i < 0 || i >= g.len() {
        None
    } else if g[i].0 == key {
        Some(i)
    } else {
        spec_group_find(g, key, i + 1)
    }
}

/// The groups with `v` added to the group of `key`, a new group last.
pub open spec fn spec_group_add(g: Seq<(Seq<char>, Seq<u64>)>, key: Seq<char>, v: u64) -> Seq<(Seq<char>, Seq<u64>)> {
    match spec_group_find(g, key, 0) {
        Some(j) => g.update(j, (key, g[j].1.push(v))),
        None => g.push((key, seq![v])),
    }
}

/// The interval medians of the selected rows grouped by lowercased pool
/// address, pools in the order of their first row, values in row order.
pub open spec fn spec_median_groups(rows: Seq<IntervalRow>, markout: Seq<char>) -> Seq<(Seq<char>, Seq<u64>)>
    decreases rows.len(),
{
    if rows.len() == 0 {
        Seq::empty()
    } else {
        let prev = spec_median_groups(rows.drop_last(), markout);
        let r = rows.last();
        if spec_median_row(r, markout) {
            spec_group_add(prev, spec_lower(r.pair_address@), r.median_lvr_cents)
        } else {
            prev
        }
    }
}

/// The values sorted, largest first.
pub open spec fn spec_sorted_values(s: Seq<u64>) -> Seq<u64> {
    spec_rank_desc(s, |x: u64| x)
}

/// The median of sorted values: the middle one, or the mean of the two
/// middle ones rounded down.
pub open spec fn spec_median(s: Seq<u64>) -> int {
    let n = s.len() as int;
    if n % 2 == 0 && n >= 2 {
        (s[n / 2 - 1] + s[n / 2]) / 2
    } else if n > 0 {
        s[n / 2] as int
    } else {
        0
    }
}

/// The median of each group, in group order.
pub open spec fn spec_group_medians(g: Seq<(Seq<char>, Seq<u64>)>) -> Seq<(Seq<char>, Seq<char>, u64)> {
    g.map_values(|e: (Seq<char>, Seq<u64>)| (spec_pool_name(e.0), e.0, spec_median(spec_sorted_values(e.1)) as u64))
}

/// The pool medians of a markout time (`brontes` unless the request names
/// one) over interval rows: the median of each pool's selected interval
/// medians, largest first, ties in the order of the pools' first rows.
pub open spec fn spec_get_pool_medians(q: MedianLVRQuery, rows: Seq<IntervalRow>) -> Seq<(Seq<char>, Seq<char>, u64)> {
    spec_rank_desc(
        spec_group_medians(spec_median_groups(rows, spec_markout_or_brontes(q.markout_time))),
        |x: (Seq<char>, Seq<char>, u64)| spec_total_key(x),
    )
}

/// Whether `x` is the median entry of one of the groups: its pool's name,
/// the pool, and the median of the group's values sorted.
pub open spec fn spec_median_of_group(g: Seq<(Seq<char>, Seq<u64>)>, x: (Seq<char>, Seq<char>, u64)) -> bool {
    exists|k: int| 0 <= k < g.len() && x == (spec_pool_name((#[trigger] g[k]).0), g[k].0,
        spec_median(spec_sorted_values(g[k].1)) as u64)
}

/// Sorted values are ordered largest first and hold the same values.
pub proof fn lemma_sorted_values(s: Seq<u64>)
    ensures
        forall|i: int, j: int| 0 <= i < j < spec_sorted_values(s).len()
            ==> spec_sorted_values(s)[i] >= spec_sorted_values(s)[j],
        spec_sorted_values(s).to_multiset() =~= s.to_multiset(),
{
    lemma_rank_desc_sorted(s, |x: u64| x);
}

/// The median of a pool's values: with the values sorted (largest first,
/// the same values), it lies between the two middle ones; for an odd count
/// it is the middle one, for an even count the mean of the two middle ones
/// rounded down. So at least half of the values are at least the median and
/// at least half are at most it.
pub proof fn lemma_median_middle(v: Seq<u64>)
    requires
        v.len() > 0,
    ensures
        ({
            let s = spec_sorted_values(v);
            let n = v.len() as int;
            let m = spec_median(s);
            &&& s.len() == n
            &&& s.to_multiset() =~= v.to_multiset()
            &&& n % 2 == 1 ==> m == s[(n - 1) / 2]
            &&& n % 2 == 0 ==> 2 * m <= s[n / 2 - 1] + s[n / 2] <= 2 * m + 1
            &&& forall|i: int| 0 <= i < n / 2 ==> #[trigger] s[i] >= m
            &&& forall|i: int| n - n / 2 <= i < n ==> #[trigger] s[i] <= m
        }),
{
    let s = spec_sorted_values(v);
    lemma_sorted_values(v);
    vstd::seq_lib::to_multiset_len(s);
    vstd::seq_lib::to_multiset_len(v);
    let n = v.len() as int;
    let m = spec_median(s);
    if n % 2 == 0 {
        assert(s[n / 2 - 1] >= s[n / 2]);
    }
    assert forall|i: int| 0 <= i < n / 2 implies #[trigger] s[i] >= m by {
        if i < n / 2 - 1 {
            assert(s[i] >= s[n / 2 - 1]);
        }
        if n % 2 == 1 && i < n / 2 {
            assert(s[i] >= s[n / 2]);
        }
    }
    assert forall|i: int| n - n / 2 <= i < n implies #[trigger] s[i] <= m by {
        if i > n / 2 {
            assert(s[n / 2] >= s[i]);
        }
    }
}

/// The pool medians served come largest first, and each is the median of
/// the sorted values of one pool's group.
pub proof fn lemma_pool_medians_ranked(q: MedianLVRQuery, rows: Seq<IntervalRow>)
    ensures
        forall|i: int, j: int| 0 <= i < j < spec_get_pool_medians(q, rows).len()
            ==> spec_get_pool_medians(q, rows)[i].2 >= spec_get_pool_medians(q, rows)[j].2,
        forall|k: int| 0 <= k < spec_get_pool_medians(q, rows).len() ==> spec_median_of_group(
            spec_median_groups(rows, spec_markout_or_brontes(q.markout_time)),
            #[trigger] spec_get_pool_medians(q, rows)[k],
        ),
{
    let g = spec_median_groups(rows, spec_markout_or_brontes(q.markout_time));
    let m = spec_group_medians(g);
    let key = |v: (Seq<char>, Seq<char>, u64)| spec_total_key(v);
    lemma_rank_desc_sorted(m, key);
    let r = spec_rank_desc(m, key);
    assert forall|i: int, j: int| 0 <= i < j < r.len() implies r[i].2 >= r[j].2 by {
        assert(key(r[i]) >= key(r[j]));
    }
    assert forall|k: int| 0 <= k < r.len() implies spec_median_of_group(g, #[trigger] r[k]) by {
        broadcast use vstd::seq_lib::group_to_multiset_ensures;
        assert(r.to_multiset().count(r[k]) > 0);
        assert(m.to_multiset().count(r[k]) > 0);
        assert(m.contains(r[k]));
        let w = choose|w: int| 0 <= w < m.len() && m[w] == r[k];
        assert(g[w].0 == m[w].1);
    }
}

/// The median of sorted values (see `spec_median`).
fn median_of(s: &Vec<u64>) -> (r: u64)
    ensures
        r == spec_median(s@),
{
    let n = s.len();
    if n % 2 == 0 && n >= 2 {
        let a = s[n / 2 - 1];
        let b = s[n / 2];
        proof {
            assert(a / 2 + b / 2 + (a % 2 + b % 2) / 2 == (a + b) / 2) by (nonlinear_arith);
            assert(a / 2 + b / 2 + (a % 2 + b % 2) / 2 <= u64::MAX) by (nonlinear_arith);
        }
        a / 2 + b / 2 + (a % 2 + b % 2) / 2
    } else if n > 0 {
        s[n / 2]
    } else {
        0
    }
}

/// Adds `v` to the group of `key` (see `spec_group_add`).
fn group_add(g: &mut Vec<(String, Vec<u64>)>, key: String, v: u64)
    ensures
        spec_groups_view(final(g)@) == spec_group_add(spec_groups_view(old(g)@), key@, v),
{
    let ghost before = spec_groups_view(g@);
    let mut j: usize = 0;
    while j < g.len()
        invariant
            j <= g.len(),
            before == spec_groups_view(g@),
            spec_groups_view(old(g)@) == before,
            spec_group_find(before, key@, 0) == spec_group_find(before, key@, j as int),
        decreases g.len() - j,
    {
        assert(before[j as int] == (g@[j as int].0@, g@[j as int].1@));
        if g[j].0 == key {
            proof {
                assert(spec_group_find(before, key@, j as int) == Some(j as int));
            }
            g[j].1.push(v);
            proof {
                assert(spec_groups_view(g@) =~= before.update(j as int, (key@, before[j as int].1.push(v))));
                assert(spec_group_add(before, key@, v) == before.update(j as int, (key@, before[j as int].1.push(v))));
                assert(spec_groups_view(g@) == spec_group_add(before, key@, v));
            }
            return;
        }
        j = j + 1;
    }
    let ghost kv = key@;
    let mut vals: Vec<u64> = Vec::new();
    vals.push(v);
    g.push((key, vals));
    proof {
        assert(spec_groups_view(g@) =~= before.push((kv, seq![v])));
    }
}

/// The views of groups of values.
pub open spec fn spec_groups_view(g: Seq<(String, Vec<u64>)>) -> Seq<(Seq<char>, Seq<u64>)> {
    g.map_values(|e: (String, Vec<u64>)| (e.0@, e.1@))
}

/// The pool medians of a markout time over interval rows (see
/// `spec_get_pool_medians`).
pub fn get_pool_medians(query: &MedianLVRQuery, rows: &Vec<IntervalRow>) -> (r: MedianLVRResponse)
    ensures
        spec_medians_view(r.medians@) == spec_get_pool_medians(*query, rows@),
{
    let markout = markout_or_brontes(&query.markout_time);
    let ghost m = markout@;
    let mut groups: Vec<(String, Vec<u64>)> = Vec::new();
    let mut i: usize = 0;
    while i < rows.len()
        invariant
            i <= rows.len(),
            markout@ == m,
            m == spec_markout_or_brontes(query.markout_time),
            spec_groups_view(groups@) == spec_median_groups(rows@.take(i as int), m),
        decreases rows.len() - i,
    {
        let r = &rows[i];
        proof {
            assert(rows@.take(i + 1).drop_last() =~= rows@.take(i as int));
            assert(rows@.take(i + 1).last() == rows@[i as int]);
        }
        if r.markout_time == markout && is_valid_pool(r.pair_address.as_str()) && r.median_lvr_cents > 0
            && r.non_zero_count > 0 {
            group_add(&mut groups, to_lower(r.pair_address.as_str()), r.median_lvr_cents);
        }
        i = i + 1;
    }
    assert(rows@.take(rows.len() as int) =~= rows@);
    let ghost gv = spec_groups_view(groups@);
    let n = groups.len();
    let mut rest = groups;
    let mut out: Vec<PoolMedianLVR> = Vec::new();
    let mut k: usize = 0;
    while k < n
        invariant
            k <= n,
            n == gv.len(),
            gv == spec_median_groups(rows@, m),
            m == spec_markout_or_brontes(query.markout_time),
            rest.len() == n - k,
            spec_groups_view(rest@) == gv.subrange(k as int, n as int),
            spec_medians_view(out@) == spec_group_medians(gv.take(k as int)),
        decreases n - k,
    {
        let ghost old_rest = rest@;
        let ghost before = spec_medians_view(out@);
        let (key, vals) = rest.remove(0);
        proof {
            assert(spec_groups_view(old_rest)[0] == (old_rest[0].0@, old_rest[0].1@));
            assert(key@ == gv[k as int].0 && vals@ == gv[k as int].1);
            assert forall|q: int| 0 <= q < rest@.len() implies
                #[trigger] spec_groups_view(rest@)[q] == gv[k + 1 + q] by {
                assert(rest@[q] == old_rest[q + 1]);
                assert(spec_groups_view(old_rest)[q + 1] == (old_rest[q + 1].0@, old_rest[q + 1].1@));
            }
            assert(spec_groups_view(rest@) =~= gv.subrange(k + 1, n as int));
        }
        let sorted = rank_desc(vals);
        proof {
            assert((|t: u64| t.spec_rank()) =~= (|x: u64| x));
            assert(sorted@ == spec_sorted_values(gv[k as int].1));
        }
        let med = median_of(&sorted);
        let name = get_pool_name(key.as_str());
        let t = PoolMedianLVR { pool_name: name, pool_address: key, median_lvr_cents: med };
        out.push(t);
        proof {
            assert(gv.take(k + 1) =~= gv.take(k as int).push(gv[k as int]));
            assert(t@ == (spec_pool_name(gv[k as int].0), gv[k as int].0, spec_median(spec_sorted_values(gv[k as int].1)) as u64));
            assert(spec_group_medians(gv.take(k + 1)) =~= spec_group_medians(gv.take(k as int)).push(t@));
            assert(spec_medians_view(out@) =~= before.push(t@));
        }
        k = k + 1;
    }
    assert(gv.take(n as int) =~= gv);
    MedianLVRResponse { medians: rank_medians(out) }
}

/// Ranks pool medians, largest first, and states the result over views.
fn rank_medians(v: Vec<PoolMedianLVR>) -> (r: Vec<PoolMedianLVR>)
    ensures
        spec_medians_view(r@) == spec_rank_desc(spec_medians_view(v@), |x: (Seq<char>, Seq<char>, u64)| spec_total_key(x)),
{
    let r = rank_desc(v);
    proof {
        let kt = |t: PoolMedianLVR| t.spec_rank();
        let f = |t: PoolMedianLVR| t@;
        let kv = |x: (Seq<char>, Seq<char>, u64)| spec_total_key(x);
        assert forall|a: PoolMedianLVR| #[trigger] kv(f(a)) == kt(a) by {}
        lemma_rank_desc_map(v@, kt, f, kv);
    }
    r
}

/// One non-zero bucket count of one pool and markout time.
pub struct PoolBucketRow {
    pub pool_address: String,
    pub pool_name: String,
    pub markout_time: String,
    /// The bucket, counted from the smallest non-zero bucket.
    pub bucket: usize,
    pub count: u64,
}

impl View for PoolBucketRow {
    /// Pool address, pool name, markout time, bucket and count.
    type V = (Seq<char>, Seq<char>, Seq<char>, int, u64);

    open spec fn view(&self) -> Self::V {
        (self.pool_address@, self.pool_name@, self.markout_time@, self.bucket as int, self.count)
    }
}

/// The views of a sequence of pool bucket rows.
pub open spec fn spec_pool_buckets_view(v: Seq<PoolBucketRow>) -> Seq<(Seq<char>, Seq<char>, Seq<char>, int, u64)> {
    v.map_values(|t: PoolBucketRow| t@)
}

/// The rows of one checkpoint row's positive counts, smallest bucket first.
pub open spec fn spec_count_rows(pool: Seq<char>, markout: Seq<char>, vals: Seq<u64>) -> Seq<(Seq<char>, Seq<char>, Seq<char>, int, u64)>
    decreases vals.len(),
{
    if vals.len() == 0 {
        Seq::empty()
    } else {
        let prev = spec_count_rows(pool, markout, vals.drop_last());
        if vals.last() > 0 {
            prev.push((pool, spec_pool_name(pool), markout, vals.len() - 1, vals.last()))
        } else {
            prev
        }
    }
}

/// The precomputed histograms of the checkpoint rows, in row order: for
/// each row of a tracked pool (the lowercased name of its file up to the
/// first `_`), its positive non-zero bucket counts. `None` when a file of a
/// tracked pool names no markout time.
pub open spec fn spec_histogram_rows(rows: Seq<CheckpointRow>) -> Option<Seq<(Seq<char>, Seq<char>, Seq<char>, int, u64)>>
    decreases rows.len(),
{
    if rows.len() == 0 {
        Some(Seq::empty())
    } else {
        match spec_histogram_rows(rows.drop_last()) {
            None => None,
            Some(prev) => {
                let r = rows.last();
                let p = spec_checkpoint_pool(r.file_path@);
                if !spec_is_valid_pool(p) {
                    Some(prev)
                } else {
                    match spec_checkpoint_markout(r.file_path@) {
                        None => None,
                        Some(m) => Some(prev + spec_count_rows(p, m, r.non_zero_buckets@)),
                    }
                }
            },
        }
    }
}

/// Once a prefix of the rows fails, so do all the rows.
proof fn lemma_histogram_rows_fail(rows: Seq<CheckpointRow>, i: int)
    requires
        0 <= i < rows.len(),
        spec_histogram_rows(rows.take(i + 1)) is None,
    ensures
        spec_histogram_rows(rows) is None,
    decreases rows.len(),
{
    if i + 1 < rows.len() {
        assert(rows.drop_last().take(i + 1) =~= rows.take(i + 1));
        lemma_histogram_rows_fail(rows.drop_last(), i);
    } else {
        assert(rows.take(i + 1) =~= rows);
    }
}

/// The precomputed histograms of the checkpoint rows (see
/// `spec_histogram_rows`).
pub fn histogram_rows(rows: &Vec<CheckpointRow>) -> (r: Option<Vec<PoolBucketRow>>)
    ensures
        match r {
            Some(v) => spec_histogram_rows(rows@) == Some(spec_pool_buckets_view(v@)),
            None => spec_histogram_rows(rows@) is None,
        },
{
    let mut out: Vec<PoolBucketRow> = Vec::new();
    let mut i: usize = 0;
    while i < rows.len()
        invariant
            i <= rows.len(),
            spec_histogram_rows(rows@.take(i as int)) == Some(spec_pool_buckets_view(out@)),
        decreases rows.len() - i,
    {
        let r = &rows[i];
        proof {
            assert(rows@.take(i + 1).drop_last() =~= rows@.take(i as int));
            assert(rows@.take(i + 1).last() == rows@[i as int]);
        }
        let p = checkpoint_pool(r.file_path.as_str());
        if is_valid_pool(p.as_str()) {
            let m = match checkpoint_markout(r.file_path.as_str()) {
                None => {
                    proof {
                        lemma_histogram_rows_fail(rows@, i as int);
                    }
                    return None;
                },
                Some(m) => m,
            };
            let name = get_pool_name(p.as_str());
            let ghost base = spec_pool_buckets_view(out@);
            let vals = &r.non_zero_buckets;
            let mut b: usize = 0;
            while b < vals.len()
                invariant
                    b <= vals.len(),
                    name@ == spec_pool_name(p@),
                    spec_pool_buckets_view(out@) == base + spec_count_rows(p@, m@, vals@.take(b as int)),
                decreases vals.len() - b,
            {
                let ghost mid = spec_pool_buckets_view(out@);
                proof {
                    assert(vals@.take(b + 1).drop_last() =~= vals@.take(b as int));
                    assert(vals@.take(b + 1).last() == vals@[b as int]);
                }
                if vals[b] > 0 {
                    let row = PoolBucketRow {
                        pool_address: p.clone(),
                        pool_name: name.clone(),
                        markout_time: m.clone(),
                        bucket: b,
                        count: vals[b],
                    };
                    out.push(row);
                    proof {
                        assert(spec_pool_buckets_view(out@) =~= mid.push(row@));
                        assert(base + spec_count_rows(p@, m@, vals@.take(b + 1))
                            =~= (base + spec_count_rows(p@, m@, vals@.take(b as int))).push(row@));
                    }
                }
                b = b + 1;
            }
            assert(vals@.take(vals.len() as int) =~= vals@);
        }
        i = i + 1;
    }
    assert(rows@.take(rows.len() as int) =~= rows@);
    Some(out)
}

/// The values of one pool and markout time, smallest first.
pub struct QuartileGroup {
    pub pool_address: String,
    pub pool_name: String,
    pub markout_time: String,
    /// The positive interval totals, smallest first.
    pub values: Vec<u64>,
}

/// Groups of values keyed by pool and markout time.
pub open spec fn spec_pair_group_find(
    g: Seq<((Seq<char>, Seq<char>), Seq<u64>)>,
    key: (Seq<char>, Seq<char>),
    i: int,
) -> Option<int>
    decreases g.len() - i,
{
    if i < 0 || i >= g.len() {
        None
    } else if g[i].0 == key {
        Some(i)
    } else {
        spec_pair_group_find(g, key, i + 1)
    }
}

/// The groups with `v` added to the group of `key`, a new group last.
pub open spec fn spec_pair_group_add(
    g: Seq<((Seq<char>, Seq<char>), Seq<u64>)>,
    key: (Seq<char>, Seq<char>),
    v: u64,
) -> Seq<((Seq<char>, Seq<char>), Seq<u64>)> {
    match spec_pair_group_find(g, key, 0) {
        Some(j) => g.update(j, (key, g[j].1.push(v))),
        None => g.push((key, seq![v])),
    }
}

/// The positive totals of the interval rows that have some non-zero block
/// and belong to a tracked pool, grouped by lowercased pool and markout
/// time in the order of their first row; a row without a total counts
/// zero.
pub open spec fn spec_quartile_groups(rows: Seq<IntervalRow>) -> Seq<((Seq<char>, Seq<char>), Seq<u64>)>
    decreases rows.len(),
{
    if rows.len() == 0 {
        Seq::empty()
    } else {
        let prev = spec_quartile_groups(rows.drop_last());
        let r = rows.last();
        let v: u64 = match r.total_lvr_cents { Some(t) => t, None => 0 };
        if r.non_zero_count != 0 && spec_is_valid_pool(r.pair_address@) && v > 0 {
            spec_pair_group_add(prev, (spec_lower(r.pair_address@), r.markout_time@), v)
        } else {
            prev
        }
    }
}

/// The views of groups of values keyed by pool and markout time.
pub open spec fn spec_pair_groups_view(g: Seq<(String, String, Vec<u64>)>) -> Seq<((Seq<char>, Seq<char>), Seq<u64>)> {
    g.map_values(|e: (String, String, Vec<u64>)| ((e.0@, e.1@), e.2@))
}

/// Adds `v` to the group of a pool and markout time (see
/// `spec_pair_group_add`).
fn pair_group_add(g: &mut Vec<(String, String, Vec<u64>)>, pool: String, markout: String, v: u64)
    ensures
        spec_pair_groups_view(final(g)@) == spec_pair_group_add(spec_pair_groups_view(old(g)@), (pool@, markout@), v),
{
    let ghost before = spec_pair_groups_view(g@);
    let ghost key = (pool@, markout@);
    let mut j: usize = 0;
    while j < g.len()
        invariant
            j <= g.len(),
            before == spec_pair_groups_view(g@),
            spec_pair_groups_view(old(g)@) == before,
            key == (pool@, markout@),
            spec_pair_group_find(before, key, 0) == spec_pair_group_find(before, key, j as int),
        decreases g.len() - j,
    {
        assert(before[j as int] == ((g@[j as int].0@, g@[j as int].1@), g@[j as int].2@));
        if g[j].0 == pool && g[j].1 == markout {
            assert(spec_pair_group_find(before, key, j as int) == Some(j as int));
            g[j].2.push(v);
            proof {
                assert(spec_pair_groups_view(g@) =~= before.update(j as int, (key, before[j as int].1.push(v))));
                assert(spec_pair_groups_view(g@) == spec_pair_group_add(before, key, v));
            }
            return;
        }
        j = j + 1;
    }
    let mut vals: Vec<u64> = Vec::new();
    vals.push(v);
    g.push((pool, markout, vals));
    proof {
        assert(spec_pair_groups_view(g@) =~= before.push((key, seq![v])));
    }
}

/// The values smallest first: the ranking, largest first, reversed.
pub open spec fn spec_ascending(s: Seq<u64>) -> Seq<u64> {
    spec_sorted_values(s).reverse()
}

/// The values smallest first (see `spec_ascending`).
fn ascending(v: Vec<u64>) -> (r: Vec<u64>)
    ensures
        r@ == spec_ascending(v@),
{
    let ghost ov = v@;
    let d = rank_desc(v);
    proof {
        assert((|t: u64| t.spec_rank()) =~= (|x: u64| x));
    }
    let ghost dv = d@;
    assert(dv == spec_sorted_values(ov));
    let mut out: Vec<u64> = Vec::new();
    let n = d.len();
    let mut i: usize = 0;
    while i < n
        invariant
            i <= n,
            n == dv.len(),
            d@ == dv,
            out@ == dv.reverse().take(i as int),
        decreases n - i,
    {
        out.push(d[n - 1 - i]);
        proof {
            assert(dv.reverse()[i as int] == dv[n - 1 - i]);
            assert(dv.reverse().take(i + 1) =~= dv.reverse().take(i as int).push(dv[n - 1 - i]));
        }
        i = i + 1;
    }
    assert(dv.reverse().take(n as int) =~= dv.reverse());
    out
}

/// The groups of a quartile plot over interval rows: each pool and
/// markout time of `spec_quartile_groups`, with its name and its values
/// smallest first.
pub open spec fn spec_quartile_output(g: Seq<((Seq<char>, Seq<char>), Seq<u64>)>) -> Seq<(Seq<char>, Seq<char>, Seq<char>, Seq<u64>)> {
    g.map_values(|e: ((Seq<char>, Seq<char>), Seq<u64>)| (e.0.0, spec_pool_name(e.0.0), e.0.1, spec_ascending(e.1)))
}

impl View for QuartileGroup {
    /// Pool address, pool name, markout time and values.
    type V = (Seq<char>, Seq<char>, Seq<char>, Seq<u64>);

    open spec fn view(&self) -> Self::V {
        (self.pool_address@, self.pool_name@, self.markout_time@, self.values@)
    }
}

/// The views of a sequence of quartile groups.
pub open spec fn spec_quartile_view(v: Seq<QuartileGroup>) -> Seq<(Seq<char>, Seq<char>, Seq<char>, Seq<u64>)> {
    v.map_values(|t: QuartileGroup| t@)
}

/// The values behind the quartile plots of interval rows (see
/// `spec_quartile_groups` and `spec_quartile_output`).
pub fn quartile_groups(rows: &Vec<IntervalRow>) -> (r: Vec<QuartileGroup>)
    ensures
        spec_quartile_view(r@) == spec_quartile_output(spec_quartile_groups(rows@)),
{
    let mut groups: Vec<(String, String, Vec<u64>)> = Vec::new();
    let mut i: usize = 0;
    while i < rows.len()
        invariant
            i <= rows.len(),
            spec_pair_groups_view(groups@) == spec_quartile_groups(rows@.take(i as int)),
        decreases rows.len() - i,
    {
        let r = &rows[i];
        assert(rows@.take(i + 1).drop_last() =~= rows@.take(i as int));
        assert(rows@.take(i + 1).last() == rows@[i as int]);
        let v: u64 = match r.total_lvr_cents {
            Some(t) => t,
            None => 0,
        };
        if r.non_zero_count != 0 && is_valid_pool(r.pair_address.as_str()) && v > 0 {
            pair_group_add(&mut groups, to_lower(r.pair_address.as_str()), r.markout_time.clone(), v);
        }
        i = i + 1;
    }
    assert(rows@.take(rows.len() as int) =~= rows@);
    let ghost gv = spec_pair_groups_view(groups@);
    let n = groups.len();
    let mut rest = groups;
    let mut out: Vec<QuartileGroup> = Vec::new();
    let mut k: usize = 0;
    while k < n
        invariant
            k <= n,
            n == gv.len(),
            gv == spec_quartile_groups(rows@),
            rest.len() == n - k,
            spec_pair_groups_view(rest@) == gv.subrange(k as int, n as int),
            spec_quartile_view(out@) == spec_quartile_output(gv.take(k as int)),
        decreases n - k,
    {
        let ghost old_rest = rest@;
        let ghost before = spec_quartile_view(out@);
        let (pool, markout, vals) = rest.remove(0);
        proof {
            assert(spec_pair_groups_view(old_rest)[0] == ((old_rest[0].0@, old_rest[0].1@), old_rest[0].2@));
            assert(pool@ == gv[k as int].0.0 && markout@ == gv[k as int].0.1 && vals@ == gv[k as int].1);
            assert forall|q: int| 0 <= q < rest@.len() implies
                #[trigger] spec_pair_groups_view(rest@)[q] == gv[k + 1 + q] by {
                assert(rest@[q] == old_rest[q + 1]);
                assert(spec_pair_groups_view(old_rest)[q + 1] == ((old_rest[q + 1].0@, old_rest[q + 1].1@), old_rest[q + 1].2@));
            }
            assert(spec_pair_groups_view(rest@) =~= gv.subrange(k + 1, n as int));
        }
        let sorted = ascending(vals);
        let name = get_pool_name(pool.as_str());
        let t = QuartileGroup { pool_address: pool, pool_name: name, markout_time: markout, values: sorted };
        out.push(t);
        proof {
            assert(gv.take(k + 1) =~= gv.take(k as int).push(gv[k as int]));
            assert(spec_quartile_output(gv.take(k + 1)) =~= spec_quartile_output(gv.take(k as int)).push(t@));
            assert(spec_quartile_view(out@) =~= before.push(t@));
        }
        k = k + 1;
    }
    assert(gv.take(n as int) =~= gv);
    out
}

/// The values of one pool and markout time in one interval file, smallest
/// first, as they stood when a row of that file was read.
pub struct BandSnapshot {
    pub pool_address: String,
    pub pool_name: String,
    pub markout_time: String,
    /// The first block of the interval file.
    pub block_number: u64,
    /// The positive-activity totals of the pool read so far from the file,
    /// smallest first.
    pub values: Vec<u64>,
}

impl View for BandSnapshot {
    /// Pool address, pool name, markout time, block and values.
    type V = (Seq<char>, Seq<char>, Seq<char>, u64, Seq<u64>);

    open spec fn view(&self) -> Self::V {
        (self.pool_address@, self.pool_name@, self.markout_time@, self.block_number, self.values@)
    }
}

/// The views of a sequence of band snapshots.
pub open spec fn spec_snapshots_view(v: Seq<BandSnapshot>) -> Seq<(Seq<char>, Seq<char>, Seq<char>, u64, Seq<u64>)> {
    v.map_values(|t: BandSnapshot| t@)
}

/// The first index, from `i` on, of the values of file start `b`.
pub open spec fn spec_start_find(g: Seq<(u64, Seq<u64>)>, b: u64, i: int) -> Option<int>
    decreases g.len() - i,
{
    if i < 0 || i >= g.len() {
        None
    } else if g[i].0 == b {
        Some(i)
    } else {
        spec_start_find(g, b, i + 1)
    }
}

/// How the name of an interval file bears on the percentile bands: `None`
/// when the name has one `_` but a number cannot be read; else whether the
/// file is used, which it is when its name gives a range that meets the
/// merge block through block 20,000,000.
pub open spec fn spec_band_file(path: Seq<char>) -> Option<Option<u64>> {
    match spec_interval_file_range(path) {
        None => Some(None),
        Some((Some(a), Some(b))) => if a > DEFAULT_END_BLOCK || b < MERGE_BLOCK { Some(None) } else { Some(Some(a)) },
        _ => None,
    }
}

/// The scan of the interval rows for one pool: for each row of a used file
/// whose lowercased pool is `pool`, its total joins the values of its file
/// when the row has some non-zero block, and, once the file has values, a
/// snapshot of them (smallest first) is taken with the row's markout time.
/// `None` when a file's name cannot be read.
pub open spec fn spec_band_scan(rows: Seq<IntervalRow>, pool: Seq<char>) -> Option<(Seq<(u64, Seq<u64>)>, Seq<(Seq<char>, u64, Seq<u64>)>)>
    decreases rows.len(),
{
    if rows.len() == 0 {
        Some((Seq::empty(), Seq::empty()))
    } else {
        match spec_band_scan(rows.drop_last(), pool) {
            None => None,
            Some(prev) => {
                let r = rows.last();
                match spec_band_file(r.file_path@) {
                    None => None,
                    Some(None) => Some(prev),
                    Some(Some(a)) => {
                        if spec_lower(r.pair_address@) != pool {
                            Some(prev)
                        } else {
                            let v: u64 = match r.total_lvr_cents { Some(t) => t, None => 0 };
                            let g = if r.non_zero_count > 0 {
                                match spec_start_find(prev.0, a, 0) {
                                    Some(j) => prev.0.update(j, (a, prev.0[j].1.push(v))),
                                    None => prev.0.push((a, seq![v])),
                                }
                            } else {
                                prev.0
                            };
                            match spec_start_find(g, a, 0) {
                                Some(j) => Some((g, prev.1.push((r.markout_time@, a, spec_ascending(g[j].1))))),
                                None => Some((g, prev.1)),
                            }
                        }
                    },
                }
            },
        }
    }
}

/// The snapshots of the pools of the table from index `k` on, pool by
/// pool; `None` when a file's name cannot be read.
pub open spec fn spec_band_snapshots_from(rows: Seq<IntervalRow>, k: int) -> Option<Seq<(Seq<char>, Seq<char>, Seq<char>, u64, Seq<u64>)>>
    decreases spec_pool_addresses().len() - k,
{
    if k < 0 || k >= spec_pool_addresses().len() {
        Some(Seq::empty())
    } else {
        let pool = spec_lower(spec_pool_addresses()[k]);
        match spec_band_scan(rows, pool) {
            None => None,
            Some(scan) => match spec_band_snapshots_from(rows, k + 1) {
                None => None,
                Some(rest) => Some(
                    scan.1.map_values(|e: (Seq<char>, u64, Seq<u64>)| (pool, spec_pool_name(pool), e.0, e.1, e.2)) + rest,
                ),
            },
        }
    }
}

/// The views of values grouped by file start.
pub open spec fn spec_start_groups_view(g: Seq<(u64, Vec<u64>)>) -> Seq<(u64, Seq<u64>)> {
    g.map_values(|e: (u64, Vec<u64>)| (e.0, e.1@))
}

/// Once a prefix of the rows fails, so do all the rows.
proof fn lemma_band_scan_fail(rows: Seq<IntervalRow>, pool: Seq<char>, i: int)
    requires
        0 <= i < rows.len(),
        spec_band_scan(rows.take(i + 1), pool) is None,
    ensures
        spec_band_scan(rows, pool) is None,
    decreases rows.len(),
{
    if i + 1 < rows.len() {
        assert(rows.drop_last().take(i + 1) =~= rows.take(i + 1));
        lemma_band_scan_fail(rows.drop_last(), pool, i);
    } else {
        assert(rows.take(i + 1) =~= rows);
    }
}

/// The index of the values of file start `b`, if any (see
/// `spec_start_find`).
fn start_find(g: &Vec<(u64, Vec<u64>)>, b: u64) -> (r: Option<usize>)
    ensures
        match r {
            Some(j) => j < g.len() && spec_start_find(spec_start_groups_view(g@), b, 0) == Some(j as int)
                && g@[j as int].0 == b,
            None => spec_start_find(spec_start_groups_view(g@), b, 0) is None,
        },
{
    let ghost v = spec_start_groups_view(g@);
    let mut j: usize = 0;
    while j < g.len()
        invariant
            j <= g.len(),
            v == spec_start_groups_view(g@),
            spec_start_find(v, b, 0) == spec_start_find(v, b, j as int),
        decreases g.len() - j,
    {
        assert(v[j as int] == (g@[j as int].0, g@[j as int].1@));
        if g[j].0 == b {
            return Some(j);
        }
        j = j + 1;
    }
    None
}

/// The scan of the interval rows for one pool (see `spec_band_scan`),
/// giving the snapshots.
fn band_scan(rows: &Vec<IntervalRow>, pool: &String) -> (r: Option<Vec<(String, u64, Vec<u64>)>>)
    ensures
        match r {
            Some(v) => spec_band_scan(rows@, pool@) matches Some(scan)
                && scan.1 == v@.map_values(|e: (String, u64, Vec<u64>)| (e.0@, e.1, e.2@)),
            None => spec_band_scan(rows@, pool@) is None,
        },
{
    let mut groups: Vec<(u64, Vec<u64>)> = Vec::new();
    let mut out: Vec<(String, u64, Vec<u64>)> = Vec::new();
    let mut i: usize = 0;
    while i < rows.len()
        invariant
            i <= rows.len(),
            spec_band_scan(rows@.take(i as int), pool@) == Some((
                spec_start_groups_view(groups@),
                out@.map_values(|e: (String, u64, Vec<u64>)| (e.0@, e.1, e.2@)),
            )),
        decreases rows.len() - i,
    {
        let r = &rows[i];
        proof {
            assert(rows@.take(i + 1).drop_last() =~= rows@.take(i as int));
            assert(rows@.take(i + 1).last() == rows@[i as int]);
        }
        let a = match interval_file_range(r.file_path.as_str()) {
            None => {
                i = i + 1;
                continue;
            },
            Some((Some(a), Some(b))) => {
                if a > DEFAULT_END_BLOCK || b < MERGE_BLOCK {
                    i = i + 1;
                    continue;
                }
                a
            },
            _ => {
                proof {
                    lemma_band_scan_fail(rows@, pool@, i as int);
                }
                return None;
            },
        };
        if to_lower(r.pair_address.as_str()) == *pool {
            let v: u64 = match r.total_lvr_cents {
                Some(t) => t,
                None => 0,
            };
            let ghost gb = spec_start_groups_view(groups@);
            if r.non_zero_count > 0 {
                match start_find(&groups, a) {
                    Some(j) => {
                        groups[j].1.push(v);
                        proof {
                            assert(spec_start_groups_view(groups@) =~= gb.update(j as int, (a, gb[j as int].1.push(v))));
                        }
                    },
                    None => {
                        let mut vals: Vec<u64> = Vec::new();
                        vals.push(v);
                        groups.push((a, vals));
                        proof {
                            assert(spec_start_groups_view(groups@) =~= gb.push((a, seq![v])));
                        }
                    },
                }
            }
            let ghost ob = out@.map_values(|e: (String, u64, Vec<u64>)| (e.0@, e.1, e.2@));
            match start_find(&groups, a) {
                Some(j) => {
                    assert(spec_start_groups_view(groups@)[j as int] == (groups@[j as int].0, groups@[j as int].1@));
                    let snapshot = ascending(copy_counts(&groups[j].1));
                    let e = (r.markout_time.clone(), a, snapshot);
                    out.push(e);
                    proof {
                        assert(out@.map_values(|e: (String, u64, Vec<u64>)| (e.0@, e.1, e.2@))
                            =~= ob.push((r.markout_time@, a, spec_ascending(spec_start_groups_view(groups@)[j as int].1))));
                    }
                },
                None => {},
            }
        }
        i = i + 1;
    }
    assert(rows@.take(rows.len() as int) =~= rows@);
    Some(out)
}

/// The snapshots behind the percentile bands of the interval rows: for
/// each tracked pool in table order, the snapshots of its scan (see
/// `spec_band_snapshots_from`); `None` when a file's name cannot be read.
pub fn band_snapshots(rows: &Vec<IntervalRow>) -> (r: Option<Vec<BandSnapshot>>)
    ensures
        match r {
            Some(v) => spec_band_snapshots_from(rows@, 0) == Some(spec_snapshots_view(v@)),
            None => spec_band_snapshots_from(rows@, 0) is None,
        },
{
    let pools = get_valid_pools();
    let n = pools.len();
    let mut parts: Vec<Vec<BandSnapshot>> = Vec::new();
    let mut k: usize = 0;
    while k < n
        invariant
            k <= n,
            n == pools.len(),
            pools.len() == spec_pool_addresses().len(),
            forall|q: int| 0 <= q < pools.len() ==> (#[trigger] pools@[q])@ == spec_lower(spec_pool_addresses()[q]),
            parts.len() == k,
            forall|q: int| 0 <= q < k ==> {
                let pool = spec_lower(spec_pool_addresses()[q]);
                spec_band_scan(rows@, pool) matches Some(scan)
                    && spec_snapshots_view((#[trigger] parts@[q])@)
                        == scan.1.map_values(|e: (Seq<char>, u64, Seq<u64>)| (pool, spec_pool_name(pool), e.0, e.1, e.2))
            },
            forall|q: int| 0 <= q < k ==> (#[trigger] spec_band_scan(rows@, spec_lower(spec_pool_addresses()[q]))) is Some,
        decreases n - k,
    {
        let pool = &pools[k];
        let ghost pv = spec_lower(spec_pool_addresses()[k as int]);
        assert(pool@ == pv);
        match band_scan(rows, pool) {
            None => {
                proof {
                    lemma_band_snapshots_fail(rows@, 0, k as int);
                }
                return None;
            },
            Some(scan) => {
                let name = get_pool_name(pool.as_str());
                let ghost sv = scan@.map_values(|e: (String, u64, Vec<u64>)| (e.0@, e.1, e.2@));
                let mut part: Vec<BandSnapshot> = Vec::new();
                let mut q: usize = 0;
                while q < scan.len()
                    invariant
                        q <= scan.len(),
                        sv == scan@.map_values(|e: (String, u64, Vec<u64>)| (e.0@, e.1, e.2@)),
                        pool@ == pv,
                        name@ == spec_pool_name(pv),
                        spec_snapshots_view(part@) == sv.take(q as int).map_values(
                            |e: (Seq<char>, u64, Seq<u64>)| (pv, spec_pool_name(pv), e.0, e.1, e.2)),
                    decreases scan.len() - q,
                {
                    let ghost before = spec_snapshots_view(part@);
                    let e = &scan[q];
                    assert(sv[q as int] == (e.0@, e.1, e.2@));
                    let snap = BandSnapshot {
                        pool_address: pool.clone(),
                        pool_name: name.clone(),
                        markout_time: e.0.clone(),
                        block_number: e.1,
                        values: copy_counts(&e.2),
                    };
                    part.push(snap);
                    proof {
                        assert(sv.take(q + 1) =~= sv.take(q as int).push(sv[q as int]));
                        assert(spec_snapshots_view(part@) =~= before.push(snap@));
                    }
                    q = q + 1;
                }
                assert(sv.take(scan.len() as int) =~= sv);
                parts.push(part);
            },
        }
        k = k + 1;
    }
    let mut out: Vec<BandSnapshot> = Vec::new();
    let mut j: usize = n;
    let ghost mut acc: Seq<(Seq<char>, Seq<char>, Seq<char>, u64, Seq<u64>)> = Seq::empty();
    proof {
        lemma_band_snapshots_end(rows@, n as int);
        assert(parts@.subrange(n as int, n as int).len() == 0);
    }
    while j > 0
        invariant
            j <= n,
            n == parts.len(),
            n == spec_pool_addresses().len(),
            forall|q: int| 0 <= q < n ==> {
                let pool = spec_lower(spec_pool_addresses()[q]);
                spec_band_scan(rows@, pool) matches Some(scan)
                    && spec_snapshots_view((#[trigger] parts@[q])@)
                        == scan.1.map_values(|e: (Seq<char>, u64, Seq<u64>)| (pool, spec_pool_name(pool), e.0, e.1, e.2))
            },
            spec_band_snapshots_from(rows@, j as int) == Some(acc),
            acc == spec_concat_views(parts@.subrange(j as int, n as int)),
        decreases j,
    {
        j = j - 1;
        proof {
            let pool = spec_lower(spec_pool_addresses()[j as int]);
            let scan = spec_band_scan(rows@, pool).unwrap();
            assert(spec_snapshots_view(parts@[j as int]@)
                == scan.1.map_values(|e: (Seq<char>, u64, Seq<u64>)| (pool, spec_pool_name(pool), e.0, e.1, e.2)));
            let sub = parts@.subrange(j as int, n as int);
            assert(sub[0] == parts@[j as int]);
            assert(sub.drop_first() =~= parts@.subrange(j + 1, n as int));
            acc = spec_snapshots_view(parts@[j as int]@) + acc;
        }
    }
    proof {
        assert(parts@.subrange(0, n as int) =~= parts@);
        assert(spec_snapshots_view(out@) =~= Seq::empty());
        assert(acc =~= spec_snapshots_view(out@) + spec_concat_views(parts@));
    }
    let mut k2: usize = 0;
    let mut rest_parts = parts;
    let ghost full = acc;
    while k2 < n
        invariant
            k2 <= n,
            rest_parts.len() == n - k2,
            spec_band_snapshots_from(rows@, 0) == Some(full),
            full == spec_snapshots_view(out@) + spec_concat_views(rest_parts@),
        decreases n - k2,
    {
        let ghost before = spec_snapshots_view(out@);
        let ghost old_rest = rest_parts@;
        let mut part = rest_parts.remove(0);
        proof {
            assert(old_rest =~= seq![part].add(rest_parts@)) by {
                assert(old_rest[0] == part);
                assert forall|q: int| 0 <= q < rest_parts@.len() implies old_rest[q + 1] == rest_parts@[q] by {}
            }
            lemma_concat_views_cons(part, rest_parts@);
        }
        let ghost pv = spec_snapshots_view(part@);
        out.append(&mut part);
        proof {
            assert(spec_snapshots_view(out@) =~= before + pv);
        }
        k2 = k2 + 1;
    }
    proof {
        assert(rest_parts@.len() == 0);
        assert(spec_concat_views(rest_parts@) =~= Seq::empty());
        assert(full =~= spec_snapshots_view(out@));
    }
    Some(out)
}

/// The views of groups of snapshots, one after the other.
pub open spec fn spec_concat_views(parts: Seq<Vec<BandSnapshot>>) -> Seq<(Seq<char>, Seq<char>, Seq<char>, u64, Seq<u64>)>
    decreases parts.len(),
{
    if parts.len() == 0 {
        Seq::empty()
    } else {
        spec_snapshots_view(parts[0]@) + spec_concat_views(parts.drop_first())
    }
}

/// The views of a first group followed by the rest.
proof fn lemma_concat_views_cons(first: Vec<BandSnapshot>, rest: Seq<Vec<BandSnapshot>>)
    ensures
        spec_concat_views(seq![first].add(rest)) == spec_snapshots_view(first@) + spec_concat_views(rest),
{
    let s = seq![first].add(rest);
    assert(s[0] == first);
    assert(s.drop_first() =~= rest);
}

/// From the end of the table on there are no snapshots.
proof fn lemma_band_snapshots_end(rows: Seq<IntervalRow>, n: int)
    requires
        n == spec_pool_addresses().len(),
    ensures
        spec_band_snapshots_from(rows, n) == Some(Seq::<(Seq<char>, Seq<char>, Seq<char>, u64, Seq<u64>)>::empty()),
{
}

/// When the scan of one pool of the table fails, so do the snapshots.
proof fn lemma_band_snapshots_fail(rows: Seq<IntervalRow>, k: int, f: int)
    requires
        0 <= k <= f < spec_pool_addresses().len(),
        spec_band_scan(rows, spec_lower(spec_pool_addresses()[f])) is None,
    ensures
        spec_band_snapshots_from(rows, k) is None,
    decreases f - k,
{
    if k < f {
        lemma_band_snapshots_fail(rows, k + 1, f);
    }
}

/// The pool and markout time whose quartiles a request asks for.
pub struct QuartilePlotQuery {
    pub pool_address: String,
    pub markout_time: Option<String>,
}

/// The quartiles of one pool and markout time.
pub struct QuartilePlotResponse {
    pub markout_time: String,
    pub pool_name: String,
    pub pool_address: String,
    pub percentile_25_cents: u64,
    pub median_cents: u64,
    pub percentile_75_cents: u64,
}

/// One row of the precomputed quartiles.
pub struct QuartileRow {
    pub pool_address: String,
    pub pool_name: String,
    pub markout_time: String,
    pub percentile_25_cents: u64,
    pub median_cents: u64,
    pub percentile_75_cents: u64,
}

/// The first precomputed quartile row, from `i` on, of a pool (compared
/// lowercased) and markout time.
pub open spec fn spec_quartile_find(rows: Seq<QuartileRow>, pool: Seq<char>, markout: Seq<char>, i: int) -> Option<int>
    decreases rows.len() - i,
{
    if i < 0 || i >= rows.len() {
        None
    } else if spec_lower(rows[i].pool_address@) == pool && rows[i].markout_time@ == markout {
        Some(i)
    } else {
        spec_quartile_find(rows, pool, markout, i + 1)
    }
}

/// The quartiles of a pool and markout time (`brontes` unless the request
/// names one), read from the precomputed rows: refused for a pool that is
/// not tracked; else those of the first row of that pool and markout time,
/// with the lowercased pool; not found when there is none.
pub open spec fn spec_get_quartile_plot(q: QuartilePlotQuery, rows: Seq<QuartileRow>) -> Result<(Seq<char>, Seq<char>, Seq<char>, u64, u64, u64), ApiError> {
    let pool = spec_lower(q.pool_address@);
    let m = spec_markout_or_brontes(q.markout_time);
    if !spec_is_valid_pool(q.pool_address@) {
        Err(ApiError::BadRequest)
    } else {
        match spec_quartile_find(rows, pool, m, 0) {
            None => Err(ApiError::NotFound),
            Some(i) => Ok((m, rows[i].pool_name@, pool, rows[i].percentile_25_cents, rows[i].median_cents,
                rows[i].percentile_75_cents)),
        }
    }
}

impl View for QuartilePlotResponse {
    /// Markout time, pool name, pool address and the three quartiles.
    type V = (Seq<char>, Seq<char>, Seq<char>, u64, u64, u64);

    open spec fn view(&self) -> Self::V {
        (self.markout_time@, self.pool_name@, self.pool_address@, self.percentile_25_cents, self.median_cents,
            self.percentile_75_cents)
    }
}

/// The quartiles of a pool and markout time (see `spec_get_quartile_plot`).
pub fn get_quartile_plot(query: &QuartilePlotQuery, rows: &Vec<QuartileRow>) -> (r: Result<QuartilePlotResponse, ApiError>)
    ensures
        match r {
            Ok(v) => spec_get_quartile_plot(*query, rows@) == Ok::<_, ApiError>(v@),
            Err(e) => spec_get_quartile_plot(*query, rows@) == Err::<(Seq<char>, Seq<char>, Seq<char>, u64, u64, u64), _>(e),
        },
{
    let pool = to_lower(query.pool_address.as_str());
    let markout = markout_or_brontes(&query.markout_time);
    if !is_valid_pool(query.pool_address.as_str()) {
        return Err(ApiError::BadRequest);
    }
    let mut i: usize = 0;
    while i < rows.len()
        invariant
            i <= rows.len(),
            pool@ == spec_lower(query.pool_address@),
            markout@ == spec_markout_or_brontes(query.markout_time),
            spec_is_valid_pool(query.pool_address@),
            spec_quartile_find(rows@, pool@, markout@, 0) == spec_quartile_find(rows@, pool@, markout@, i as int),
        decreases rows.len() - i,
    {
        let r = &rows[i];
        if to_lower(r.pool_address.as_str()) == pool && r.markout_time == markout {
            assert(spec_quartile_find(rows@, pool@, markout@, i as int) == Some(i as int));
            return Ok(QuartilePlotResponse {
                markout_time: markout,
                pool_name: r.pool_name.clone(),
                pool_address: pool,
                percentile_25_cents: r.percentile_25_cents,
                median_cents: r.median_cents,
                percentile_75_cents: r.percentile_75_cents,
            });
        }
        i = i + 1;
    }
    Err(ApiError::NotFound)
}

} // verus!
