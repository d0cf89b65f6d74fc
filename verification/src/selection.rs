use vstd::prelude::*;
use crate::pools::{is_valid_pool, pool_table, spec_is_valid_pool, spec_pool_addresses, MERGE_BLOCK};
use crate::queries::{NonZeroProportionQuery, PercentileBandQuery};
use crate::ranking::{lemma_rank_desc_map, lemma_rank_desc_sorted, rank_desc, spec_rank_desc, RankKey};
use crate::running::{ApiError, DEFAULT_END_BLOCK};
use crate::text::{eq_lower, spec_lower, to_lower};

verus! {

/// One row of the precomputed percentile bands.
pub struct BandRow {
    pub pool_address: String,
    pub pool_name: String,
    pub markout_time: String,
    pub block_number: u64,
    pub percentile_25_cents: u64,
    pub median_cents: u64,
    pub percentile_75_cents: u64,
}

impl View for BandRow {
    /// Pool address, pool name, markout time, block and the three
    /// quartiles.
    type V = (Seq<char>, Seq<char>, Seq<char>, u64, u64, u64, u64);

    open spec fn view(&self) -> Self::V {
        (
            self.pool_address@,
            self.pool_name@,
            self.markout_time@,
            self.block_number,
            self.percentile_25_cents,
            self.median_cents,
            self.percentile_75_cents,
        )
    }
}

/// The quartiles of one interval file's snapshot.
pub struct PercentileDataPoint {
    pub block_number: u64,
    pub percentile_25_cents: u64,
    pub median_cents: u64,
    pub percentile_75_cents: u64,
}

impl View for PercentileDataPoint {
    /// Block and the three quartiles.
    type V = (u64, u64, u64, u64);

    open spec fn view(&self) -> Self::V {
        (self.block_number, self.percentile_25_cents, self.median_cents, self.percentile_75_cents)
    }
}

/// Points are ranked so that the earliest block comes first.
impl RankKey for PercentileDataPoint {
    open spec fn spec_rank(&self) -> u64 {
        (u64::MAX - self.block_number) as u64
    }

    fn rank(&self) -> (r: u64) {
        u64::MAX - self.block_number
    }
}

/// The percentile bands answering a request.
pub struct PercentileBandResponse {
    pub pool_name: String,
    pub pool_address: String,
    pub markout_time: String,
    pub data_points: Vec<PercentileDataPoint>,
}

/// The views of a sequence of data points.
pub open spec fn spec_points_of(v: Seq<PercentileDataPoint>) -> Seq<(u64, u64, u64, u64)> {
    v.map_values(|p: PercentileDataPoint| p@)
}

impl View for PercentileBandResponse {
    /// Pool name, pool address, markout time and the data points.
    type V = (Seq<char>, Seq<char>, Seq<char>, Seq<(u64, u64, u64, u64)>);

    open spec fn view(&self) -> Self::V {
        (self.pool_name@, self.pool_address@, self.markout_time@, spec_points_of(self.data_points@))
    }
}

/// The pool a percentile-band request is about, lowercased: the one it
/// names, or the first tracked pool; `None` when it names an untracked
/// pool.
pub open spec fn spec_band_pool(q: PercentileBandQuery) -> Option<Seq<char>> {
    match q.pool_address {
        Some(p) => if spec_is_valid_pool(p@) { Some(spec_lower(p@)) } else { None },
        None => Some(spec_lower(spec_pool_addresses()[0])),
    }
}

/// The markout time a percentile-band request asks for: `brontes` unless
/// it names one.
pub open spec fn spec_band_markout(q: PercentileBandQuery) -> Seq<char> {
    match q.markout_time {
        Some(m) => m@,
        None => "brontes"@,
    }
}

/// The first block a percentile-band request covers.
pub open spec fn spec_band_start(q: PercentileBandQuery) -> u64 {
    match q.start_block {
        Some(b) => b,
        None => MERGE_BLOCK,
    }
}

/// The last block a percentile-band request covers.
pub open spec fn spec_band_end(q: PercentileBandQuery) -> u64 {
    match q.end_block {
        Some(b) => b,
        None => DEFAULT_END_BLOCK,
    }
}

/// The rows of a pool (compared lowercased) and markout time whose block
/// lies in `[start, end]`, in row order.
pub open spec fn spec_band_rows(
    rows: Seq<BandRow>,
    pool: Seq<char>,
    markout: Seq<char>,
    start: u64,
    end: u64,
) -> Seq<(Seq<char>, Seq<char>, Seq<char>, u64, u64, u64, u64)>
    decreases rows.len(),
{
    if rows.len() == 0 {
        Seq::empty()
    } else {
        let prev = spec_band_rows(rows.drop_last(), pool, markout, start, end);
        let r = rows.last();
        if spec_lower(r.pool_address@) == pool && r.markout_time@ == markout && start <= r.block_number
            && r.block_number <= end {
            prev.push(r@)
        } else {
            prev
        }
    }
}

/// The pool name of selected rows: the first one that is not empty.
pub open spec fn spec_band_name(s: Seq<(Seq<char>, Seq<char>, Seq<char>, u64, u64, u64, u64)>) -> Seq<char>
    decreases s.len(),
{
    if s.len() == 0 {
        Seq::empty()
    } else {
        let prev = spec_band_name(s.drop_last());
        if prev.len() == 0 {
            s.last().1
        } else {
            prev
        }
    }
}

/// The data point of a selected row.
pub open spec fn spec_band_point(r: (Seq<char>, Seq<char>, Seq<char>, u64, u64, u64, u64)) -> (u64, u64, u64, u64) {
    (r.3, r.4, r.5, r.6)
}

/// The key that ranks data points earliest block first.
pub open spec fn spec_point_key(p: (u64, u64, u64, u64)) -> u64 {
    (u64::MAX - p.0) as u64
}

/// The percentile bands a request asks for: refused with `BadRequest` when
/// it names an untracked pool, `NotFound` when no row of its pool and
/// markout time lies in its blocks; otherwise the first non-empty pool
/// name of those rows, the pool, the markout time, and their points sorted
/// by block, ties in row order.
pub open spec fn spec_get_percentile_band(q: PercentileBandQuery, rows: Seq<BandRow>) -> Result<
    (Seq<char>, Seq<char>, Seq<char>, Seq<(u64, u64, u64, u64)>),
    ApiError,
> {
    match spec_band_pool(q) {
        None => Err(ApiError::BadRequest),
        Some(pool) => {
            let sel = spec_band_rows(rows, pool, spec_band_markout(q), spec_band_start(q), spec_band_end(q));
            if sel.len() == 0 {
                Err(ApiError::NotFound)
            } else {
                Ok((
                    spec_band_name(sel),
                    pool,
                    spec_band_markout(q),
                    spec_rank_desc(sel.map_values(|r: (Seq<char>, Seq<char>, Seq<char>, u64, u64, u64, u64)| spec_band_point(r)),
                        |p: (u64, u64, u64, u64)| spec_point_key(p)),
                ))
            }
        },
    }
}

/// The data points of a served percentile band run from the earliest block
/// to the latest.
pub proof fn lemma_percentile_band_ordered(q: PercentileBandQuery, rows: Seq<BandRow>)
    ensures
        match spec_get_percentile_band(q, rows) {
            Ok(v) => forall|i: int, j: int| 0 <= i < j < v.3.len() ==> v.3[i].0 <= v.3[j].0,
            Err(_) => true,
        },
{
    match spec_band_pool(q) {
        None => {},
        Some(pool) => {
            let sel = spec_band_rows(rows, pool, spec_band_markout(q), spec_band_start(q), spec_band_end(q));
            let pts = sel.map_values(|r: (Seq<char>, Seq<char>, Seq<char>, u64, u64, u64, u64)| spec_band_point(r));
            let key = |p: (u64, u64, u64, u64)| spec_point_key(p);
            lemma_rank_desc_sorted(pts, key);
            let ranked = spec_rank_desc(pts, key);
            assert forall|i: int, j: int| 0 <= i < j < ranked.len() implies ranked[i].0 <= ranked[j].0 by {
                assert(key(ranked[i]) >= key(ranked[j]));
            }
        },
    }
}

/// The lowercased address of the first tracked pool.
fn first_pool() -> (r: String)
    ensures
        r@ == spec_lower(spec_pool_addresses()[0]),
{
    let table = pool_table();
    assert(spec_pool_addresses().len() > 0);
    to_lower(table[0].0)
}

/// The percentile bands of a pool and markout time (see
/// `spec_get_percentile_band`).
pub fn get_percentile_band(query: &PercentileBandQuery, rows: &Vec<BandRow>) -> (r: Result<PercentileBandResponse, ApiError>)
    ensures
        match r {
            Ok(v) => spec_get_percentile_band(*query, rows@) == Ok::<_, ApiError>(v@),
            Err(e) => spec_get_percentile_band(*query, rows@) == Err::<(Seq<char>, Seq<char>, Seq<char>, Seq<(u64, u64, u64, u64)>), _>(e),
        },
{
    let pool = match &query.pool_address {
        Some(p) => {
            if !is_valid_pool(p.as_str()) {
                return Err(ApiError::BadRequest);
            }
            to_lower(p.as_str())
        },
        None => first_pool(),
    };
    let markout = match &query.markout_time {
        Some(m) => m.clone(),
        None => String::from_str("brontes"),
    };
    proof {
        reveal_strlit("brontes");
    }
    let start = match query.start_block {
        Some(b) => b,
        None => MERGE_BLOCK,
    };
    let end = match query.end_block {
        Some(b) => b,
        None => DEFAULT_END_BLOCK,
    };
    let ghost pv = pool@;
    let ghost mv = markout@;
    assert(spec_band_pool(*query) == Some(pv));
    assert(mv == spec_band_markout(*query));
    let mut name = String::new();
    let mut points: Vec<PercentileDataPoint> = Vec::new();
    let ghost mut sel: Seq<(Seq<char>, Seq<char>, Seq<char>, u64, u64, u64, u64)> = Seq::empty();
    let mut i: usize = 0;
    while i < rows.len()
        invariant
            i <= rows.len(),
            pool@ == pv,
            markout@ == mv,
            sel == spec_band_rows(rows@.take(i as int), pv, mv, start, end),
            name@ == spec_band_name(sel),
            spec_points_of(points@) == sel.map_values(
                |r: (Seq<char>, Seq<char>, Seq<char>, u64, u64, u64, u64)| spec_band_point(r),
            ),
        decreases rows.len() - i,
    {
        let r = &rows[i];
        proof {
            assert(rows@.take(i + 1).drop_last() =~= rows@.take(i as int));
            assert(rows@.take(i + 1).last() == rows@[i as int]);
        }
        if eq_lower(r.pool_address.as_str(), pool.as_str()) && r.markout_time == markout
            && start <= r.block_number && r.block_number <= end {
            let ghost before = sel;
            let ghost before_points = spec_points_of(points@);
            if name.as_str().is_empty() {
                name = r.pool_name.clone();
            }
            let p = PercentileDataPoint {
                block_number: r.block_number,
                percentile_25_cents: r.percentile_25_cents,
                median_cents: r.median_cents,
                percentile_75_cents: r.percentile_75_cents,
            };
            points.push(p);
            proof {
                sel = before.push(r@);
                assert(sel.drop_last() =~= before);
                assert(spec_points_of(points@) =~= before_points.push(p@));
                assert(sel.map_values(|r: (Seq<char>, Seq<char>, Seq<char>, u64, u64, u64, u64)| spec_band_point(r))
                    =~= before.map_values(|r: (Seq<char>, Seq<char>, Seq<char>, u64, u64, u64, u64)| spec_band_point(r))
                        .push(p@));
            }
        }
        i = i + 1;
    }
    assert(rows@.take(rows.len() as int) =~= rows@);
    if points.len() == 0 {
        return Err(ApiError::NotFound);
    }
    let ghost unranked = points@;
    let ranked = rank_desc(points);
    proof {
        let kt = |t: PercentileDataPoint| t.spec_rank();
        let f = |t: PercentileDataPoint| t@;
        let kv = |x: (u64, u64, u64, u64)| spec_point_key(x);
        assert forall|a: PercentileDataPoint| #[trigger] kv(f(a)) == kt(a) by {}
        lemma_rank_desc_map(unranked, kt, f, kv);
    }
    Ok(PercentileBandResponse { pool_name: name, pool_address: pool, markout_time: markout, data_points: ranked })
}

/// One row of the precomputed shares of non-zero blocks, without the
/// share itself.
pub struct NonZeroRow {
    pub pool_address: String,
    pub pool_name: String,
    pub markout_time: String,
    pub non_zero_blocks: u64,
    pub total_blocks: u64,
}

/// The row answering a request for a pool's share of non-zero blocks.
pub struct NonZeroProportion {
    pub pool_name: String,
    pub pool_address: String,
    pub total_blocks: u64,
    pub non_zero_blocks: u64,
    /// The index of the row the answer was read from.
    pub row: usize,
}

/// The first row, from `i` on, of a pool (compared lowercased) and markout
/// time.
pub open spec fn spec_non_zero_find(rows: Seq<NonZeroRow>, pool: Seq<char>, markout: Seq<char>, i: int) -> Option<int>
    decreases rows.len() - i,
{
    if i < 0 || i >= rows.len() {
        None
    } else if spec_lower(rows[i].pool_address@) == pool && rows[i].markout_time@ == markout {
        Some(i)
    } else {
        spec_non_zero_find(rows, pool, markout, i + 1)
    }
}

/// The share of non-zero blocks a request asks for: refused with
/// `BadRequest` when it names an untracked pool, `NotFound` when no row is
/// of its pool and markout time; otherwise the first such row's name and
/// counts, the lowercased pool and the row's index.
pub open spec fn spec_get_non_zero_proportion(q: NonZeroProportionQuery, rows: Seq<NonZeroRow>) -> Result<
    (Seq<char>, Seq<char>, u64, u64, int),
    ApiError,
> {
    if !spec_is_valid_pool(q.pool_address@) {
        Err(ApiError::BadRequest)
    } else {
        match spec_non_zero_find(rows, spec_lower(q.pool_address@), q.markout_time@, 0) {
            None => Err(ApiError::NotFound),
            Some(i) => Ok((rows[i].pool_name@, spec_lower(q.pool_address@), rows[i].total_blocks, rows[i].non_zero_blocks, i)),
        }
    }
}

/// The share of non-zero blocks of a pool and markout time (see
/// `spec_get_non_zero_proportion`).
pub fn get_non_zero_proportion(query: &NonZeroProportionQuery, rows: &Vec<NonZeroRow>) -> (r: Result<NonZeroProportion, ApiError>)
    ensures
        match r {
            Ok(v) => spec_get_non_zero_proportion(*query, rows@) == Ok::<_, ApiError>(
                (v.pool_name@, v.pool_address@, v.total_blocks, v.non_zero_blocks, v.row as int),
            ),
            Err(e) => spec_get_non_zero_proportion(*query, rows@) == Err::<(Seq<char>, Seq<char>, u64, u64, int), _>(e),
        },
{
    if !is_valid_pool(query.pool_address.as_str()) {
        return Err(ApiError::BadRequest);
    }
    let pool = to_lower(query.pool_address.as_str());
    let mut i: usize = 0;
    while i < rows.len()
        invariant
            i <= rows.len(),
            pool@ == spec_lower(query.pool_address@),
            spec_is_valid_pool(query.pool_address@),
            spec_non_zero_find(rows@, pool@, query.markout_time@, 0)
                == spec_non_zero_find(rows@, pool@, query.markout_time@, i as int),
        decreases rows.len() - i,
    {
        let r = &rows[i];
        if eq_lower(r.pool_address.as_str(), pool.as_str()) && r.markout_time == query.markout_time {
            assert(spec_non_zero_find(rows@, pool@, query.markout_time@, i as int) == Some(i as int));
            return Ok(NonZeroProportion {
                pool_name: r.pool_name.clone(),
                pool_address: pool,
                total_blocks: r.total_blocks,
                non_zero_blocks: r.non_zero_blocks,
                row: i,
            });
        }
        i = i + 1;
    }
    Err(ApiError::NotFound)
}

} // verus!
