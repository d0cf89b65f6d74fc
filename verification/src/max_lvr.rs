use vstd::prelude::*;
use crate::blocks::BLOCKS_PER_DAY;
use crate::files::{
    checkpoint_markout, checkpoint_pool, interval_file_start, path_ends_with, spec_checkpoint_markout,
    spec_checkpoint_pool, spec_contains_text, spec_ends_with, spec_interval_file_start, text_contains,
};
use crate::pool_metrics::CheckpointRow;
use crate::pools::{get_pool_name, get_valid_pools, is_valid_pool, spec_is_valid_pool, spec_pool_addresses, spec_pool_name};
use crate::ranking::{lemma_rank_desc_map, rank_desc, spec_rank_desc, RankKey};
use crate::running::{
    assoc_put, spec_assoc_put, spec_assoc_view, ApiError, IntervalRow,
};
use crate::text::{concat, spec_lower, to_lower};

verus! {

/// The markout time whose maxima a request asks for.
pub struct MaxLVRQuery {
    pub markout_time: String,
}

/// The pool and markout time whose maximum a request asks for.
pub struct PoolMaxLVRQuery {
    pub pool_address: String,
    pub markout_time: String,
}

/// The largest LVR of one pool, and its block.
pub struct MaxLVRPoolData {
    pub pool_name: String,
    pub pool_address: String,
    pub block_number: u64,
    pub lvr_cents: u64,
}

/// The maxima of the pools, largest first.
pub struct MaxLVRResponse {
    pub pools: Vec<MaxLVRPoolData>,
}

/// One row of the precomputed maxima.
pub struct MaxLVRRow {
    pub pool_address: String,
    pub pool_name: String,
    pub markout_time: String,
    pub block_number: u64,
    pub max_lvr_cents: u64,
}

impl View for MaxLVRPoolData {
    /// Pool name, pool address, block and LVR.
    type V = (Seq<char>, Seq<char>, u64, u64);

    open spec fn view(&self) -> Self::V {
        (self.pool_name@, self.pool_address@, self.block_number, self.lvr_cents)
    }
}

impl RankKey for MaxLVRPoolData {
    open spec fn spec_rank(&self) -> u64 {
        self.lvr_cents
    }

    fn rank(&self) -> (r: u64) {
        self.lvr_cents
    }
}

impl View for MaxLVRRow {
    /// Pool address, pool name, markout time, block and LVR.
    type V = (Seq<char>, Seq<char>, Seq<char>, u64, u64);

    open spec fn view(&self) -> Self::V {
        (self.pool_address@, self.pool_name@, self.markout_time@, self.block_number, self.max_lvr_cents)
    }
}

/// The views of a sequence of pool maxima.
pub open spec fn spec_maxima_view(v: Seq<MaxLVRPoolData>) -> Seq<(Seq<char>, Seq<char>, u64, u64)> {
    v.map_values(|t: MaxLVRPoolData| t@)
}

/// The views of a sequence of precomputed maxima rows.
pub open spec fn spec_max_rows_view(v: Seq<MaxLVRRow>) -> Seq<(Seq<char>, Seq<char>, Seq<char>, u64, u64)> {
    v.map_values(|t: MaxLVRRow| t@)
}

/// The smallest value of an association list, if it has any.
pub open spec fn spec_assoc_min(l: Seq<(Seq<char>, u64)>) -> Option<u64>
    decreases l.len(),
{
    if l.len() == 0 {
        None
    } else {
        match spec_assoc_min(l.drop_last()) {
            None => Some(l.last().1),
            Some(m) => Some(if l.last().1 < m { l.last().1 } else { m }),
        }
    }
}

/// The smallest value of an association list is none exactly when the list
/// is empty; otherwise it is the value of some entry and no entry's value is
/// smaller.
pub proof fn lemma_assoc_min(l: Seq<(Seq<char>, u64)>)
    ensures
        spec_assoc_min(l) is None <==> l.len() == 0,
        match spec_assoc_min(l) {
            Some(m) => (exists|i: int| 0 <= i < l.len() && #[trigger] l[i].1 == m)
                && forall|i: int| 0 <= i < l.len() ==> m <= #[trigger] l[i].1,
            None => true,
        },
    decreases l.len(),
{
    if l.len() > 0 {
        let d = l.drop_last();
        lemma_assoc_min(d);
        let n = l.len() - 1;
        assert(l.last() == l[n]);
        assert forall|i: int| 0 <= i < n implies #[trigger] l[i] == d[i] by {}
        match spec_assoc_min(d) {
            None => {
                assert(l[n].1 == l.last().1);
            },
            Some(m) => {
                let w = choose|i: int| 0 <= i < d.len() && #[trigger] d[i].1 == m;
                assert(l[w] == d[w]);
                assert forall|i: int| 0 <= i < l.len() implies spec_assoc_min(l).unwrap() <= #[trigger] l[i].1 by {
                    if i < n {
                        assert(l[i] == d[i]);
                        assert(m <= d[i].1);
                    }
                }
            },
        }
    }
}

/// The smallest value of an association list (see `spec_assoc_min`).
fn assoc_min(l: &Vec<(String, u64)>) -> (r: Option<u64>)
    ensures
        r == spec_assoc_min(spec_assoc_view(l@)),
{
    let ghost v = spec_assoc_view(l@);
    let mut best: Option<u64> = None;
    let mut i: usize = 0;
    while i < l.len()
        invariant
            i <= l.len(),
            v == spec_assoc_view(l@),
            best == spec_assoc_min(v.take(i as int)),
        decreases l.len() - i,
    {
        proof {
            assert(v.take(i + 1).drop_last() =~= v.take(i as int));
            assert(v.take(i + 1).last() == v[i as int]);
            assert(v[i as int].1 == l@[i as int].1);
        }
        let x = l[i].1;
        best = match best {
            None => Some(x),
            Some(m) => Some(if x < m { x } else { m }),
        };
        i = i + 1;
    }
    assert(v.take(l.len() as int) =~= v);
    best
}

/// Whether the checkpoint of a row of a theoretical markout time feeds the
/// maxima of `pool`: its lowercased path holds the pool and is not a
/// `brontes` checkpoint.
pub open spec fn spec_theory_file(path: Seq<char>, pool: Seq<char>) -> bool {
    spec_contains_text(spec_lower(path), pool) && !spec_ends_with(spec_lower(path), "_brontes.parquet"@)
}

/// The maxima of the theoretical markout times of `pool` over the
/// checkpoint rows: each positive maximum of a file that feeds the pool,
/// under the markout time its file names, a later one replacing an earlier
/// one. `None` when such a file names no markout time.
pub open spec fn spec_theory_maxima(rows: Seq<CheckpointRow>, pool: Seq<char>) -> Option<Seq<(Seq<char>, u64)>>
    decreases rows.len(),
{
    if rows.len() == 0 {
        Some(Seq::empty())
    } else {
        match spec_theory_maxima(rows.drop_last(), pool) {
            None => None,
            Some(l) => {
                let r = rows.last();
                if spec_theory_file(r.file_path@, pool) && r.max_lvr_value > 0 {
                    match spec_checkpoint_markout(r.file_path@) {
                        None => None,
                        Some(m) => Some(spec_assoc_put(l, m, r.max_lvr_value)),
                    }
                } else {
                    Some(l)
                }
            },
        }
    }
}

/// The maxima of the theoretical markout times of `pool` (see
/// `spec_theory_maxima`).
fn theory_maxima(rows: &Vec<CheckpointRow>, pool: &String) -> (r: Option<Vec<(String, u64)>>)
    ensures
        match r {
            Some(l) => spec_theory_maxima(rows@, pool@) == Some(spec_assoc_view(l@)),
            None => spec_theory_maxima(rows@, pool@) is None,
        },
{
    let mut l: Vec<(String, u64)> = Vec::new();
    let mut i: usize = 0;
    while i < rows.len()
        invariant
            i <= rows.len(),
            spec_theory_maxima(rows@.take(i as int), pool@) == Some(spec_assoc_view(l@)),
        decreases rows.len() - i,
    {
        let r = &rows[i];
        proof {
            assert(rows@.take(i + 1).drop_last() =~= rows@.take(i as int));
            assert(rows@.take(i + 1).last() == rows@[i as int]);
        }
        let lower_path = to_lower(r.file_path.as_str());
        let feeds = text_contains(lower_path.as_str(), pool.as_str())
            && !path_ends_with(lower_path.as_str(), "_brontes.parquet");
        if feeds && r.max_lvr_value > 0 {
            match checkpoint_markout(r.file_path.as_str()) {
                None => {
                    proof {
                        lemma_theory_fail(rows@, pool@, i as int);
                    }
                    return None;
                },
                Some(m) => {
                    assoc_put(&mut l, m, r.max_lvr_value);
                },
            }
        }
        i = i + 1;
    }
    assert(rows@.take(rows.len() as int) =~= rows@);
    Some(l)
}

/// Once a prefix of the rows fails, so do all the rows.
proof fn lemma_theory_fail(rows: Seq<CheckpointRow>, pool: Seq<char>, i: int)
    requires
        0 <= i < rows.len(),
        spec_theory_maxima(rows.take(i + 1), pool) is None,
    ensures
        spec_theory_maxima(rows, pool) is None,
    decreases rows.len(),
{
    if i + 1 < rows.len() {
        assert(rows.drop_last().take(i + 1) =~= rows.take(i + 1));
        lemma_theory_fail(rows.drop_last(), pool, i);
    } else {
        assert(rows.take(i + 1) =~= rows);
    }
}

/// Whether every tracked pool's theoretical maxima can be read.
pub open spec fn spec_theories_ok(rows: Seq<CheckpointRow>) -> bool {
    forall|i: int| 0 <= i < spec_pool_addresses().len()
        ==> (#[trigger] spec_theory_maxima(rows, spec_lower(spec_pool_addresses()[i]))) is Some
}

/// The precomputed maxima rows of checkpoint rows `rows`, all rows being
/// `all`: for each row of a tracked pool (the lowercased name of its file
/// up to the first `_`) with a positive maximum, the pool, its name, the
/// markout time its file names, the block and the maximum; a `brontes`
/// maximum above the smallest theoretical maximum of its pool is left
/// out. `None` when a file of a tracked pool names no markout time.
pub open spec fn spec_max_rows(rows: Seq<CheckpointRow>, all: Seq<CheckpointRow>) -> Option<Seq<(Seq<char>, Seq<char>, Seq<char>, u64, u64)>>
    decreases rows.len(),
{
    if rows.len() == 0 {
        Some(Seq::empty())
    } else {
        match spec_max_rows(rows.drop_last(), all) {
            None => None,
            Some(prev) => {
                let r = rows.last();
                let p = spec_checkpoint_pool(r.file_path@);
                if !spec_is_valid_pool(p) {
                    Some(prev)
                } else {
                    match spec_checkpoint_markout(r.file_path@) {
                        None => None,
                        Some(m) => {
                            if r.max_lvr_value == 0 {
                                Some(prev)
                            } else if m == "brontes"@ && match spec_theory_maxima(all, p) {
                                Some(l) => match spec_assoc_min(l) {
                                    Some(mn) => r.max_lvr_value > mn,
                                    None => false,
                                },
                                None => false,
                            } {
                                Some(prev)
                            } else {
                                Some(prev.push((p, spec_pool_name(p), m, r.max_lvr_block, r.max_lvr_value)))
                            }
                        },
                    }
                }
            },
        }
    }
}

/// Whether a checkpoint row's maximum is a `brontes` maximum above the
/// smallest theoretical maximum of its pool, all rows being `all`.
pub open spec fn spec_brontes_above(r: CheckpointRow, all: Seq<CheckpointRow>) -> bool {
    let p = spec_checkpoint_pool(r.file_path@);
    spec_checkpoint_markout(r.file_path@) == Some("brontes"@) && match spec_theory_maxima(all, p) {
        Some(l) => match spec_assoc_min(l) {
            Some(mn) => r.max_lvr_value > mn,
            None => false,
        },
        None => false,
    }
}

/// Whether a checkpoint row gives a precomputed maximum: its pool is
/// tracked, its maximum is positive, and it is no `brontes` maximum above
/// its pool's smallest theoretical one.
pub open spec fn spec_max_kept(r: CheckpointRow, all: Seq<CheckpointRow>) -> bool {
    &&& spec_is_valid_pool(spec_checkpoint_pool(r.file_path@))
    &&& r.max_lvr_value > 0
    &&& !spec_brontes_above(r, all)
}

/// The precomputed maximum a kept checkpoint row gives.
pub open spec fn spec_max_of(r: CheckpointRow) -> (Seq<char>, Seq<char>, Seq<char>, u64, u64) {
    let p = spec_checkpoint_pool(r.file_path@);
    (p, spec_pool_name(p), spec_checkpoint_markout(r.file_path@).unwrap(), r.max_lvr_block, r.max_lvr_value)
}

/// The precomputed maxima, row by row: they fail exactly when a row of a
/// tracked pool names no markout time; otherwise they are, in order, the
/// maxima of the kept rows, a `brontes` row above its pool's smallest
/// theoretical maximum being dropped.
pub proof fn lemma_max_rows_law(rows: Seq<CheckpointRow>, all: Seq<CheckpointRow>)
    ensures
        spec_max_rows(rows, all) is None <==> exists|i: int| 0 <= i < rows.len()
            && spec_is_valid_pool(spec_checkpoint_pool((#[trigger] rows[i]).file_path@))
            && spec_checkpoint_markout(rows[i].file_path@) is None,
        spec_max_rows(rows, all) is Some ==> spec_max_rows(rows, all).unwrap()
            == rows.filter(|r: CheckpointRow| spec_max_kept(r, all)).map_values(|r: CheckpointRow| spec_max_of(r)),
    decreases rows.len(),
{
    if rows.len() > 0 {
        let d = rows.drop_last();
        lemma_max_rows_law(d, all);
        let x = rows.last();
        let n = rows.len() - 1;
        assert(rows[n] == x);
        let kept = |r: CheckpointRow| spec_max_kept(r, all);
        let of = |r: CheckpointRow| spec_max_of(r);
        assert(rows.filter(kept) == if kept(x) { d.filter(kept).push(x) } else { d.filter(kept) }) by {
            reveal(Seq::filter);
            assert(rows.drop_last() == d);
        }
        if kept(x) {
            assert(d.filter(kept).push(x).map_values(of) =~= d.filter(kept).map_values(of).push(of(x)));
        }
        if exists|i: int| 0 <= i < d.len() && spec_is_valid_pool(spec_checkpoint_pool((#[trigger] d[i]).file_path@))
            && spec_checkpoint_markout(d[i].file_path@) is None {
            let i = choose|i: int| 0 <= i < d.len() && spec_is_valid_pool(spec_checkpoint_pool((#[trigger] d[i]).file_path@))
                && spec_checkpoint_markout(d[i].file_path@) is None;
            assert(rows[i] == d[i]);
        }
        if exists|i: int| 0 <= i < rows.len() && spec_is_valid_pool(spec_checkpoint_pool((#[trigger] rows[i]).file_path@))
            && spec_checkpoint_markout(rows[i].file_path@) is None {
            let i = choose|i: int| 0 <= i < rows.len() && spec_is_valid_pool(spec_checkpoint_pool((#[trigger] rows[i]).file_path@))
                && spec_checkpoint_markout(rows[i].file_path@) is None;
            if i < n {
                assert(d[i] == rows[i]);
            }
        }
    }
}

/// The precomputed maxima of the checkpoint rows: `None` when some tracked
/// pool's theoretical maxima cannot be read, else `spec_max_rows`.
pub open spec fn spec_max_lvr_rows(rows: Seq<CheckpointRow>) -> Option<Seq<(Seq<char>, Seq<char>, Seq<char>, u64, u64)>> {
    if spec_theories_ok(rows) {
        spec_max_rows(rows, rows)
    } else {
        None
    }
}

/// Once a prefix of the rows fails, so do all the rows.
proof fn lemma_max_rows_fail(rows: Seq<CheckpointRow>, all: Seq<CheckpointRow>, i: int)
    requires
        0 <= i < rows.len(),
        spec_max_rows(rows.take(i + 1), all) is None,
    ensures
        spec_max_rows(rows, all) is None,
    decreases rows.len(),
{
    if i + 1 < rows.len() {
        assert(rows.drop_last().take(i + 1) =~= rows.take(i + 1));
        lemma_max_rows_fail(rows.drop_last(), all, i);
    } else {
        assert(rows.take(i + 1) =~= rows);
    }
}

/// The precomputed maxima of the checkpoint rows (see
/// `spec_max_lvr_rows`).
pub fn max_lvr_rows(rows: &Vec<CheckpointRow>) -> (r: Option<Vec<MaxLVRRow>>)
    ensures
        match r {
            Some(v) => spec_max_lvr_rows(rows@) == Some(spec_max_rows_view(v@)),
            None => spec_max_lvr_rows(rows@) is None,
        },
{
    let pools = get_valid_pools();
    let mut k: usize = 0;
    while k < pools.len()
        invariant
            k <= pools.len(),
            pools.len() == spec_pool_addresses().len(),
            forall|q: int| 0 <= q < pools.len() ==> (#[trigger] pools@[q])@ == spec_lower(spec_pool_addresses()[q]),
            forall|q: int| 0 <= q < k ==> (#[trigger] spec_theory_maxima(rows@, spec_lower(spec_pool_addresses()[q]))) is Some,
        decreases pools.len() - k,
    {
        match theory_maxima(rows, &pools[k]) {
            None => {
                proof {
                    assert(pools@[k as int]@ == spec_lower(spec_pool_addresses()[k as int]));
                }
                return None;
            },
            Some(_) => {},
        }
        k = k + 1;
    }
    assert(spec_theories_ok(rows@));
    let mut out: Vec<MaxLVRRow> = Vec::new();
    let mut i: usize = 0;
    while i < rows.len()
        invariant
            i <= rows.len(),
            spec_theories_ok(rows@),
            spec_max_rows(rows@.take(i as int), rows@) == Some(spec_max_rows_view(out@)),
        decreases rows.len() - i,
    {
        let r = &rows[i];
        let ghost before = spec_max_rows_view(out@);
        proof {
            assert(rows@.take(i + 1).drop_last() =~= rows@.take(i as int));
            assert(rows@.take(i + 1).last() == rows@[i as int]);
        }
        let p = checkpoint_pool(r.file_path.as_str());
        if is_valid_pool(p.as_str()) {
            let m = match checkpoint_markout(r.file_path.as_str()) {
                None => {
                    proof {
                        lemma_max_rows_fail(rows@, rows@, i as int);
                    }
                    return None;
                },
                Some(m) => m,
            };
            if r.max_lvr_value > 0 {
                let brontes = String::from_str("brontes");
                let mut skip = false;
                if m == brontes {
                    match theory_maxima(rows, &p) {
                        Some(l) => {
                            match assoc_min(&l) {
                                Some(mn) => {
                                    skip = r.max_lvr_value > mn;
                                },
                                None => {},
                            }
                        },
                        None => {},
                    }
                }
                if !skip {
                    let name = get_pool_name(p.as_str());
                    let row = MaxLVRRow {
                        pool_address: p.clone(),
                        pool_name: name,
                        markout_time: m,
                        block_number: r.max_lvr_block,
                        max_lvr_cents: r.max_lvr_value,
                    };
                    out.push(row);
                    proof {
                        assert(spec_max_rows_view(out@) =~= before.push(row@));
                    }
                }
            }
        }
        i = i + 1;
    }
    assert(rows@.take(rows.len() as int) =~= rows@);
    Some(out)
}

/// The maxima of the precomputed rows of a markout time, in row order.
pub open spec fn spec_select_maxima(rows: Seq<(Seq<char>, Seq<char>, Seq<char>, u64, u64)>, markout: Seq<char>) -> Seq<(Seq<char>, Seq<char>, u64, u64)>
    decreases rows.len(),
{
    if rows.len() == 0 {
        Seq::empty()
    } else {
        let prev = spec_select_maxima(rows.drop_last(), markout);
        let r = rows.last();
        if r.2 == markout {
            prev.push((r.1, r.0, r.3, r.4))
        } else {
            prev
        }
    }
}

/// The key by which maxima are ranked.
pub open spec fn spec_max_key(v: (Seq<char>, Seq<char>, u64, u64)) -> u64 {
    v.3
}

/// Ranks maxima, largest first, and states the result over views.
fn rank_maxima(v: Vec<MaxLVRPoolData>) -> (r: Vec<MaxLVRPoolData>)
    ensures
        spec_maxima_view(r@) == spec_rank_desc(spec_maxima_view(v@), |x: (Seq<char>, Seq<char>, u64, u64)| spec_max_key(x)),
{
    let r = rank_desc(v);
    proof {
        let kt = |t: MaxLVRPoolData| t.spec_rank();
        let f = |t: MaxLVRPoolData| t@;
        let kv = |x: (Seq<char>, Seq<char>, u64, u64)| spec_max_key(x);
        assert forall|a: MaxLVRPoolData| #[trigger] kv(f(a)) == kt(a) by {}
        lemma_rank_desc_map(v@, kt, f, kv);
    }
    r
}

/// The maxima of a markout time read from the precomputed rows: the rows of
/// that markout time, largest maximum first, ties in row order.
pub fn select_max_lvr(query: &MaxLVRQuery, rows: &Vec<MaxLVRRow>) -> (r: MaxLVRResponse)
    ensures
        spec_maxima_view(r.pools@) == spec_rank_desc(
            spec_select_maxima(spec_max_rows_view(rows@), query.markout_time@),
            |x: (Seq<char>, Seq<char>, u64, u64)| spec_max_key(x),
        ),
{
    let ghost rv = spec_max_rows_view(rows@);
    let mut out: Vec<MaxLVRPoolData> = Vec::new();
    let mut i: usize = 0;
    while i < rows.len()
        invariant
            i <= rows.len(),
            rv == spec_max_rows_view(rows@),
            spec_maxima_view(out@) == spec_select_maxima(rv.take(i as int), query.markout_time@),
        decreases rows.len() - i,
    {
        let r = &rows[i];
        let ghost before = spec_maxima_view(out@);
        proof {
            assert(rv.take(i + 1).drop_last() =~= rv.take(i as int));
            assert(rv.take(i + 1).last() == r@);
        }
        if r.markout_time == query.markout_time {
            let t = MaxLVRPoolData {
                pool_name: r.pool_name.clone(),
                pool_address: r.pool_address.clone(),
                block_number: r.block_number,
                lvr_cents: r.max_lvr_cents,
            };
            out.push(t);
            proof {
                assert(spec_maxima_view(out@) =~= before.push(t@));
            }
        }
        i = i + 1;
    }
    assert(rv.take(rows.len() as int) =~= rv);
    MaxLVRResponse { pools: rank_maxima(out) }
}

/// The block and maximum of the first checkpoint row, from `i` on, whose
/// lowercased path ends with the lowercased `pattern` and whose maximum is
/// positive.
pub open spec fn spec_checkpoint_max(rows: Seq<CheckpointRow>, pattern: Seq<char>, i: int) -> Option<(u64, u64)>
    decreases rows.len() - i,
{
    if i < 0 || i >= rows.len() {
        None
    } else if spec_ends_with(spec_lower(rows[i].file_path@), spec_lower(pattern)) && rows[i].max_lvr_value > 0 {
        Some((rows[i].max_lvr_block, rows[i].max_lvr_value))
    } else {
        spec_checkpoint_max(rows, pattern, i + 1)
    }
}

/// The block and maximum of the first matching checkpoint row (see
/// `spec_checkpoint_max`).
fn checkpoint_max(rows: &Vec<CheckpointRow>, pattern: &str) -> (r: Option<(u64, u64)>)
    ensures
        r == spec_checkpoint_max(rows@, pattern@, 0),
{
    let lower_pattern = to_lower(pattern);
    let mut i: usize = 0;
    while i < rows.len()
        invariant
            i <= rows.len(),
            lower_pattern@ == spec_lower(pattern@),
            spec_checkpoint_max(rows@, pattern@, 0) == spec_checkpoint_max(rows@, pattern@, i as int),
        decreases rows.len() - i,
    {
        let r = &rows[i];
        let lower_path = to_lower(r.file_path.as_str());
        if path_ends_with(lower_path.as_str(), lower_pattern.as_str()) && r.max_lvr_value > 0 {
            return Some((r.max_lvr_block, r.max_lvr_value));
        }
        i = i + 1;
    }
    None
}

/// The markout time a checkpoint file names, `unknown` when it names none.
pub open spec fn spec_markout_or_unknown(path: Seq<char>) -> Seq<char> {
    match spec_checkpoint_markout(path) {
        Some(m) => m,
        None => "unknown"@,
    }
}

/// The theoretical maxima of `pool` that a request reads: for each
/// checkpoint row of `scan` that feeds the pool, the first positive maximum
/// among the rows of `all` whose path ends with that row's path, under the
/// markout time the row's file names (`unknown` when none), a later one
/// replacing an earlier one.
pub open spec fn spec_query_theory(scan: Seq<CheckpointRow>, all: Seq<CheckpointRow>, pool: Seq<char>) -> Seq<(Seq<char>, u64)>
    decreases scan.len(),
{
    if scan.len() == 0 {
        Seq::empty()
    } else {
        let prev = spec_query_theory(scan.drop_last(), all, pool);
        let t = scan.last();
        if spec_theory_file(t.file_path@, pool) {
            match spec_checkpoint_max(all, t.file_path@, 0) {
                Some((_, v)) => spec_assoc_put(prev, spec_markout_or_unknown(t.file_path@), v),
                None => prev,
            }
        } else {
            prev
        }
    }
}

/// The best `brontes` maximum of `pool` among interval rows that stays at
/// most `allowed`, with its block (the file's start, or zero, plus 7,200
/// blocks per interval); the first such row wins ties, `(0, 0)` when there
/// is none.
pub open spec fn spec_interval_best(rows: Seq<IntervalRow>, pool: Seq<char>, allowed: u64) -> (u64, u64)
    decreases rows.len(),
{
    if rows.len() == 0 {
        (0, 0)
    } else {
        let prev = spec_interval_best(rows.drop_last(), pool, allowed);
        let r = rows.last();
        if spec_lower(r.pair_address@) == pool && r.markout_time@ == "brontes"@ && r.max_lvr_cents > prev.0
            && r.max_lvr_cents <= allowed {
            (r.max_lvr_cents, spec_interval_start_block(r) as u64)
        } else {
            prev
        }
    }
}

/// Whether an interval row is admitted for the best `brontes` maximum of
/// `pool` at most `allowed`: a positive maximum within the bound.
pub open spec fn spec_interval_admitted(r: IntervalRow, pool: Seq<char>, allowed: u64) -> bool {
    spec_lower(r.pair_address@) == pool && r.markout_time@ == "brontes"@ && 0 < r.max_lvr_cents <= allowed
}

/// The best interval maximum is the largest admitted one: no admitted row
/// exceeds it, it is some admitted row's maximum when any row is admitted,
/// and it is zero (read as not found) when none is.
pub proof fn lemma_interval_best_is_max(rows: Seq<IntervalRow>, pool: Seq<char>, allowed: u64)
    ensures
        forall|i: int| 0 <= i < rows.len() && spec_interval_admitted(#[trigger] rows[i], pool, allowed)
            ==> rows[i].max_lvr_cents <= spec_interval_best(rows, pool, allowed).0,
        spec_interval_best(rows, pool, allowed).0 > 0 ==> exists|i: int| 0 <= i < rows.len()
            && spec_interval_admitted(#[trigger] rows[i], pool, allowed)
            && rows[i].max_lvr_cents == spec_interval_best(rows, pool, allowed).0,
        (forall|i: int| 0 <= i < rows.len() ==> !spec_interval_admitted(#[trigger] rows[i], pool, allowed))
            ==> spec_interval_best(rows, pool, allowed).0 == 0,
    decreases rows.len(),
{
    if rows.len() > 0 {
        let d = rows.drop_last();
        lemma_interval_best_is_max(d, pool, allowed);
        let best = spec_interval_best(rows, pool, allowed);
        let prev = spec_interval_best(d, pool, allowed);
        assert forall|i: int| 0 <= i < rows.len() && spec_interval_admitted(#[trigger] rows[i], pool, allowed)
            implies rows[i].max_lvr_cents <= best.0 by {
            if i < d.len() {
                assert(d[i] == rows[i]);
            }
        }
        if best.0 > 0 {
            if best != prev {
                assert(spec_interval_admitted(rows[rows.len() - 1], pool, allowed));
            } else {
                let w = choose|i: int| 0 <= i < d.len() && spec_interval_admitted(#[trigger] d[i], pool, allowed)
                    && d[i].max_lvr_cents == prev.0;
                assert(rows[w] == d[w]);
            }
        }
        if forall|i: int| 0 <= i < rows.len() ==> !spec_interval_admitted(#[trigger] rows[i], pool, allowed) {
            assert forall|i: int| 0 <= i < d.len() implies !spec_interval_admitted(#[trigger] d[i], pool, allowed) by {
                assert(d[i] == rows[i]);
            }
            assert(!spec_interval_admitted(rows[rows.len() - 1], pool, allowed));
        }
    }
}

/// Whether row `i` is the first admitted row that reaches `best`, with
/// `best` holding its maximum and its first block.
pub open spec fn spec_first_reaching(rows: Seq<IntervalRow>, pool: Seq<char>, allowed: u64, best: (u64, u64), i: int) -> bool {
    &&& 0 <= i < rows.len()
    &&& spec_interval_admitted(rows[i], pool, allowed)
    &&& rows[i].max_lvr_cents == best.0
    &&& best.1 == spec_interval_start_block(rows[i]) as u64
    &&& forall|j: int| 0 <= j < i && spec_interval_admitted(#[trigger] rows[j], pool, allowed)
        ==> rows[j].max_lvr_cents < best.0
}

/// When some row is admitted, the best interval maximum and its block are
/// those of the first admitted row that reaches the largest maximum.
pub proof fn lemma_interval_best_first(rows: Seq<IntervalRow>, pool: Seq<char>, allowed: u64)
    ensures
        spec_interval_best(rows, pool, allowed).0 > 0 ==> exists|i: int|
            spec_first_reaching(rows, pool, allowed, spec_interval_best(rows, pool, allowed), i),
    decreases rows.len(),
{
    if rows.len() > 0 {
        let d = rows.drop_last();
        lemma_interval_best_first(d, pool, allowed);
        lemma_interval_best_is_max(d, pool, allowed);
        let best = spec_interval_best(rows, pool, allowed);
        let prev = spec_interval_best(d, pool, allowed);
        let n = rows.len() - 1;
        if best.0 > 0 {
            let r = rows.last();
            if spec_lower(r.pair_address@) == pool && r.markout_time@ == "brontes"@ && r.max_lvr_cents > prev.0
                && r.max_lvr_cents <= allowed {
                assert(rows[n] == r);
                assert forall|j: int| 0 <= j < n && spec_interval_admitted(#[trigger] rows[j], pool, allowed)
                    implies rows[j].max_lvr_cents < best.0 by {
                    assert(rows[j] == d[j]);
                }
                assert(spec_first_reaching(rows, pool, allowed, best, n));
            } else {
                let i = choose|i: int| spec_first_reaching(d, pool, allowed, prev, i);
                assert forall|j: int| 0 <= j < i && spec_interval_admitted(#[trigger] rows[j], pool, allowed)
                    implies rows[j].max_lvr_cents < best.0 by {
                    assert(rows[j] == d[j]);
                }
                assert(rows[i] == d[i]);
                assert(spec_first_reaching(rows, pool, allowed, best, i));
            }
        }
    }
}

/// The first block of an interval row: its file's start (zero when the
/// path names none) plus 7,200 blocks per interval.
pub open spec fn spec_interval_start_block(r: IntervalRow) -> int {
    let start: u64 = match spec_interval_file_start(r.file_path@) {
        Some(v) => v,
        None => 0,
    };
    start + r.interval_id * 7200
}

/// Whether a `brontes` interval row of `pool` with a positive maximum has a
/// first block that fits in 64 bits.
pub open spec fn spec_interval_fits(r: IntervalRow, pool: Seq<char>) -> bool {
    (spec_lower(r.pair_address@) == pool && r.markout_time@ == "brontes"@ && r.max_lvr_cents > 0)
        ==> spec_interval_start_block(r) <= u64::MAX
}

/// Whether a `brontes` interval row with a positive maximum has a first
/// block that fits in 64 bits.
pub open spec fn spec_brontes_row_fits(r: IntervalRow) -> bool {
    (r.markout_time@ == "brontes"@ && r.max_lvr_cents > 0) ==> spec_interval_start_block(r) <= u64::MAX
}

/// The best `brontes` maximum of `pool` that stays at most `allowed` (see
/// `spec_interval_best`).
fn interval_best(rows: &Vec<IntervalRow>, pool: &String, allowed: u64) -> (r: (u64, u64))
    requires
        forall|i: int| 0 <= i < rows.len() ==> spec_interval_fits(#[trigger] rows@[i], pool@),
    ensures
        r == spec_interval_best(rows@, pool@, allowed),
{
    let brontes = String::from_str("brontes");
    let mut best: (u64, u64) = (0, 0);
    let mut i: usize = 0;
    while i < rows.len()
        invariant
            i <= rows.len(),
            brontes@ == "brontes"@,
            forall|k: int| 0 <= k < rows.len() ==> spec_interval_fits(#[trigger] rows@[k], pool@),
            best == spec_interval_best(rows@.take(i as int), pool@, allowed),
        decreases rows.len() - i,
    {
        let r = &rows[i];
        proof {
            assert(rows@.take(i + 1).drop_last() =~= rows@.take(i as int));
            assert(rows@.take(i + 1).last() == rows@[i as int]);
            assert(spec_interval_fits(rows@[i as int], pool@));
        }
        let v = r.max_lvr_cents;
        if to_lower(r.pair_address.as_str()) == *pool && r.markout_time == brontes && v > best.0 && v <= allowed {
            let start = match interval_file_start(r.file_path.as_str()) {
                Some(x) => x,
                None => 0,
            };
            proof {
                assert(r.interval_id * 7200 >= 0) by (nonlinear_arith)
                    requires r.interval_id >= 0;
            }
            best = (v, start + r.interval_id * BLOCKS_PER_DAY);
        }
        i = i + 1;
    }
    assert(rows@.take(rows.len() as int) =~= rows@);
    best
}

/// The largest LVR of one pool and markout time, and its block, read from
/// the checkpoint rows and, for `brontes`, the interval rows. A pool that
/// is not tracked is refused. For a theoretical markout time, it is the
/// first positive maximum of a checkpoint of that pool and markout time.
/// For `brontes`, the checkpoint's maximum counts only when it is at most
/// the smallest theoretical maximum of the pool (none found: not found);
/// otherwise it is the best interval maximum below that bound.
pub open spec fn spec_get_max_lvr(q: PoolMaxLVRQuery, cps: Seq<CheckpointRow>, ivs: Seq<IntervalRow>) -> Result<(Seq<char>, Seq<char>, u64, u64), ApiError> {
    let pool = spec_lower(q.pool_address@);
    let name = spec_pool_name(pool);
    if !spec_is_valid_pool(q.pool_address@) {
        Err(ApiError::BadRequest)
    } else if q.markout_time@ == "brontes"@ {
        match spec_assoc_min(spec_query_theory(cps, cps, pool)) {
            None => Err(ApiError::NotFound),
            Some(mn) => match spec_checkpoint_max(cps, pool + "_brontes.parquet"@, 0) {
                Some((b, v)) if v <= mn => Ok((name, pool, b, v)),
                _ => {
                    let best = spec_interval_best(ivs, pool, mn);
                    if best.0 > 0 {
                        Ok((name, pool, best.1, best.0))
                    } else {
                        Err(ApiError::NotFound)
                    }
                },
            },
        }
    } else {
        match spec_checkpoint_max(cps, pool + spec_checkpoint_suffix_of(q.markout_time@), 0) {
            Some((b, v)) => Ok((name, pool, b, v)),
            None => Err(ApiError::NotFound),
        }
    }
}

/// The ending of the checkpoint files of a markout time.
pub open spec fn spec_checkpoint_suffix_of(markout: Seq<char>) -> Seq<char> {
    seq!['_'] + markout + ".parquet"@
}

/// The theoretical maxima of `pool` that a request reads (see
/// `spec_query_theory`).
fn query_theory(rows: &Vec<CheckpointRow>, pool: &String) -> (r: Vec<(String, u64)>)
    ensures
        spec_assoc_view(r@) == spec_query_theory(rows@, rows@, pool@),
{
    let mut l: Vec<(String, u64)> = Vec::new();
    let mut i: usize = 0;
    while i < rows.len()
        invariant
            i <= rows.len(),
            spec_assoc_view(l@) == spec_query_theory(rows@.take(i as int), rows@, pool@),
        decreases rows.len() - i,
    {
        let t = &rows[i];
        proof {
            assert(rows@.take(i + 1).drop_last() =~= rows@.take(i as int));
            assert(rows@.take(i + 1).last() == rows@[i as int]);
        }
        let lower_path = to_lower(t.file_path.as_str());
        if text_contains(lower_path.as_str(), pool.as_str())
            && !path_ends_with(lower_path.as_str(), "_brontes.parquet") {
            match checkpoint_max(rows, t.file_path.as_str()) {
                Some((_, v)) => {
                    let m = match checkpoint_markout(t.file_path.as_str()) {
                        Some(m) => m,
                        None => String::from_str("unknown"),
                    };
                    assoc_put(&mut l, m, v);
                },
                None => {},
            }
        }
        i = i + 1;
    }
    assert(rows@.take(rows.len() as int) =~= rows@);
    l
}

/// The largest LVR of one pool and markout time (see `spec_get_max_lvr`).
pub fn get_max_lvr(query: &PoolMaxLVRQuery, checkpoints: &Vec<CheckpointRow>, intervals: &Vec<IntervalRow>) -> (r: Result<MaxLVRPoolData, ApiError>)
    requires
        forall|i: int| 0 <= i < intervals.len() ==> spec_brontes_row_fits(#[trigger] intervals@[i]),
    ensures
        match r {
            Ok(d) => spec_get_max_lvr(*query, checkpoints@, intervals@) == Ok::<_, ApiError>(d@),
            Err(e) => spec_get_max_lvr(*query, checkpoints@, intervals@) == Err::<(Seq<char>, Seq<char>, u64, u64), _>(e),
        },
{
    let pool = to_lower(query.pool_address.as_str());
    if !is_valid_pool(query.pool_address.as_str()) {
        return Err(ApiError::BadRequest);
    }
    assert forall|i: int| 0 <= i < intervals.len() implies spec_interval_fits(#[trigger] intervals@[i], pool@) by {
        assert(spec_brontes_row_fits(intervals@[i]));
    }
    let name = get_pool_name(pool.as_str());
    let brontes = String::from_str("brontes");
    if query.markout_time == brontes {
        let theory = query_theory(checkpoints, &pool);
        let mn = match assoc_min(&theory) {
            None => return Err(ApiError::NotFound),
            Some(m) => m,
        };
        let pattern = concat(pool.as_str(), "_brontes.parquet");
        match checkpoint_max(checkpoints, pattern.as_str()) {
            Some((b, v)) => {
                if v <= mn {
                    return Ok(MaxLVRPoolData { pool_name: name, pool_address: pool, block_number: b, lvr_cents: v });
                }
            },
            None => {},
        }
        let best = interval_best(intervals, &pool, mn);
        if best.0 > 0 {
            Ok(MaxLVRPoolData { pool_name: name, pool_address: pool, block_number: best.1, lvr_cents: best.0 })
        } else {
            Err(ApiError::NotFound)
        }
    } else {
        let a = concat(pool.as_str(), "_");
        let b = concat(a.as_str(), query.markout_time.as_str());
        let pattern = concat(b.as_str(), ".parquet");
        proof {
            reveal_strlit("_");
            assert(pattern@ =~= pool@ + spec_checkpoint_suffix_of(query.markout_time@));
        }
        match checkpoint_max(checkpoints, pattern.as_str()) {
            Some((bl, v)) => Ok(MaxLVRPoolData { pool_name: name, pool_address: pool, block_number: bl, lvr_cents: v }),
            None => Err(ApiError::NotFound),
        }
    }
}

} // verus!
