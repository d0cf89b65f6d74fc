use vstd::prelude::*;
use crate::files::{block_number_fits, 
    calculate_block_number, interval_block, interval_file_range, interval_file_start,
    spec_block_number, spec_interval_block, spec_interval_file_range, spec_interval_file_start,
};
use crate::pools::{get_pool_name, is_valid_pool, spec_is_valid_pool, spec_pool_name, MERGE_BLOCK};
use crate::text::{spec_lower, to_lower};

verus! {

/// The last block a running-total request covers when it names none.
pub const DEFAULT_END_BLOCK: u64 = 20000000;

/// Why a request is refused.
#[derive(Clone, Copy, Debug, PartialEq, Eq, Structural)]
pub enum ApiError {
    BadRequest,
    NotFound,
    InternalServerError,
}

/// The parameters of a running-total request.
pub struct TimeRangeQuery {
    pub start_block: Option<u64>,
    pub end_block: Option<u64>,
    pub markout_time: Option<String>,
    pub aggregate: Option<bool>,
    pub pool: Option<String>,
}

/// The LVR of one interval key, and the file it was first read from.
pub struct IntervalAPIData {
    pub total: u64,
    pub file_path: String,
}

/// One point of a running total.
pub struct RunningTotal {
    pub block_number: u64,
    pub markout: String,
    pub pool_name: Option<String>,
    pub pool_address: Option<String>,
    pub running_total_cents: u64,
}

/// One row of an interval file, with the path of that file.
pub struct IntervalRow {
    pub file_path: String,
    pub interval_id: u64,
    pub markout_time: String,
    pub pair_address: String,
    pub total_lvr_cents: Option<u64>,
    pub max_lvr_cents: u64,
    pub median_lvr_cents: u64,
    pub non_zero_count: u64,
}

/// The summed LVR of one interval of one file, for one markout time and,
/// unless pools are aggregated, one pool.
pub struct IntervalTotal {
    pub file_start: u64,
    pub interval_id: u64,
    pub markout: String,
    pub pool_address: Option<String>,
    pub data: IntervalAPIData,
}

/// The characters of an optional text.
pub open spec fn spec_opt_view(o: Option<String>) -> Option<Seq<char>> {
    match o {
        Some(s) => Some(s@),
        None => None,
    }
}

impl View for IntervalTotal {
    /// File start, interval, markout time, pool, total and file path.
    type V = (u64, u64, Seq<char>, Option<Seq<char>>, u64, Seq<char>);

    open spec fn view(&self) -> Self::V {
        (
            self.file_start,
            self.interval_id,
            self.markout@,
            spec_opt_view(self.pool_address),
            self.data.total,
            self.data.file_path@,
        )
    }
}

impl View for RunningTotal {
    /// Block, markout time, pool name, pool address and running total.
    type V = (u64, Seq<char>, Option<Seq<char>>, Option<Seq<char>>, u64);

    open spec fn view(&self) -> Self::V {
        (
            self.block_number,
            self.markout@,
            spec_opt_view(self.pool_name),
            spec_opt_view(self.pool_address),
            self.running_total_cents,
        )
    }
}

/// The views of a sequence of interval totals.
pub open spec fn spec_totals_view(v: Seq<IntervalTotal>) -> Seq<(u64, u64, Seq<char>, Option<Seq<char>>, u64, Seq<char>)> {
    v.map_values(|e: IntervalTotal| e@)
}

/// The views of a sequence of running-total points.
pub open spec fn spec_points_view(v: Seq<RunningTotal>) -> Seq<(u64, Seq<char>, Option<Seq<char>>, Option<Seq<char>>, u64)> {
    v.map_values(|e: RunningTotal| e@)
}

/// `a + b`, or `u64::MAX` where that overflows.
pub open spec fn spec_sat_add(a: u64, b: u64) -> u64 {
    if a + b > u64::MAX {
        u64::MAX
    } else {
        (a + b) as u64
    }
}

/// Whether the block range in an interval file's name lies wholly outside
/// `[start, end]`; a name without a readable range is never outside.
pub open spec fn spec_file_outside(path: Seq<char>, start: u64, end: u64) -> bool {
    match spec_interval_file_range(path) {
        Some((Some(a), Some(b))) => a > end || b < start,
        _ => false,
    }
}

/// Whether an interval row passes every test of a running-total request
/// that comes before its block number is computed: its file's range meets
/// the request, it has a total and some non-zero block, it belongs to the
/// requested pool (unless pools are aggregated) and to a tracked pool, and
/// it has the requested markout time.
pub open spec fn spec_row_passes(
    r: IntervalRow,
    start: u64,
    end: u64,
    agg: bool,
    pool: Option<Seq<char>>,
    markout: Option<Seq<char>>,
) -> bool {
    &&& !spec_file_outside(r.file_path@, start, end)
    &&& r.total_lvr_cents is Some
    &&& r.non_zero_count != 0
    &&& (agg || match pool {
        Some(p) => spec_lower(p) == spec_lower(r.pair_address@),
        None => true,
    })
    &&& spec_is_valid_pool(r.pair_address@)
    &&& match markout {
        Some(m) => r.markout_time@ == m,
        None => true,
    }
}

/// Whether an interval row counts toward a running-total request: it
/// passes the tests of `spec_row_passes` and its block lies in
/// `[start, end]`.
pub open spec fn spec_row_selected(
    r: IntervalRow,
    start: u64,
    end: u64,
    agg: bool,
    pool: Option<Seq<char>>,
    markout: Option<Seq<char>>,
) -> bool {
    &&& spec_row_passes(r, start, end, agg, pool, markout)
    &&& start <= spec_block_number(start, r.interval_id, r.file_path@) <= end
}

/// The first index, from `i` on, of a total with the given key.
pub open spec fn spec_find_total(
    es: Seq<(u64, u64, Seq<char>, Option<Seq<char>>, u64, Seq<char>)>,
    key: (u64, u64, Seq<char>, Option<Seq<char>>),
    i: int,
) -> Option<int>
    decreases es.len() - i,
{
    if i < 0 || i >= es.len() {
        None
    } else if es[i].0 == key.0 && es[i].1 == key.1 && es[i].2 == key.2 && es[i].3 == key.3 {
        Some(i)
    } else {
        spec_find_total(es, key, i + 1)
    }
}

/// The key under which a selected row is summed: its file's start (or
/// `start` when the path names none), its interval, its markout time and,
/// unless pools are aggregated, its lowercased pool address.
pub open spec fn spec_row_key(r: IntervalRow, start: u64, agg: bool) -> (u64, u64, Seq<char>, Option<Seq<char>>) {
    (
        match spec_interval_file_start(r.file_path@) {
            Some(v) => v,
            None => start,
        },
        r.interval_id,
        r.markout_time@,
        if agg { None } else { Some(spec_lower(r.pair_address@)) },
    )
}

/// Adds a selected row to the totals: to the total with its key, saturating,
/// or as a new total that remembers the row's file.
pub open spec fn spec_add_row(
    es: Seq<(u64, u64, Seq<char>, Option<Seq<char>>, u64, Seq<char>)>,
    r: IntervalRow,
    start: u64,
    agg: bool,
) -> Seq<(u64, u64, Seq<char>, Option<Seq<char>>, u64, Seq<char>)> {
    let key = spec_row_key(r, start, agg);
    let cents = r.total_lvr_cents.unwrap();
    match spec_find_total(es, key, 0) {
        Some(i) => es.update(i, (es[i].0, es[i].1, es[i].2, es[i].3, spec_sat_add(es[i].4, cents), es[i].5)),
        None => es.push((key.0, key.1, key.2, key.3, cents, r.file_path@)),
    }
}

/// The totals of a running-total request: the selected rows summed by key,
/// keys in the order in which they first occur.
pub open spec fn spec_collect(
    rows: Seq<IntervalRow>,
    start: u64,
    end: u64,
    agg: bool,
    pool: Option<Seq<char>>,
    markout: Option<Seq<char>>,
) -> Seq<(u64, u64, Seq<char>, Option<Seq<char>>, u64, Seq<char>)>
    decreases rows.len(),
{
    if rows.len() == 0 {
        Seq::empty()
    } else {
        let prev = spec_collect(rows.drop_last(), start, end, agg, pool, markout);
        if spec_row_selected(rows.last(), start, end, agg, pool, markout) {
            spec_add_row(prev, rows.last(), start, agg)
        } else {
            prev
        }
    }
}

/// Whether two optional texts hold the same characters.
fn opt_eq(a: &Option<String>, b: &Option<String>) -> (r: bool)
    ensures
        r == (spec_opt_view(*a) == spec_opt_view(*b)),
{
    match (a, b) {
        (Some(x), Some(y)) => *x == *y,
        (None, None) => true,
        _ => false,
    }
}

/// Whether an interval row passes the tests of a running-total request
/// that come before its block number (see `spec_row_passes`).
fn row_passes(
    r: &IntervalRow,
    start: u64,
    end: u64,
    agg: bool,
    pool: &Option<String>,
    markout: &Option<String>,
) -> (b: bool)
    ensures
        b == spec_row_passes(*r, start, end, agg, spec_opt_view(*pool), spec_opt_view(*markout)),
{
    match interval_file_range(r.file_path.as_str()) {
        Some((Some(a), Some(b))) => {
            if a > end || b < start {
                return false;
            }
        },
        _ => {},
    }
    if r.total_lvr_cents.is_none() || r.non_zero_count == 0 {
        return false;
    }
    if !agg {
        match pool {
            Some(p) => {
                let wanted = to_lower(p.as_str());
                let have = to_lower(r.pair_address.as_str());
                if wanted != have {
                    return false;
                }
            },
            None => {},
        }
    }
    if !is_valid_pool(r.pair_address.as_str()) {
        return false;
    }
    match markout {
        Some(m) => r.markout_time == *m,
        None => true,
    }
}

/// Whether an interval row counts toward a running-total request (see
/// `spec_row_selected`).
fn row_selected(
    r: &IntervalRow,
    start: u64,
    end: u64,
    agg: bool,
    pool: &Option<String>,
    markout: &Option<String>,
) -> (b: bool)
    requires
        spec_row_passes(*r, start, end, agg, spec_opt_view(*pool), spec_opt_view(*markout))
            ==> spec_block_number(start, r.interval_id, r.file_path@) <= u64::MAX,
    ensures
        b == spec_row_selected(*r, start, end, agg, spec_opt_view(*pool), spec_opt_view(*markout)),
{
    if !row_passes(r, start, end, agg, pool, markout) {
        return false;
    }
    let block = calculate_block_number(start, r.interval_id, r.file_path.as_str());
    start <= block && block <= end
}

/// The index of the total with the given key, if any (see
/// `spec_find_total`).
fn find_total(
    es: &Vec<IntervalTotal>,
    file_start: u64,
    interval_id: u64,
    markout: &String,
    pool: &Option<String>,
) -> (r: Option<usize>)
    ensures
        match r {
            Some(j) => j < es.len() && spec_find_total(spec_totals_view(es@),
                (file_start, interval_id, markout@, spec_opt_view(*pool)), 0) == Some(j as int),
            None => spec_find_total(spec_totals_view(es@),
                (file_start, interval_id, markout@, spec_opt_view(*pool)), 0) is None,
        },
{
    let ghost v = spec_totals_view(es@);
    let ghost key = (file_start, interval_id, markout@, spec_opt_view(*pool));
    let mut j: usize = 0;
    while j < es.len()
        invariant
            j <= es.len(),
            v == spec_totals_view(es@),
            v.len() == es.len(),
            key == (file_start, interval_id, markout@, spec_opt_view(*pool)),
            spec_find_total(v, key, 0) == spec_find_total(v, key, j as int),
        decreases es.len() - j,
    {
        let e = &es[j];
        assert(v[j as int] == e@);
        let same_markout = e.markout == *markout;
        let same_pool = opt_eq(&e.pool_address, pool);
        let same = e.file_start == file_start && e.interval_id == interval_id && same_markout && same_pool;
        assert(same == (v[j as int].0 == key.0 && v[j as int].1 == key.1 && v[j as int].2 == key.2
            && v[j as int].3 == key.3));
        if same {
            assert(spec_find_total(v, key, j as int) == Some(j as int));
            return Some(j);
        }
        assert(spec_find_total(v, key, j as int) == spec_find_total(v, key, j + 1));
        j = j + 1;
    }
    None
}

/// The totals of a running-total request over interval rows: the selected
/// rows summed, saturating, by file start, interval, markout time and
/// (unless `aggregate`) lowercased pool address (see `spec_collect`).
pub fn collect_interval_totals(
    rows: &Vec<IntervalRow>,
    start_block: u64,
    end_block: u64,
    aggregate: bool,
    pool: &Option<String>,
    markout_time: &Option<String>,
) -> (r: Vec<IntervalTotal>)
    requires
        forall|i: int| 0 <= i < rows.len()
            && spec_row_passes(#[trigger] rows@[i], start_block, end_block, aggregate, spec_opt_view(*pool), spec_opt_view(*markout_time))
            ==> spec_block_number(start_block, rows@[i].interval_id, rows@[i].file_path@) <= u64::MAX,
    ensures
        spec_totals_view(r@) == spec_collect(rows@, start_block, end_block, aggregate, spec_opt_view(*pool), spec_opt_view(*markout_time)),
{
    let ghost p = spec_opt_view(*pool);
    let ghost m = spec_opt_view(*markout_time);
    let mut es: Vec<IntervalTotal> = Vec::new();
    let mut i: usize = 0;
    while i < rows.len()
        invariant
            i <= rows.len(),
            p == spec_opt_view(*pool),
            m == spec_opt_view(*markout_time),
            forall|k: int| 0 <= k < rows.len()
                && spec_row_passes(#[trigger] rows@[k], start_block, end_block, aggregate, p, m)
                ==> spec_block_number(start_block, rows@[k].interval_id, rows@[k].file_path@) <= u64::MAX,
            spec_totals_view(es@) == spec_collect(rows@.take(i as int), start_block, end_block, aggregate, p, m),
        decreases rows.len() - i,
    {
        let r = &rows[i];
        assert(rows@.take(i + 1).drop_last() =~= rows@.take(i as int));
        assert(rows@.take(i + 1).last() == rows@[i as int]);
        if row_selected(r, start_block, end_block, aggregate, pool, markout_time) {
            let file_start = match interval_file_start(r.file_path.as_str()) {
                Some(v) => v,
                None => start_block,
            };
            let key_pool: Option<String> = if aggregate {
                None
            } else {
                Some(to_lower(r.pair_address.as_str()))
            };
            let cents = match r.total_lvr_cents {
                Some(c) => c,
                None => 0,
            };
            let ghost before = spec_totals_view(es@);
            assert(spec_row_key(rows@[i as int], start_block, aggregate)
                == (file_start, r.interval_id, r.markout_time@, spec_opt_view(key_pool)));
            assert(r.total_lvr_cents.unwrap() == cents);
            match find_total(&es, file_start, r.interval_id, &r.markout_time, &key_pool) {
                Some(j) => {
                    let t = es[j].data.total.saturating_add(cents);
                    es[j].data.total = t;
                    proof {
                        let upd = before.update(j as int, (before[j as int].0, before[j as int].1, before[j as int].2,
                            before[j as int].3, spec_sat_add(before[j as int].4, cents), before[j as int].5));
                        assert(spec_totals_view(es@) =~= upd);
                        assert(spec_totals_view(es@) == spec_add_row(before, rows@[i as int], start_block, aggregate));
                    }
                },
                None => {
                    let e = IntervalTotal {
                        file_start,
                        interval_id: r.interval_id,
                        markout: r.markout_time.clone(),
                        pool_address: key_pool,
                        data: IntervalAPIData { total: cents, file_path: r.file_path.clone() },
                    };
                    es.push(e);
                    proof {
                        assert(spec_totals_view(es@) =~= before.push(e@));
                        assert(spec_totals_view(es@) == spec_add_row(before, rows@[i as int], start_block, aggregate));
                    }
                },
            }
        }
        assert(spec_totals_view(es@) == spec_collect(rows@.take(i + 1), start_block, end_block, aggregate, p, m));
        i = i + 1;
    }
    assert(rows@.take(rows.len() as int) =~= rows@);
    es
}

/// The order key of an interval total: its file's start plus 7,200 blocks
/// per interval.
pub open spec fn spec_block_key(e: (u64, u64, Seq<char>, Option<Seq<char>>, u64, Seq<char>)) -> int {
    e.0 + e.1 * 7200
}

/// Where a stable insertion puts `x` into `s`: just after the last element
/// whose block key is at most that of `x`.
pub open spec fn spec_block_slot(
    s: Seq<(u64, u64, Seq<char>, Option<Seq<char>>, u64, Seq<char>)>,
    x: (u64, u64, Seq<char>, Option<Seq<char>>, u64, Seq<char>),
) -> int
    decreases s.len(),
{
    if s.len() == 0 {
        0
    } else if spec_block_key(s.last()) <= spec_block_key(x) {
        s.len() as int
    } else {
        spec_block_slot(s.drop_last(), x)
    }
}

/// The interval totals stably sorted by block key.
pub open spec fn spec_sort_by_block(
    s: Seq<(u64, u64, Seq<char>, Option<Seq<char>>, u64, Seq<char>)>,
) -> Seq<(u64, u64, Seq<char>, Option<Seq<char>>, u64, Seq<char>)>
    decreases s.len(),
{
    if s.len() == 0 {
        s
    } else {
        let t = spec_sort_by_block(s.drop_last());
        t.insert(spec_block_slot(t, s.last()), s.last())
    }
}

/// The slot of a stable insertion lies within the sequence.
pub(crate) proof fn lemma_block_slot_bounds(
    s: Seq<(u64, u64, Seq<char>, Option<Seq<char>>, u64, Seq<char>)>,
    x: (u64, u64, Seq<char>, Option<Seq<char>>, u64, Seq<char>),
)
    ensures
        0 <= spec_block_slot(s, x) <= s.len(),
    decreases s.len(),
{
    if s.len() > 0 && spec_block_key(s.last()) > spec_block_key(x) {
        lemma_block_slot_bounds(s.drop_last(), x);
    }
}

/// The block key of an interval total.
fn block_key(e: &IntervalTotal) -> (r: u128)
    ensures
        r == spec_block_key(e@),
{
    proof {
        assert(e.interval_id * 7200 <= u64::MAX * 7200) by (nonlinear_arith)
            requires e.interval_id <= u64::MAX;
    }
    (e.file_start as u128) + (e.interval_id as u128) * 7200
}

/// The interval totals stably sorted by block key (see
/// `spec_sort_by_block`).
fn sort_by_block(v: Vec<IntervalTotal>) -> (r: Vec<IntervalTotal>)
    ensures
        spec_totals_view(r@) == spec_sort_by_block(spec_totals_view(v@)),
{
    let ghost ov = spec_totals_view(v@);
    let n = v.len();
    let mut rest = v;
    let mut out: Vec<IntervalTotal> = Vec::new();
    let mut i: usize = 0;
    while i < n
        invariant
            i <= n,
            n == ov.len(),
            rest.len() == n - i,
            spec_totals_view(rest@) == ov.subrange(i as int, n as int),
            spec_totals_view(out@) == spec_sort_by_block(ov.take(i as int)),
        decreases n - i,
    {
        let ghost os = spec_totals_view(out@);
        let ghost old_rest = rest@;
        let x = rest.remove(0);
        proof {
            assert(spec_totals_view(old_rest)[0] == old_rest[0]@);
            assert(x@ == ov[i as int]);
            assert forall|q: int| 0 <= q < rest@.len() implies
                #[trigger] spec_totals_view(rest@)[q] == ov[i + 1 + q] by {
                assert(rest@[q] == old_rest[q + 1]);
                assert(spec_totals_view(old_rest)[q + 1] == old_rest[q + 1]@);
            }
            assert(spec_totals_view(rest@) =~= ov.subrange(i + 1, n as int));
        }
        let k = block_key(&x);
        let mut j = out.len();
        let mut moving = true;
        assert(os.take(j as int) =~= os);
        while moving && j > 0
            invariant
                j <= out.len(),
                os == spec_totals_view(out@),
                k == spec_block_key(x@),
                spec_block_slot(os, x@) == spec_block_slot(os.take(j as int), x@),
                !moving ==> j > 0 && spec_block_key(os[j - 1]) <= spec_block_key(x@),
            decreases j + (if moving { 1int } else { 0int }),
        {
            let kj = block_key(&out[j - 1]);
            assert(os[j - 1] == out@[j - 1]@);
            if kj > k {
                assert(os.take(j as int).drop_last() =~= os.take(j - 1));
                j = j - 1;
            } else {
                moving = false;
            }
        }
        proof {
            if j > 0 {
                assert(os.take(j as int).last() == os[j - 1]);
            }
            assert(spec_block_slot(os, x@) == j);
            assert(ov.take(i + 1).drop_last() =~= ov.take(i as int));
            assert(ov.take(i + 1).last() == ov[i as int]);
        }
        out.insert(j, x);
        proof {
            assert(spec_totals_view(out@) =~= os.insert(j as int, x@));
        }
        i = i + 1;
    }
    assert(ov.take(n as int) =~= ov);
    out
}

/// Whether text `a` comes before text `b` from index `i` on, character by
/// character as `str` orders them.
pub open spec fn spec_text_lt_from(a: Seq<char>, b: Seq<char>, i: int) -> bool
    decreases a.len() - i,
{
    if i < 0 || i >= a.len() {
        0 <= i < b.len()
    } else if i >= b.len() {
        false
    } else if a[i] != b[i] {
        a[i] < b[i]
    } else {
        spec_text_lt_from(a, b, i + 1)
    }
}

/// Whether text `a` comes strictly before text `b`.
pub open spec fn spec_text_lt(a: Seq<char>, b: Seq<char>) -> bool {
    spec_text_lt_from(a, b, 0)
}

/// Whether optional text `a` comes strictly before `b`, no text first.
pub open spec fn spec_opt_text_lt(a: Option<Seq<char>>, b: Option<Seq<char>>) -> bool {
    match (a, b) {
        (None, Some(_)) => true,
        (Some(x), Some(y)) => spec_text_lt(x, y),
        _ => false,
    }
}

/// Whether point `a` comes strictly before point `b`: by block, then by
/// lowercased markout time, then by pool name.
pub open spec fn spec_point_lt(
    a: (u64, Seq<char>, Option<Seq<char>>, Option<Seq<char>>, u64),
    b: (u64, Seq<char>, Option<Seq<char>>, Option<Seq<char>>, u64),
) -> bool {
    ||| a.0 < b.0
    ||| a.0 == b.0 && spec_text_lt(spec_lower(a.1), spec_lower(b.1))
    ||| a.0 == b.0 && spec_lower(a.1) == spec_lower(b.1) && spec_opt_text_lt(a.2, b.2)
}

/// Where a stable insertion puts point `x` into `s`: just after the last
/// element that does not come after `x`.
pub open spec fn spec_point_slot(
    s: Seq<(u64, Seq<char>, Option<Seq<char>>, Option<Seq<char>>, u64)>,
    x: (u64, Seq<char>, Option<Seq<char>>, Option<Seq<char>>, u64),
) -> int
    decreases s.len(),
{
    if s.len() == 0 {
        0
    } else if !spec_point_lt(x, s.last()) {
        s.len() as int
    } else {
        spec_point_slot(s.drop_last(), x)
    }
}

/// The points stably sorted by block, lowercased markout time and pool
/// name.
pub open spec fn spec_sort_points(
    s: Seq<(u64, Seq<char>, Option<Seq<char>>, Option<Seq<char>>, u64)>,
) -> Seq<(u64, Seq<char>, Option<Seq<char>>, Option<Seq<char>>, u64)>
    decreases s.len(),
{
    if s.len() == 0 {
        s
    } else {
        let t = spec_sort_points(s.drop_last());
        t.insert(spec_point_slot(t, s.last()), s.last())
    }
}

/// Whether text `a` comes strictly before text `b` (see `spec_text_lt`).
pub(crate) fn text_lt(a: &str, b: &str) -> (r: bool)
    ensures
        r == spec_text_lt(a@, b@),
{
    let x = crate::text::chars_of(a);
    let y = crate::text::chars_of(b);
    let mut i: usize = 0;
    while i < x.len() && i < y.len()
        invariant
            i <= x.len(),
            i <= y.len(),
            x@ == a@,
            y@ == b@,
            spec_text_lt_from(a@, b@, 0) == spec_text_lt_from(a@, b@, i as int),
        decreases x.len() - i,
    {
        let c = x[i];
        let d = y[i];
        if c != d {
            return c < d;
        }
        i = i + 1;
    }
    i < y.len()
}

/// Whether optional text `a` comes strictly before `b` (see
/// `spec_opt_text_lt`).
fn opt_text_lt(a: &Option<String>, b: &Option<String>) -> (r: bool)
    ensures
        r == spec_opt_text_lt(spec_opt_view(*a), spec_opt_view(*b)),
{
    match (a, b) {
        (None, Some(_)) => true,
        (Some(x), Some(y)) => text_lt(x.as_str(), y.as_str()),
        _ => false,
    }
}

/// Whether point `a` comes strictly before point `b` (see `spec_point_lt`).
fn point_lt(a: &RunningTotal, b: &RunningTotal) -> (r: bool)
    ensures
        r == spec_point_lt(a@, b@),
{
    if a.block_number != b.block_number {
        return a.block_number < b.block_number;
    }
    let la = to_lower(a.markout.as_str());
    let lb = to_lower(b.markout.as_str());
    if text_lt(la.as_str(), lb.as_str()) {
        return true;
    }
    if la != lb {
        return false;
    }
    opt_text_lt(&a.pool_name, &b.pool_name)
}

/// The points stably sorted (see `spec_sort_points`).
fn sort_points(v: Vec<RunningTotal>) -> (r: Vec<RunningTotal>)
    ensures
        spec_points_view(r@) == spec_sort_points(spec_points_view(v@)),
{
    let ghost ov = spec_points_view(v@);
    let n = v.len();
    let mut rest = v;
    let mut out: Vec<RunningTotal> = Vec::new();
    let mut i: usize = 0;
    while i < n
        invariant
            i <= n,
            n == ov.len(),
            rest.len() == n - i,
            spec_points_view(rest@) == ov.subrange(i as int, n as int),
            spec_points_view(out@) == spec_sort_points(ov.take(i as int)),
        decreases n - i,
    {
        let ghost os = spec_points_view(out@);
        let ghost old_rest = rest@;
        let x = rest.remove(0);
        proof {
            assert(spec_points_view(old_rest)[0] == old_rest[0]@);
            assert(x@ == ov[i as int]);
            assert forall|q: int| 0 <= q < rest@.len() implies
                #[trigger] spec_points_view(rest@)[q] == ov[i + 1 + q] by {
                assert(rest@[q] == old_rest[q + 1]);
                assert(spec_points_view(old_rest)[q + 1] == old_rest[q + 1]@);
            }
            assert(spec_points_view(rest@) =~= ov.subrange(i + 1, n as int));
        }
        let mut j = out.len();
        let mut moving = true;
        assert(os.take(j as int) =~= os);
        while moving && j > 0
            invariant
                j <= out.len(),
                os == spec_points_view(out@),
                spec_point_slot(os, x@) == spec_point_slot(os.take(j as int), x@),
                !moving ==> j > 0 && !spec_point_lt(x@, os[j - 1]),
            decreases j + (if moving { 1int } else { 0int }),
        {
            assert(os[j - 1] == out@[j - 1]@);
            if point_lt(&x, &out[j - 1]) {
                assert(os.take(j as int).drop_last() =~= os.take(j - 1));
                j = j - 1;
            } else {
                moving = false;
            }
        }
        proof {
            if j > 0 {
                assert(os.take(j as int).last() == os[j - 1]);
            }
            assert(spec_point_slot(os, x@) == j);
            assert(ov.take(i + 1).drop_last() =~= ov.take(i as int));
            assert(ov.take(i + 1).last() == ov[i as int]);
        }
        out.insert(j, x);
        proof {
            assert(spec_points_view(out@) =~= os.insert(j as int, x@));
        }
        i = i + 1;
    }
    assert(ov.take(n as int) =~= ov);
    out
}

/// The first index, from `i` on, of the entry for `key` in an association
/// list.
pub open spec fn spec_assoc_find(l: Seq<(Seq<char>, u64)>, key: Seq<char>, i: int) -> Option<int>
    decreases l.len() - i,
{
    if i < 0 || i >= l.len() {
        None
    } else if l[i].0 == key {
        Some(i)
    } else {
        spec_assoc_find(l, key, i + 1)
    }
}

/// A found entry holds its key and lies in the list.
pub(crate) proof fn lemma_assoc_found(l: Seq<(Seq<char>, u64)>, key: Seq<char>, i: int, j: int)
    requires
        spec_assoc_find(l, key, i) == Some(j),
    ensures
        i <= j < l.len(),
        l[j].0 == key,
    decreases l.len() - i,
{
    if i >= 0 && i < l.len() && l[i].0 != key {
        lemma_assoc_found(l, key, i + 1, j);
    }
}

/// The running value of `key` after adding `add` to it, saturating; `add`
/// itself where `key` has none yet.
pub open spec fn spec_running_value(l: Seq<(Seq<char>, u64)>, key: Seq<char>, add: u64) -> u64 {
    match spec_assoc_find(l, key, 0) {
        Some(j) => spec_sat_add(l[j].1, add),
        None => add,
    }
}

/// The association list with `key` set to `v`.
pub open spec fn spec_assoc_put(l: Seq<(Seq<char>, u64)>, key: Seq<char>, v: u64) -> Seq<(Seq<char>, u64)> {
    match spec_assoc_find(l, key, 0) {
        Some(j) => l.update(j, (key, v)),
        None => l.push((key, v)),
    }
}

/// The block of an interval total: its interval's first block (see
/// `spec_interval_block`).
pub open spec fn spec_total_block(e: (u64, u64, Seq<char>, Option<Seq<char>>, u64, Seq<char>)) -> int {
    spec_interval_block(e.0 as int, e.1 as int, e.5)
}

/// One step of the running totals over the sorted interval totals. A total
/// whose block lies outside `[start, end]` changes nothing. Otherwise its
/// LVR is added, saturating, to the running value of its markout time
/// (when pools are aggregated) or of its markout time and pool name
/// (joined by `_`; a total without a pool then changes nothing), and a
/// point is emitted unless the last point has the same markout time, pool
/// name and value.
pub open spec fn spec_running_step(
    st: (Seq<(Seq<char>, u64)>, Seq<(u64, Seq<char>, Option<Seq<char>>, Option<Seq<char>>, u64)>),
    e: (u64, u64, Seq<char>, Option<Seq<char>>, u64, Seq<char>),
    start: u64,
    end: u64,
    agg: bool,
) -> (Seq<(Seq<char>, u64)>, Seq<(u64, Seq<char>, Option<Seq<char>>, Option<Seq<char>>, u64)>) {
    let block = spec_total_block(e);
    if !(start <= block && block <= end) {
        st
    } else if agg {
        let cur = spec_running_value(st.0, e.2, e.4);
        let same = st.1.len() > 0 && st.1.last().1 == e.2 && st.1.last().4 == cur;
        (
            spec_assoc_put(st.0, e.2, cur),
            if same { st.1 } else { st.1.push((block as u64, e.2, None, None, cur)) },
        )
    } else {
        match e.3 {
            None => st,
            Some(pa) => {
                let name = spec_pool_name(pa);
                let key = e.2 + seq!['_'] + name;
                let cur = spec_running_value(st.0, key, e.4);
                let same = st.1.len() > 0 && st.1.last().1 == e.2 && st.1.last().2 == Some(name)
                    && st.1.last().4 == cur;
                (
                    spec_assoc_put(st.0, key, cur),
                    if same { st.1 } else { st.1.push((block as u64, e.2, Some(name), Some(pa), cur)) },
                )
            },
        }
    }
}

/// The running values and points after the given interval totals, taken in
/// order.
pub open spec fn spec_running(
    s: Seq<(u64, u64, Seq<char>, Option<Seq<char>>, u64, Seq<char>)>,
    start: u64,
    end: u64,
    agg: bool,
) -> (Seq<(Seq<char>, u64)>, Seq<(u64, Seq<char>, Option<Seq<char>>, Option<Seq<char>>, u64)>)
    decreases s.len(),
{
    if s.len() == 0 {
        (Seq::empty(), Seq::empty())
    } else {
        spec_running_step(spec_running(s.drop_last(), start, end, agg), s.last(), start, end, agg)
    }
}

/// The points of a running-total request built from its interval totals:
/// the totals in block order, accumulated, then sorted by block,
/// lowercased markout time and pool name.
pub open spec fn spec_process(
    s: Seq<(u64, u64, Seq<char>, Option<Seq<char>>, u64, Seq<char>)>,
    start: u64,
    end: u64,
    agg: bool,
) -> Seq<(u64, Seq<char>, Option<Seq<char>>, Option<Seq<char>>, u64)> {
    spec_sort_points(spec_running(spec_sort_by_block(s), start, end, agg).1)
}

/// The views of an association list of texts.
pub open spec fn spec_assoc_view(l: Seq<(String, u64)>) -> Seq<(Seq<char>, u64)> {
    l.map_values(|p: (String, u64)| (p.0@, p.1))
}

/// The index of the entry for `key`, if any (see `spec_assoc_find`).
pub(crate) fn assoc_find(l: &Vec<(String, u64)>, key: &String) -> (r: Option<usize>)
    ensures
        match r {
            Some(j) => j < l.len() && spec_assoc_find(spec_assoc_view(l@), key@, 0) == Some(j as int),
            None => spec_assoc_find(spec_assoc_view(l@), key@, 0) is None,
        },
{
    let ghost v = spec_assoc_view(l@);
    let mut j: usize = 0;
    while j < l.len()
        invariant
            j <= l.len(),
            v == spec_assoc_view(l@),
            v.len() == l.len(),
            spec_assoc_find(v, key@, 0) == spec_assoc_find(v, key@, j as int),
        decreases l.len() - j,
    {
        assert(v[j as int] == (l@[j as int].0@, l@[j as int].1));
        if l[j].0 == *key {
            return Some(j);
        }
        j = j + 1;
    }
    None
}

/// Adds `add` to the running value of `key`, saturating, and returns the new
/// value (see `spec_running_value` and `spec_assoc_put`).
fn bump(l: &mut Vec<(String, u64)>, key: String, add: u64) -> (r: u64)
    ensures
        r == spec_running_value(spec_assoc_view(old(l)@), key@, add),
        spec_assoc_view(final(l)@) == spec_assoc_put(spec_assoc_view(old(l)@), key@, r),
{
    let ghost before = spec_assoc_view(l@);
    match assoc_find(l, &key) {
        Some(j) => {
            let v = l[j].1.saturating_add(add);
            assert(before[j as int] == (l@[j as int].0@, l@[j as int].1));
            l[j].1 = v;
            proof {
                lemma_assoc_found(before, key@, 0, j as int);
                assert(before[j as int].0 == key@);
                assert(spec_assoc_view(l@) =~= before.update(j as int, (key@, v)));
            }
            v
        },
        None => {
            let ghost kv = key@;
            l.push((key, add));
            proof {
                assert(spec_assoc_view(l@) =~= before.push((kv, add)));
            }
            add
        },
    }
}

/// Sets the value of `key` (see `spec_assoc_put`).
pub(crate) fn assoc_put(l: &mut Vec<(String, u64)>, key: String, v: u64)
    ensures
        spec_assoc_view(final(l)@) == spec_assoc_put(spec_assoc_view(old(l)@), key@, v),
{
    let ghost before = spec_assoc_view(l@);
    match assoc_find(l, &key) {
        Some(j) => {
            proof {
                lemma_assoc_found(before, key@, 0, j as int);
            }
            let ghost kv = key@;
            l.set(j, (key, v));
            proof {
                assert(spec_assoc_view(l@) =~= before.update(j as int, (kv, v)));
            }
        },
        None => {
            let ghost kv = key@;
            l.push((key, v));
            proof {
                assert(spec_assoc_view(l@) =~= before.push((kv, v)));
            }
        },
    }
}

/// Joins a markout time and a pool name with `_`.
fn join_key(markout: &String, name: &String) -> (r: String)
    ensures
        r@ == markout@ + seq!['_'] + name@,
{
    let a = crate::text::chars_of(markout.as_str());
    let b = crate::text::chars_of(name.as_str());
    let mut cs: Vec<char> = Vec::new();
    let mut i: usize = 0;
    while i < a.len()
        invariant
            i <= a.len(),
            a@ == markout@,
            cs@ == a@.take(i as int),
        decreases a.len() - i,
    {
        cs.push(a[i]);
        assert(a@.take(i + 1) =~= a@.take(i as int).push(a@[i as int]));
        i = i + 1;
    }
    cs.push('_');
    let mut k: usize = 0;
    assert(a@.take(a.len() as int) =~= a@);
    while k < b.len()
        invariant
            k <= b.len(),
            b@ == name@,
            cs@ == markout@ + seq!['_'] + b@.take(k as int),
        decreases b.len() - k,
    {
        cs.push(b[k]);
        assert(b@.take(k + 1) =~= b@.take(k as int).push(b@[k as int]));
        assert(markout@ + seq!['_'] + b@.take(k + 1) =~= (markout@ + seq!['_'] + b@.take(k as int)).push(b@[k as int]));
        k = k + 1;
    }
    assert(b@.take(b.len() as int) =~= b@);
    crate::text::string_of(&cs)
}

/// The running-total points over interval totals taken in the given order
/// (see `spec_running`).
fn accumulate(sorted: &Vec<IntervalTotal>, start_block: u64, end_block: u64, aggregate: bool) -> (r: Vec<RunningTotal>)
    requires
        forall|k: int| 0 <= k < sorted.len() ==> spec_total_block(#[trigger] sorted@[k]@) <= u64::MAX,
    ensures
        spec_points_view(r@) == spec_running(spec_totals_view(sorted@), start_block, end_block, aggregate).1,
{
    let ghost sv = spec_totals_view(sorted@);
    let mut totals: Vec<(String, u64)> = Vec::new();
    let mut out: Vec<RunningTotal> = Vec::new();
    let mut i: usize = 0;
    while i < sorted.len()
        invariant
            i <= sorted.len(),
            sv == spec_totals_view(sorted@),
            forall|k: int| 0 <= k < sorted.len() ==> spec_total_block(#[trigger] sorted@[k]@) <= u64::MAX,
            (spec_assoc_view(totals@), spec_points_view(out@))
                == spec_running(sv.take(i as int), start_block, end_block, aggregate),
        decreases sorted.len() - i,
    {
        let e = &sorted[i];
        let ghost st = (spec_assoc_view(totals@), spec_points_view(out@));
        let ghost ov = spec_points_view(out@);
        proof {
            assert(sv[i as int] == e@);
            assert(sv.take(i + 1).drop_last() =~= sv.take(i as int));
            assert(sv.take(i + 1).last() == e@);
            assert(spec_total_block(sorted@[i as int]@) <= u64::MAX);
        }
        let block = interval_block(e.file_start, e.interval_id, e.data.file_path.as_str());
        if start_block <= block && block <= end_block {
            if aggregate {
                let cur = bump(&mut totals, e.markout.clone(), e.data.total);
                let n = out.len();
                let same = n > 0 && out[n - 1].markout == e.markout && out[n - 1].running_total_cents == cur;
                proof {
                    if n > 0 {
                        assert(ov.last() == out@[n - 1]@);
                    }
                }
                if !same {
                    let pt = RunningTotal {
                        block_number: block,
                        markout: e.markout.clone(),
                        pool_name: None,
                        pool_address: None,
                        running_total_cents: cur,
                    };
                    out.push(pt);
                    proof {
                        assert(spec_points_view(out@) =~= ov.push(pt@));
                    }
                }
            } else {
                match &e.pool_address {
                    None => {},
                    Some(pa) => {
                        let name = get_pool_name(pa.as_str());
                        let key = join_key(&e.markout, &name);
                        let cur = bump(&mut totals, key, e.data.total);
                        let n = out.len();
                        let same_name = n > 0 && match &out[n - 1].pool_name {
                            Some(x) => *x == name,
                            None => false,
                        };
                        let same = n > 0 && out[n - 1].markout == e.markout && same_name
                            && out[n - 1].running_total_cents == cur;
                        proof {
                            if n > 0 {
                                assert(ov.last() == out@[n - 1]@);
                            }
                        }
                        if !same {
                            let pt = RunningTotal {
                                block_number: block,
                                markout: e.markout.clone(),
                                pool_name: Some(name),
                                pool_address: Some(pa.clone()),
                                running_total_cents: cur,
                            };
                            out.push(pt);
                            proof {
                                assert(spec_points_view(out@) =~= ov.push(pt@));
                            }
                        }
                    },
                }
            }
        }
        i = i + 1;
    }
    assert(sv.take(sorted.len() as int) =~= sv);
    out
}

/// Every element of the block-sorted totals comes from the input, and the
/// lengths agree.
pub(crate) proof fn lemma_sort_by_block_members(s: Seq<(u64, u64, Seq<char>, Option<Seq<char>>, u64, Seq<char>)>)
    ensures
        spec_sort_by_block(s).len() == s.len(),
        forall|k: int| 0 <= k < s.len() ==> s.contains(#[trigger] spec_sort_by_block(s)[k]),
    decreases s.len(),
{
    if s.len() > 0 {
        let d = s.drop_last();
        lemma_sort_by_block_members(d);
        let t = spec_sort_by_block(d);
        let p = spec_block_slot(t, s.last());
        lemma_block_slot_bounds(t, s.last());
        t.insert_ensures(p, s.last());
        assert forall|k: int| 0 <= k < s.len() implies s.contains(#[trigger] spec_sort_by_block(s)[k]) by {
            let r = spec_sort_by_block(s);
            if k < p {
                assert(r[k] == t[k]);
                assert(d.contains(t[k]));
                let w = choose|w: int| 0 <= w < d.len() && d[w] == t[k];
                assert(s[w] == d[w]);
            } else if k == p {
                assert(r[k] == s[s.len() - 1]);
            } else {
                assert(r[k] == t[k - 1]);
                assert(d.contains(t[k - 1]));
                let w = choose|w: int| 0 <= w < d.len() && d[w] == t[k - 1];
                assert(s[w] == d[w]);
            }
        }
    }
}

/// The running-total points built from interval totals (see
/// `spec_process`): the totals stably sorted by block key, accumulated, and
/// the points sorted by block, lowercased markout time and pool name.
pub fn process_interval_totals(
    interval_totals: Vec<IntervalTotal>,
    start_block: u64,
    end_block: u64,
    is_aggregate: bool,
) -> (r: Vec<RunningTotal>)
    requires
        forall|k: int| 0 <= k < interval_totals.len()
            ==> spec_total_block(#[trigger] interval_totals@[k]@) <= u64::MAX,
    ensures
        spec_points_view(r@) == spec_process(spec_totals_view(interval_totals@), start_block, end_block, is_aggregate),
{
    let ghost iv = spec_totals_view(interval_totals@);
    proof {
        assert forall|k: int| 0 <= k < iv.len() implies spec_total_block(#[trigger] iv[k]) <= u64::MAX by {
            assert(iv[k] == interval_totals@[k]@);
        }
    }
    let sorted = sort_by_block(interval_totals);
    proof {
        lemma_sort_by_block_members(iv);
        assert forall|k: int| 0 <= k < sorted.len() implies spec_total_block(#[trigger] sorted@[k]@) <= u64::MAX by {
            let sv = spec_totals_view(sorted@);
            assert(sv[k] == sorted@[k]@);
            assert(iv.contains(sv[k]));
        }
    }
    let points = accumulate(&sorted, start_block, end_block, is_aggregate);
    sort_points(points)
}

/// The first block a request covers: the one it names, or the merge block.
pub open spec fn spec_query_start(q: TimeRangeQuery) -> u64 {
    match q.start_block {
        Some(b) => b,
        None => MERGE_BLOCK,
    }
}

/// The last block a request covers: the one it names, or block 20,000,000.
pub open spec fn spec_query_end(q: TimeRangeQuery) -> u64 {
    match q.end_block {
        Some(b) => b,
        None => DEFAULT_END_BLOCK,
    }
}

/// Whether a request sums all pools together (not unless it says so).
pub open spec fn spec_query_aggregate(q: TimeRangeQuery) -> bool {
    match q.aggregate {
        Some(b) => b,
        None => false,
    }
}

/// Whether a running-total request is refused: one per pool must name a
/// tracked pool.
pub open spec fn spec_query_refused(q: TimeRangeQuery) -> bool {
    !spec_query_aggregate(q) && match q.pool {
        Some(p) => !spec_is_valid_pool(p@),
        None => true,
    }
}

/// Whether an interval row that passes the request's tests has a block
/// number that fits in 64 bits.
pub open spec fn spec_row_fits(q: TimeRangeQuery, r: IntervalRow) -> bool {
    spec_row_passes(r, spec_query_start(q), spec_query_end(q), spec_query_aggregate(q),
        spec_opt_view(q.pool), spec_opt_view(q.markout_time))
        ==> spec_block_number(spec_query_start(q), r.interval_id, r.file_path@) <= u64::MAX
}

/// The points of one requested pool: those whose pool address, lowercased,
/// is the request's pool lowercased.
pub open spec fn spec_keep_pool(
    s: Seq<(u64, Seq<char>, Option<Seq<char>>, Option<Seq<char>>, u64)>,
    pool: Seq<char>,
) -> Seq<(u64, Seq<char>, Option<Seq<char>>, Option<Seq<char>>, u64)>
    decreases s.len(),
{
    if s.len() == 0 {
        s
    } else {
        let prev = spec_keep_pool(s.drop_last(), pool);
        match s.last().3 {
            Some(a) => if spec_lower(pool) == spec_lower(a) { prev.push(s.last()) } else { prev },
            None => prev,
        }
    }
}

/// The points answering a running-total request that is not refused: the
/// interval totals of the selected rows, accumulated in block order and
/// sorted, and, unless pools are aggregated, only those of the requested
/// pool.
pub open spec fn spec_running_total(
    q: TimeRangeQuery,
    rows: Seq<IntervalRow>,
) -> Seq<(u64, Seq<char>, Option<Seq<char>>, Option<Seq<char>>, u64)> {
    let start = spec_query_start(q);
    let end = spec_query_end(q);
    let agg = spec_query_aggregate(q);
    let es = spec_collect(rows, start, end, agg, spec_opt_view(q.pool), spec_opt_view(q.markout_time));
    let points = spec_process(es, start, end, agg);
    if agg {
        points
    } else {
        spec_keep_pool(points, q.pool.unwrap()@)
    }
}

/// Every collected total lies in a block no later than `end`.
proof fn lemma_collect_blocks(
    rows: Seq<IntervalRow>,
    start: u64,
    end: u64,
    agg: bool,
    pool: Option<Seq<char>>,
    markout: Option<Seq<char>>,
)
    ensures
        forall|k: int| 0 <= k < spec_collect(rows, start, end, agg, pool, markout).len()
            ==> spec_total_block(#[trigger] spec_collect(rows, start, end, agg, pool, markout)[k]) <= end,
    decreases rows.len(),
{
    if rows.len() > 0 {
        let d = rows.drop_last();
        lemma_collect_blocks(d, start, end, agg, pool, markout);
        let prev = spec_collect(d, start, end, agg, pool, markout);
        let r = rows.last();
        if spec_row_selected(r, start, end, agg, pool, markout) {
            let key = spec_row_key(r, start, agg);
            match spec_find_total(prev, key, 0) {
                Some(i) => {
                    lemma_total_found(prev, key, 0, i);
                },
                None => {},
            }
        }
    }
}

/// A found total lies in the list.
proof fn lemma_total_found(
    es: Seq<(u64, u64, Seq<char>, Option<Seq<char>>, u64, Seq<char>)>,
    key: (u64, u64, Seq<char>, Option<Seq<char>>),
    i: int,
    j: int,
)
    requires
        spec_find_total(es, key, i) == Some(j),
    ensures
        i <= j < es.len(),
    decreases es.len() - i,
{
    if i >= 0 && i < es.len() && !(es[i].0 == key.0 && es[i].1 == key.1 && es[i].2 == key.2 && es[i].3 == key.3) {
        lemma_total_found(es, key, i + 1, j);
    }
}

/// The points of one requested pool (see `spec_keep_pool`).
fn keep_pool(points: Vec<RunningTotal>, pool: &String) -> (r: Vec<RunningTotal>)
    ensures
        spec_points_view(r@) == spec_keep_pool(spec_points_view(points@), pool@),
{
    let ghost pv = spec_points_view(points@);
    let wanted = to_lower(pool.as_str());
    let n = points.len();
    let mut rest = points;
    let mut out: Vec<RunningTotal> = Vec::new();
    let mut i: usize = 0;
    while i < n
        invariant
            i <= n,
            n == pv.len(),
            wanted@ == spec_lower(pool@),
            rest.len() == n - i,
            spec_points_view(rest@) == pv.subrange(i as int, n as int),
            spec_points_view(out@) == spec_keep_pool(pv.take(i as int), pool@),
        decreases n - i,
    {
        let ghost old_rest = rest@;
        let ghost ov = spec_points_view(out@);
        let x = rest.remove(0);
        proof {
            assert(spec_points_view(old_rest)[0] == old_rest[0]@);
            assert(x@ == pv[i as int]);
            assert forall|q: int| 0 <= q < rest@.len() implies
                #[trigger] spec_points_view(rest@)[q] == pv[i + 1 + q] by {
                assert(rest@[q] == old_rest[q + 1]);
                assert(spec_points_view(old_rest)[q + 1] == old_rest[q + 1]@);
            }
            assert(spec_points_view(rest@) =~= pv.subrange(i + 1, n as int));
            assert(pv.take(i + 1).drop_last() =~= pv.take(i as int));
            assert(pv.take(i + 1).last() == pv[i as int]);
        }
        let keep = match &x.pool_address {
            Some(a) => to_lower(a.as_str()) == wanted,
            None => false,
        };
        if keep {
            out.push(x);
            proof {
                assert(spec_points_view(out@) =~= ov.push(x@));
            }
        }
        i = i + 1;
    }
    assert(pv.take(n as int) =~= pv);
    out
}

/// Whether a running-total request is refused (see `spec_query_refused`):
/// it asks for one pool without naming a tracked pool.
pub fn query_refused(query: &TimeRangeQuery) -> (r: bool)
    ensures
        r == spec_query_refused(*query),
{
    let is_aggregate = match query.aggregate {
        Some(b) => b,
        None => false,
    };
    if is_aggregate {
        return false;
    }
    match &query.pool {
        Some(p) => !is_valid_pool(p.as_str()),
        None => true,
    }
}

/// Whether an interval row that passes a request's tests has a block number
/// that fits in 64 bits (see `spec_row_fits`).
pub fn row_fits(query: &TimeRangeQuery, r: &IntervalRow) -> (b: bool)
    ensures
        b == spec_row_fits(*query, *r),
{
    let start_block = match query.start_block {
        Some(b) => b,
        None => MERGE_BLOCK,
    };
    let end_block = match query.end_block {
        Some(b) => b,
        None => DEFAULT_END_BLOCK,
    };
    let is_aggregate = match query.aggregate {
        Some(b) => b,
        None => false,
    };
    !row_passes(r, start_block, end_block, is_aggregate, &query.pool, &query.markout_time)
        || block_number_fits(start_block, r.interval_id, r.file_path.as_str())
}

/// The running totals a request asks for, from the rows of the interval
/// files. A request for one pool that names no tracked pool is refused;
/// otherwise the answer is `spec_running_total`.
pub fn get_running_total(query: &TimeRangeQuery, rows: &Vec<IntervalRow>) -> (r: Result<Vec<RunningTotal>, ApiError>)
    requires
        !spec_query_refused(*query) ==> forall|i: int| 0 <= i < rows.len() ==> spec_row_fits(*query, #[trigger] rows@[i]),
    ensures
        spec_query_refused(*query) <==> r is Err,
        r matches Err(e) ==> e == ApiError::BadRequest,
        r matches Ok(v) ==> spec_points_view(v@) == spec_running_total(*query, rows@),
{
    let start_block = match query.start_block {
        Some(b) => b,
        None => MERGE_BLOCK,
    };
    let end_block = match query.end_block {
        Some(b) => b,
        None => DEFAULT_END_BLOCK,
    };
    let is_aggregate = match query.aggregate {
        Some(b) => b,
        None => false,
    };
    if !is_aggregate {
        match &query.pool {
            Some(p) => {
                if !is_valid_pool(p.as_str()) {
                    return Err(ApiError::BadRequest);
                }
            },
            None => {
                return Err(ApiError::BadRequest);
            },
        }
    }
    proof {
        assert forall|i: int| 0 <= i < rows.len() && spec_row_passes(#[trigger] rows@[i], start_block, end_block,
            is_aggregate, spec_opt_view(query.pool), spec_opt_view(query.markout_time))
            implies spec_block_number(start_block, rows@[i].interval_id, rows@[i].file_path@) <= u64::MAX by {
            assert(spec_row_fits(*query, rows@[i]));
        }
    }
    let totals = collect_interval_totals(rows, start_block, end_block, is_aggregate, &query.pool, &query.markout_time);
    proof {
        lemma_collect_blocks(rows@, start_block, end_block, is_aggregate, spec_opt_view(query.pool),
            spec_opt_view(query.markout_time));
        assert forall|k: int| 0 <= k < totals.len() implies spec_total_block(#[trigger] totals@[k]@) <= u64::MAX by {
            assert(spec_totals_view(totals@)[k] == totals@[k]@);
        }
    }
    let points = process_interval_totals(totals, start_block, end_block, is_aggregate);
    if is_aggregate {
        Ok(points)
    } else {
        match &query.pool {
            Some(p) => Ok(keep_pool(points, p)),
            None => Ok(points),
        }
    }
}

/// The running totals a request asks for, from the rows of the interval
/// files, refusing the request first: `Err(BadRequest)` when it is refused,
/// `None` when a row it selects has a block number beyond 64 bits, the
/// answer of `get_running_total` otherwise.
pub fn get_running_total_checked(query: &TimeRangeQuery, rows: &Vec<IntervalRow>) -> (r: Option<Result<Vec<RunningTotal>, ApiError>>)
    ensures
        spec_query_refused(*query) ==> r == Some(Err::<Vec<RunningTotal>, ApiError>(ApiError::BadRequest)),
        !spec_query_refused(*query) ==> {
            &&& (r is None <==> exists|i: int| 0 <= i < rows.len() && !spec_row_fits(*query, #[trigger] rows@[i]))
            &&& (r matches Some(x) ==> x matches Ok(v) && spec_points_view(v@) == spec_running_total(*query, rows@))
        },
{
    if query_refused(query) {
        return Some(Err(ApiError::BadRequest));
    }
    let mut i: usize = 0;
    while i < rows.len()
        invariant
            i <= rows.len(),
            !spec_query_refused(*query),
            forall|k: int| 0 <= k < i ==> spec_row_fits(*query, #[trigger] rows@[k]),
        decreases rows.len() - i,
    {
        if !row_fits(query, &rows[i]) {
            return None;
        }
        i = i + 1;
    }
    Some(get_running_total(query, rows))
}

/// Text order is asymmetric.
proof fn lemma_text_lt_asym(a: Seq<char>, b: Seq<char>, i: int)
    requires
        spec_text_lt_from(a, b, i),
    ensures
        !spec_text_lt_from(b, a, i),
    decreases a.len() - i,
{
    if 0 <= i < a.len() && i < b.len() && a[i] == b[i] {
        lemma_text_lt_asym(a, b, i + 1);
    }
}

/// Texts neither of which comes before the other agree from index `i` on.
proof fn lemma_text_lt_total(a: Seq<char>, b: Seq<char>, i: int)
    requires
        0 <= i <= a.len(),
        i <= b.len(),
        !spec_text_lt_from(a, b, i),
        !spec_text_lt_from(b, a, i),
    ensures
        a.len() == b.len(),
        forall|k: int| i <= k < a.len() ==> a[k] == b[k],
    decreases a.len() - i,
{
    if i < a.len() && i < b.len() {
        if a[i] == b[i] {
            lemma_text_lt_total(a, b, i + 1);
        }
    }
}

/// If `x` comes before `z`, then `x` comes before `y` or `y` before `z`.
proof fn lemma_text_lt_split(x: Seq<char>, y: Seq<char>, z: Seq<char>, i: int)
    requires
        0 <= i,
        spec_text_lt_from(x, z, i),
    ensures
        spec_text_lt_from(x, y, i) || spec_text_lt_from(y, z, i),
    decreases x.len() - i,
{
    if i < x.len() && i < y.len() && i < z.len() && x[i] == z[i] && y[i] == x[i] {
        lemma_text_lt_split(x, y, z, i + 1);
    }
}

/// Optional text order is asymmetric.
proof fn lemma_opt_text_lt_asym(a: Option<Seq<char>>, b: Option<Seq<char>>)
    requires
        spec_opt_text_lt(a, b),
    ensures
        !spec_opt_text_lt(b, a),
{
    match (a, b) {
        (Some(x), Some(y)) => lemma_text_lt_asym(x, y, 0),
        _ => {},
    }
}

/// If `x` comes before `z`, then `x` comes before `y` or `y` before `z`.
proof fn lemma_opt_text_lt_split(x: Option<Seq<char>>, y: Option<Seq<char>>, z: Option<Seq<char>>)
    requires
        spec_opt_text_lt(x, z),
    ensures
        spec_opt_text_lt(x, y) || spec_opt_text_lt(y, z),
{
    match (x, y, z) {
        (Some(a), Some(b), Some(c)) => lemma_text_lt_split(a, b, c, 0),
        _ => {},
    }
}

/// Point order is asymmetric.
proof fn lemma_point_lt_asym(
    a: (u64, Seq<char>, Option<Seq<char>>, Option<Seq<char>>, u64),
    b: (u64, Seq<char>, Option<Seq<char>>, Option<Seq<char>>, u64),
)
    requires
        spec_point_lt(a, b),
    ensures
        !spec_point_lt(b, a),
{
    let la = spec_lower(a.1);
    let lb = spec_lower(b.1);
    if a.0 == b.0 {
        if spec_text_lt(la, lb) {
            lemma_text_lt_asym(la, lb, 0);
        } else {
            assert(la == lb);
            lemma_opt_text_lt_asym(a.2, b.2);
            if spec_text_lt(lb, la) {
                lemma_text_lt_asym(lb, la, 0);
            }
        }
    }
}

/// If point `x` comes before `z`, then `x` comes before `y` or `y` before
/// `z`.
proof fn lemma_point_lt_split(
    x: (u64, Seq<char>, Option<Seq<char>>, Option<Seq<char>>, u64),
    y: (u64, Seq<char>, Option<Seq<char>>, Option<Seq<char>>, u64),
    z: (u64, Seq<char>, Option<Seq<char>>, Option<Seq<char>>, u64),
)
    requires
        spec_point_lt(x, z),
    ensures
        spec_point_lt(x, y) || spec_point_lt(y, z),
{
    let lx = spec_lower(x.1);
    let ly = spec_lower(y.1);
    let lz = spec_lower(z.1);
    if x.0 == z.0 && y.0 == x.0 {
        if spec_text_lt(lx, lz) {
            lemma_text_lt_split(lx, ly, lz, 0);
        } else {
            assert(lx == lz);
            if !spec_text_lt(lx, ly) && !spec_text_lt(ly, lx) {
                lemma_text_lt_total(lx, ly, 0);
                assert(lx =~= ly);
                lemma_opt_text_lt_split(x.2, y.2, z.2);
            }
        }
    }
}

/// Where a stable insertion puts `x`: every element from the slot on comes
/// after `x`, and the element just before it does not.
pub(crate) proof fn lemma_point_slot(
    s: Seq<(u64, Seq<char>, Option<Seq<char>>, Option<Seq<char>>, u64)>,
    x: (u64, Seq<char>, Option<Seq<char>>, Option<Seq<char>>, u64),
)
    ensures
        0 <= spec_point_slot(s, x) <= s.len(),
        forall|q: int| spec_point_slot(s, x) <= q < s.len() ==> spec_point_lt(x, #[trigger] s[q]),
        spec_point_slot(s, x) > 0 ==> !spec_point_lt(x, s[spec_point_slot(s, x) - 1]),
    decreases s.len(),
{
    if s.len() > 0 && spec_point_lt(x, s.last()) {
        let d = s.drop_last();
        lemma_point_slot(d, x);
        assert forall|q: int| spec_point_slot(s, x) <= q < s.len() implies spec_point_lt(x, #[trigger] s[q]) by {
            if q < d.len() {
                assert(s[q] == d[q]);
            }
        }
        if spec_point_slot(d, x) > 0 {
            assert(s[spec_point_slot(d, x) - 1] == d[spec_point_slot(d, x) - 1]);
        }
    }
}

/// Whether no point comes after one it should precede.
pub open spec fn spec_points_ordered(s: Seq<(u64, Seq<char>, Option<Seq<char>>, Option<Seq<char>>, u64)>) -> bool {
    forall|i: int, j: int| 0 <= i < j < s.len() ==> !spec_point_lt(#[trigger] s[j], #[trigger] s[i])
}

/// Sorted points are ordered by block, lowercased markout time and pool
/// name.
proof fn lemma_sort_points_ordered(s: Seq<(u64, Seq<char>, Option<Seq<char>>, Option<Seq<char>>, u64)>)
    ensures
        spec_points_ordered(spec_sort_points(s)),
        spec_sort_points(s).len() == s.len(),
    decreases s.len(),
{
    if s.len() > 0 {
        let t = spec_sort_points(s.drop_last());
        let x = s.last();
        lemma_sort_points_ordered(s.drop_last());
        lemma_point_slot(t, x);
        let p = spec_point_slot(t, x);
        t.insert_ensures(p, x);
        let r = spec_sort_points(s);
        assert(r == t.insert(p, x));
        assert forall|i: int, j: int| 0 <= i < j < r.len() implies !spec_point_lt(#[trigger] r[j], #[trigger] r[i]) by {
            if j < p {
                assert(r[i] == t[i] && r[j] == t[j]);
            } else if j == p {
                assert(r[i] == t[i]);
                if i < p - 1 {
                    assert(!spec_point_lt(t[p - 1], t[i]));
                    if spec_point_lt(x, t[i]) {
                        lemma_point_lt_split(x, t[p - 1], t[i]);
                    }
                }
            } else if i < p {
                assert(r[i] == t[i] && r[j] == t[j - 1]);
            } else if i == p {
                assert(r[j] == t[j - 1]);
                assert(spec_point_lt(x, t[j - 1]));
                lemma_point_lt_asym(x, t[j - 1]);
            } else {
                assert(r[i] == t[i - 1] && r[j] == t[j - 1]);
            }
        }
    }
}

/// The points one pool keeps come from the points.
proof fn lemma_keep_pool_members(
    s: Seq<(u64, Seq<char>, Option<Seq<char>>, Option<Seq<char>>, u64)>,
    pool: Seq<char>,
)
    ensures
        forall|k: int| 0 <= k < spec_keep_pool(s, pool).len() ==> s.contains(#[trigger] spec_keep_pool(s, pool)[k]),
    decreases s.len(),
{
    if s.len() > 0 {
        let d = s.drop_last();
        lemma_keep_pool_members(d, pool);
        let kd = spec_keep_pool(d, pool);
        assert forall|k: int| 0 <= k < spec_keep_pool(s, pool).len() implies s.contains(#[trigger] spec_keep_pool(s, pool)[k]) by {
            if k < kd.len() {
                assert(spec_keep_pool(s, pool)[k] == kd[k]);
                assert(d.contains(kd[k]));
                let w = choose|w: int| 0 <= w < d.len() && d[w] == kd[k];
                assert(s[w] == d[w]);
            } else {
                assert(spec_keep_pool(s, pool)[k] == s[s.len() - 1]);
            }
        }
    }
}

/// Keeping one pool's points keeps them ordered.
proof fn lemma_keep_pool_ordered(
    s: Seq<(u64, Seq<char>, Option<Seq<char>>, Option<Seq<char>>, u64)>,
    pool: Seq<char>,
)
    requires
        spec_points_ordered(s),
    ensures
        spec_points_ordered(spec_keep_pool(s, pool)),
    decreases s.len(),
{
    if s.len() > 0 {
        let d = s.drop_last();
        let x = s.last();
        assert(spec_points_ordered(d)) by {
            assert forall|i: int, j: int| 0 <= i < j < d.len() implies !spec_point_lt(#[trigger] d[j], #[trigger] d[i]) by {
                assert(d[i] == s[i] && d[j] == s[j]);
            }
        }
        lemma_keep_pool_ordered(d, pool);
        lemma_keep_pool_members(d, pool);
        let kd = spec_keep_pool(d, pool);
        let r = spec_keep_pool(s, pool);
        assert forall|i: int, j: int| 0 <= i < j < r.len() implies !spec_point_lt(#[trigger] r[j], #[trigger] r[i]) by {
            if j < kd.len() {
                assert(r[i] == kd[i] && r[j] == kd[j]);
            } else {
                assert(r[j] == x);
                assert(r[i] == kd[i]);
                assert(d.contains(kd[i]));
                let w = choose|w: int| 0 <= w < d.len() && d[w] == kd[i];
                assert(s[w] == d[w]);
                assert(s[s.len() - 1] == x);
            }
        }
    }
}

/// The running totals a request gets come ordered by block, then by
/// lowercased markout time, then by pool name: no point comes after one it
/// should precede.
pub proof fn lemma_running_total_ordered(q: TimeRangeQuery, rows: Seq<IntervalRow>)
    ensures
        spec_points_ordered(spec_running_total(q, rows)),
{
    let start = spec_query_start(q);
    let end = spec_query_end(q);
    let agg = spec_query_aggregate(q);
    let es = spec_collect(rows, start, end, agg, spec_opt_view(q.pool), spec_opt_view(q.markout_time));
    let points = spec_running(spec_sort_by_block(es), start, end, agg).1;
    lemma_sort_points_ordered(points);
    if !agg {
        lemma_keep_pool_ordered(spec_sort_points(points), q.pool.unwrap()@);
    }
}

/// The running totals built from interval totals come ordered by block,
/// then by lowercased markout time, then by pool name.
pub proof fn lemma_process_ordered(
    s: Seq<(u64, u64, Seq<char>, Option<Seq<char>>, u64, Seq<char>)>,
    start: u64,
    end: u64,
    agg: bool,
)
    ensures
        spec_points_ordered(spec_process(s, start, end, agg)),
{
    lemma_sort_points_ordered(spec_running(spec_sort_by_block(s), start, end, agg).1);
}

/// Whether a running-total point lies in `[start, end]` and carries a pool
/// exactly when pools are not aggregated.
pub open spec fn spec_point_ok(p: (u64, Seq<char>, Option<Seq<char>>, Option<Seq<char>>, u64), start: u64, end: u64, agg: bool) -> bool {
    &&& start <= p.0 <= end
    &&& agg ==> p.2 is None && p.3 is None
    &&& !agg ==> p.2 is Some && p.3 is Some
}

/// Every accumulated point lies in the range and carries a pool exactly
/// when pools are not aggregated.
proof fn lemma_running_points_ok(
    s: Seq<(u64, u64, Seq<char>, Option<Seq<char>>, u64, Seq<char>)>,
    start: u64,
    end: u64,
    agg: bool,
)
    ensures
        forall|k: int| 0 <= k < spec_running(s, start, end, agg).1.len()
            ==> spec_point_ok(#[trigger] spec_running(s, start, end, agg).1[k], start, end, agg),
    decreases s.len(),
{
    if s.len() > 0 {
        let d = s.drop_last();
        lemma_running_points_ok(d, start, end, agg);
        let st = spec_running(d, start, end, agg);
        let e = s.last();
        let r = spec_running(s, start, end, agg);
        assert(r == spec_running_step(st, e, start, end, agg));
        assert forall|k: int| 0 <= k < r.1.len() implies spec_point_ok(#[trigger] r.1[k], start, end, agg) by {
            if k < st.1.len() {
                assert(spec_point_ok(st.1[k], start, end, agg));
                if r.1 != st.1 {
                    assert(r.1[k] == st.1[k]);
                }
            }
        }
    }
}

/// Sorting points keeps only points that were there.
proof fn lemma_sort_points_ok(s: Seq<(u64, Seq<char>, Option<Seq<char>>, Option<Seq<char>>, u64)>, start: u64, end: u64, agg: bool)
    requires
        forall|k: int| 0 <= k < s.len() ==> spec_point_ok(#[trigger] s[k], start, end, agg),
    ensures
        forall|k: int| 0 <= k < spec_sort_points(s).len() ==> spec_point_ok(#[trigger] spec_sort_points(s)[k], start, end, agg),
    decreases s.len(),
{
    if s.len() > 0 {
        let d = s.drop_last();
        assert forall|k: int| 0 <= k < d.len() implies spec_point_ok(#[trigger] d[k], start, end, agg) by {
            assert(d[k] == s[k]);
        }
        lemma_sort_points_ok(d, start, end, agg);
        let t = spec_sort_points(d);
        lemma_point_slot_in(t, s.last());
        let p = spec_point_slot(t, s.last());
        assert(spec_point_ok(s[s.len() - 1], start, end, agg));
        assert forall|k: int| 0 <= k < t.insert(p, s.last()).len()
            implies spec_point_ok(#[trigger] t.insert(p, s.last())[k], start, end, agg) by {
            if k < p {
                assert(t.insert(p, s.last())[k] == t[k]);
            } else if k > p {
                assert(t.insert(p, s.last())[k] == t[k - 1]);
            }
        }
    }
}

/// The slot of a stable insertion lies within the points.
pub(crate) proof fn lemma_point_slot_in(
    s: Seq<(u64, Seq<char>, Option<Seq<char>>, Option<Seq<char>>, u64)>,
    x: (u64, Seq<char>, Option<Seq<char>>, Option<Seq<char>>, u64),
)
    ensures
        0 <= spec_point_slot(s, x) <= s.len(),
    decreases s.len(),
{
    if s.len() > 0 && spec_point_lt(x, s.last()) {
        lemma_point_slot_in(s.drop_last(), x);
    }
}

/// Whether an interval total names a pool.
pub open spec fn spec_has_pool(e: (u64, u64, Seq<char>, Option<Seq<char>>, u64, Seq<char>)) -> bool {
    e.3 is Some
}

/// Without aggregation, interval totals that name no pool contribute
/// nothing: accumulating them changes neither the running values nor the
/// points, so the running totals are those of the totals that name a pool.
pub proof fn lemma_poolless_totals_ignored(
    s: Seq<(u64, u64, Seq<char>, Option<Seq<char>>, u64, Seq<char>)>,
    start: u64,
    end: u64,
)
    ensures
        spec_running(s, start, end, false) == spec_running(s.filter(|e: (u64, u64, Seq<char>, Option<Seq<char>>, u64, Seq<char>)| spec_has_pool(e)), start, end, false),
        spec_process(s, start, end, false) == spec_sort_points(spec_running(
            spec_sort_by_block(s).filter(|e: (u64, u64, Seq<char>, Option<Seq<char>>, u64, Seq<char>)| spec_has_pool(e)),
            start, end, false).1),
{
    lemma_poolless_running(s, start, end);
    lemma_poolless_running(spec_sort_by_block(s), start, end);
}

/// The running values and points of totals, the pool-less ones left out.
proof fn lemma_poolless_running(
    s: Seq<(u64, u64, Seq<char>, Option<Seq<char>>, u64, Seq<char>)>,
    start: u64,
    end: u64,
)
    ensures
        spec_running(s, start, end, false) == spec_running(s.filter(|e: (u64, u64, Seq<char>, Option<Seq<char>>, u64, Seq<char>)| spec_has_pool(e)), start, end, false),
    decreases s.len(),
{
    let f = |e: (u64, u64, Seq<char>, Option<Seq<char>>, u64, Seq<char>)| spec_has_pool(e);
    if s.len() > 0 {
        let d = s.drop_last();
        lemma_poolless_running(d, start, end);
        assert(s.filter(f) == if f(s.last()) { d.filter(f).push(s.last()) } else { d.filter(f) }) by {
            reveal(Seq::filter);
        }
        if f(s.last()) {
            assert(d.filter(f).push(s.last()).drop_last() =~= d.filter(f));
        }
    }
}

/// The running totals built from interval totals all lie in
/// `[start, end]`; with pools aggregated none names a pool, otherwise each
/// names its pool (entries without a pool give no point).
pub proof fn lemma_process_in_range(
    s: Seq<(u64, u64, Seq<char>, Option<Seq<char>>, u64, Seq<char>)>,
    start: u64,
    end: u64,
    agg: bool,
)
    ensures
        forall|k: int| 0 <= k < spec_process(s, start, end, agg).len()
            ==> spec_point_ok(#[trigger] spec_process(s, start, end, agg)[k], start, end, agg),
{
    let pts = spec_running(spec_sort_by_block(s), start, end, agg).1;
    lemma_running_points_ok(spec_sort_by_block(s), start, end, agg);
    lemma_sort_points_ok(pts, start, end, agg);
}

/// One row of the precomputed running totals.
pub struct RunningTotalRow {
    pub block_number: u64,
    pub markout_time: String,
    pub pool_address: String,
    pub running_total_cents: u64,
}

impl View for RunningTotalRow {
    /// Block, markout time, pool address and running total.
    type V = (u64, Seq<char>, Seq<char>, u64);

    open spec fn view(&self) -> Self::V {
        (self.block_number, self.markout_time@, self.pool_address@, self.running_total_cents)
    }
}

/// The views of a sequence of precomputed running-total rows.
pub open spec fn spec_total_rows_view(v: Seq<RunningTotalRow>) -> Seq<(u64, Seq<char>, Seq<char>, u64)> {
    v.map_values(|t: RunningTotalRow| t@)
}

/// Whether an interval row counts toward the precomputed running totals:
/// it has a total and some non-zero block, and its pool is tracked.
pub open spec fn spec_row_counts(r: IntervalRow) -> bool {
    r.total_lvr_cents is Some && r.non_zero_count != 0 && spec_is_valid_pool(r.pair_address@)
}

/// The interval totals of all counted rows, by file start (the merge block
/// when the path names none), interval, markout time and lowercased pool,
/// keys in the order of their first row.
pub open spec fn spec_collect_all(rows: Seq<IntervalRow>) -> Seq<(u64, u64, Seq<char>, Option<Seq<char>>, u64, Seq<char>)>
    decreases rows.len(),
{
    if rows.len() == 0 {
        Seq::empty()
    } else {
        let prev = spec_collect_all(rows.drop_last());
        if spec_row_counts(rows.last()) {
            spec_add_row(prev, rows.last(), MERGE_BLOCK, false)
        } else {
            prev
        }
    }
}

/// The first index, from `i` on, of the running value of a pool and
/// markout time.
pub open spec fn spec_pair_find(l: Seq<(Seq<char>, Seq<char>, u64)>, pool: Seq<char>, markout: Seq<char>, i: int) -> Option<int>
    decreases l.len() - i,
{
    if i < 0 || i >= l.len() {
        None
    } else if l[i].0 == pool && l[i].1 == markout {
        Some(i)
    } else {
        spec_pair_find(l, pool, markout, i + 1)
    }
}

/// The running values after adding `add`, saturating, to that of a pool
/// and markout time, with the new value.
pub open spec fn spec_pair_bump(l: Seq<(Seq<char>, Seq<char>, u64)>, pool: Seq<char>, markout: Seq<char>, add: u64) -> (Seq<(Seq<char>, Seq<char>, u64)>, u64) {
    match spec_pair_find(l, pool, markout, 0) {
        Some(j) => {
            let v = spec_sat_add(l[j].2, add);
            (l.update(j, (pool, markout, v)), v)
        },
        None => (l.push((pool, markout, add)), add),
    }
}

/// The precomputed running totals over interval totals taken in order: for
/// each total with a pool, its block, markout time, pool, and the running
/// value of its pool and markout time after adding it.
pub open spec fn spec_all_running(s: Seq<(u64, u64, Seq<char>, Option<Seq<char>>, u64, Seq<char>)>) -> (Seq<(Seq<char>, Seq<char>, u64)>, Seq<(u64, Seq<char>, Seq<char>, u64)>)
    decreases s.len(),
{
    if s.len() == 0 {
        (Seq::empty(), Seq::empty())
    } else {
        let prev = spec_all_running(s.drop_last());
        let e = s.last();
        match e.3 {
            None => prev,
            Some(pool) => {
                let b = spec_pair_bump(prev.0, pool, e.2, e.4);
                (b.0, prev.1.push((spec_total_block(e) as u64, e.2, pool, b.1)))
            },
        }
    }
}

/// The precomputed running totals of interval rows: the counted rows summed
/// by key (see `spec_collect_all`), in block order, each with the running
/// value of its pool and markout time.
pub open spec fn spec_running_total_rows(rows: Seq<IntervalRow>) -> Seq<(u64, Seq<char>, Seq<char>, u64)> {
    spec_all_running(spec_sort_by_block(spec_collect_all(rows))).1
}

/// Whether a counted interval row's block fits in 64 bits.
pub open spec fn spec_row_block_fits(r: IntervalRow) -> bool {
    spec_row_counts(r) ==> spec_block_number(MERGE_BLOCK, r.interval_id, r.file_path@) <= u64::MAX
}

/// Whether a counted interval row's block fits in 64 bits (see
/// `spec_row_block_fits`).
pub fn row_block_fits(r: &IntervalRow) -> (b: bool)
    ensures
        b == spec_row_block_fits(*r),
{
    let counts = r.total_lvr_cents.is_some() && r.non_zero_count != 0 && is_valid_pool(r.pair_address.as_str());
    !counts || block_number_fits(MERGE_BLOCK, r.interval_id, r.file_path.as_str())
}

/// Every total collected from rows whose blocks fit has a block that fits.
proof fn lemma_collect_all_blocks(rows: Seq<IntervalRow>)
    requires
        forall|i: int| 0 <= i < rows.len() ==> spec_row_block_fits(#[trigger] rows[i]),
    ensures
        forall|k: int| 0 <= k < spec_collect_all(rows).len()
            ==> spec_total_block(#[trigger] spec_collect_all(rows)[k]) <= u64::MAX,
    decreases rows.len(),
{
    if rows.len() > 0 {
        let d = rows.drop_last();
        assert forall|i: int| 0 <= i < d.len() implies spec_row_block_fits(#[trigger] d[i]) by {
            assert(d[i] == rows[i]);
        }
        lemma_collect_all_blocks(d);
        let prev = spec_collect_all(d);
        let r = rows.last();
        assert(spec_row_block_fits(rows[rows.len() - 1]));
        if spec_row_counts(r) {
            let key = spec_row_key(r, MERGE_BLOCK, false);
            match spec_find_total(prev, key, 0) {
                Some(i) => {
                    lemma_total_found(prev, key, 0, i);
                },
                None => {},
            }
        }
    }
}

/// The interval totals of all counted rows (see `spec_collect_all`).
fn collect_all(rows: &Vec<IntervalRow>) -> (r: Vec<IntervalTotal>)
    ensures
        spec_totals_view(r@) == spec_collect_all(rows@),
{
    let mut es: Vec<IntervalTotal> = Vec::new();
    let mut i: usize = 0;
    while i < rows.len()
        invariant
            i <= rows.len(),
            spec_totals_view(es@) == spec_collect_all(rows@.take(i as int)),
        decreases rows.len() - i,
    {
        let r = &rows[i];
        assert(rows@.take(i + 1).drop_last() =~= rows@.take(i as int));
        assert(rows@.take(i + 1).last() == rows@[i as int]);
        if r.total_lvr_cents.is_some() && r.non_zero_count != 0 && is_valid_pool(r.pair_address.as_str()) {
            let file_start = match interval_file_start(r.file_path.as_str()) {
                Some(v) => v,
                None => MERGE_BLOCK,
            };
            let key_pool: Option<String> = Some(to_lower(r.pair_address.as_str()));
            let cents = match r.total_lvr_cents {
                Some(c) => c,
                None => 0,
            };
            let ghost before = spec_totals_view(es@);
            assert(spec_row_key(rows@[i as int], MERGE_BLOCK, false)
                == (file_start, r.interval_id, r.markout_time@, spec_opt_view(key_pool)));
            match find_total(&es, file_start, r.interval_id, &r.markout_time, &key_pool) {
                Some(j) => {
                    let t = es[j].data.total.saturating_add(cents);
                    es[j].data.total = t;
                    proof {
                        let upd = before.update(j as int, (before[j as int].0, before[j as int].1, before[j as int].2,
                            before[j as int].3, spec_sat_add(before[j as int].4, cents), before[j as int].5));
                        assert(spec_totals_view(es@) =~= upd);
                    }
                },
                None => {
                    let e = IntervalTotal {
                        file_start,
                        interval_id: r.interval_id,
                        markout: r.markout_time.clone(),
                        pool_address: key_pool,
                        data: IntervalAPIData { total: cents, file_path: r.file_path.clone() },
                    };
                    es.push(e);
                    proof {
                        assert(spec_totals_view(es@) =~= before.push(e@));
                    }
                },
            }
        }
        i = i + 1;
    }
    assert(rows@.take(rows.len() as int) =~= rows@);
    es
}

/// The views of running values of pools and markout times.
pub open spec fn spec_pair_view(l: Seq<(String, String, u64)>) -> Seq<(Seq<char>, Seq<char>, u64)> {
    l.map_values(|p: (String, String, u64)| (p.0@, p.1@, p.2))
}

/// Adds `add`, saturating, to the running value of a pool and markout time
/// and returns the new value (see `spec_pair_bump`).
fn pair_bump(l: &mut Vec<(String, String, u64)>, pool: &String, markout: &String, add: u64) -> (r: u64)
    ensures
        (spec_pair_view(final(l)@), r) == spec_pair_bump(spec_pair_view(old(l)@), pool@, markout@, add),
{
    let ghost before = spec_pair_view(l@);
    let mut j: usize = 0;
    while j < l.len()
        invariant
            j <= l.len(),
            before == spec_pair_view(l@),
            spec_pair_view(old(l)@) == before,
            spec_pair_find(before, pool@, markout@, 0) == spec_pair_find(before, pool@, markout@, j as int),
        decreases l.len() - j,
    {
        assert(before[j as int] == (l@[j as int].0@, l@[j as int].1@, l@[j as int].2));
        if l[j].0 == *pool && l[j].1 == *markout {
            assert(spec_pair_find(before, pool@, markout@, j as int) == Some(j as int));
            let v = l[j].2.saturating_add(add);
            l[j].2 = v;
            proof {
                assert(spec_pair_view(l@) =~= before.update(j as int, (pool@, markout@, v)));
            }
            return v;
        }
        j = j + 1;
    }
    l.push((pool.clone(), markout.clone(), add));
    proof {
        assert(spec_pair_view(l@) =~= before.push((pool@, markout@, add)));
    }
    add
}

/// The precomputed running totals of interval rows (see
/// `spec_running_total_rows`).
pub fn running_total_rows(rows: &Vec<IntervalRow>) -> (r: Vec<RunningTotalRow>)
    requires
        forall|i: int| 0 <= i < rows.len() ==> spec_row_block_fits(#[trigger] rows@[i]),
    ensures
        spec_total_rows_view(r@) == spec_running_total_rows(rows@),
{
    let totals = collect_all(rows);
    let ghost tv = spec_totals_view(totals@);
    let sorted = sort_by_block(totals);
    let ghost sv = spec_totals_view(sorted@);
    proof {
        lemma_collect_all_blocks(rows@);
        lemma_sort_by_block_members(tv);
        assert forall|k: int| 0 <= k < sorted.len() implies spec_total_block(#[trigger] sorted@[k]@) <= u64::MAX by {
            assert(sv[k] == sorted@[k]@);
            assert(tv.contains(sv[k]));
        }
    }
    let mut values: Vec<(String, String, u64)> = Vec::new();
    let mut out: Vec<RunningTotalRow> = Vec::new();
    let mut i: usize = 0;
    while i < sorted.len()
        invariant
            i <= sorted.len(),
            sv == spec_totals_view(sorted@),
            sv == spec_sort_by_block(spec_collect_all(rows@)),
            forall|k: int| 0 <= k < sorted.len() ==> spec_total_block(#[trigger] sorted@[k]@) <= u64::MAX,
            (spec_pair_view(values@), spec_total_rows_view(out@)) == spec_all_running(sv.take(i as int)),
        decreases sorted.len() - i,
    {
        let e = &sorted[i];
        let ghost before = spec_total_rows_view(out@);
        proof {
            assert(sv[i as int] == e@);
            assert(sv.take(i + 1).drop_last() =~= sv.take(i as int));
            assert(sv.take(i + 1).last() == e@);
            assert(spec_total_block(sorted@[i as int]@) <= u64::MAX);
        }
        match &e.pool_address {
            None => {},
            Some(pool) => {
                let block = interval_block(e.file_start, e.interval_id, e.data.file_path.as_str());
                let v = pair_bump(&mut values, pool, &e.markout, e.data.total);
                let row = RunningTotalRow {
                    block_number: block,
                    markout_time: e.markout.clone(),
                    pool_address: pool.clone(),
                    running_total_cents: v,
                };
                out.push(row);
                proof {
                    assert(spec_total_rows_view(out@) =~= before.push(row@));
                }
            },
        }
        i = i + 1;
    }
    assert(sv.take(sorted.len() as int) =~= sv);
    out
}

/// The points of the precomputed aggregate running totals within `[start,
/// end]` and of the requested markout time, if any, in row order.
pub open spec fn spec_select_aggregate(
    rows: Seq<(u64, Seq<char>, u64)>,
    start: u64,
    end: u64,
    markout: Option<Seq<char>>,
) -> Seq<(u64, Seq<char>, Option<Seq<char>>, Option<Seq<char>>, u64)>
    decreases rows.len(),
{
    if rows.len() == 0 {
        Seq::empty()
    } else {
        let prev = spec_select_aggregate(rows.drop_last(), start, end, markout);
        let r = rows.last();
        if start <= r.0 <= end && match markout { Some(m) => m == r.1, None => true } {
            prev.push((r.0, r.1, None, None, r.2))
        } else {
            prev
        }
    }
}

/// The precomputed aggregate running totals of a request: the rows
/// (block, markout time, running total) within `[start_block, end_block]`
/// and of the requested markout time, if any, sorted by block and
/// lowercased markout time.
pub fn read_aggregate_running_totals(
    rows: &Vec<(u64, String, u64)>,
    start_block: u64,
    end_block: u64,
    markout_filter: &Option<String>,
) -> (r: Vec<RunningTotal>)
    ensures
        spec_points_view(r@) == spec_sort_points(spec_select_aggregate(
            rows@.map_values(|t: (u64, String, u64)| (t.0, t.1@, t.2)),
            start_block,
            end_block,
            spec_opt_view(*markout_filter),
        )),
{
    let ghost rv = rows@.map_values(|t: (u64, String, u64)| (t.0, t.1@, t.2));
    let mut out: Vec<RunningTotal> = Vec::new();
    let mut i: usize = 0;
    while i < rows.len()
        invariant
            i <= rows.len(),
            rv == rows@.map_values(|t: (u64, String, u64)| (t.0, t.1@, t.2)),
            spec_points_view(out@) == spec_select_aggregate(rv.take(i as int), start_block, end_block, spec_opt_view(*markout_filter)),
        decreases rows.len() - i,
    {
        let (block, markout, total) = (rows[i].0, &rows[i].1, rows[i].2);
        let ghost before = spec_points_view(out@);
        proof {
            assert(rv[i as int] == (block, markout@, total));
            assert(rv.take(i + 1).drop_last() =~= rv.take(i as int));
            assert(rv.take(i + 1).last() == rv[i as int]);
        }
        let wanted = match markout_filter {
            Some(f) => *f == *markout,
            None => true,
        };
        if start_block <= block && block <= end_block && wanted {
            let pt = RunningTotal {
                block_number: block,
                markout: markout.clone(),
                pool_name: None,
                pool_address: None,
                running_total_cents: total,
            };
            out.push(pt);
            proof {
                assert(spec_points_view(out@) =~= before.push(pt@));
            }
        }
        i = i + 1;
    }
    assert(rv.take(rows.len() as int) =~= rv);
    sort_points(out)
}

/// The points of the precomputed per-pool running totals within `[start,
/// end]`, of the requested markout time and pool (compared lowercased), if
/// any, in row order, each with its pool's name and lowercased address.
pub open spec fn spec_select_individual(
    rows: Seq<(u64, Seq<char>, Seq<char>, u64)>,
    start: u64,
    end: u64,
    markout: Option<Seq<char>>,
    pool: Option<Seq<char>>,
) -> Seq<(u64, Seq<char>, Option<Seq<char>>, Option<Seq<char>>, u64)>
    decreases rows.len(),
{
    if rows.len() == 0 {
        Seq::empty()
    } else {
        let prev = spec_select_individual(rows.drop_last(), start, end, markout, pool);
        let r = rows.last();
        let a = spec_lower(r.2);
        if start <= r.0 <= end && match markout { Some(m) => m == r.1, None => true }
            && match pool { Some(p) => spec_lower(p) == a, None => true } {
            prev.push((r.0, r.1, Some(spec_pool_name(a)), Some(a), r.3))
        } else {
            prev
        }
    }
}

/// The precomputed per-pool running totals of a request (see
/// `spec_select_individual`), sorted by block, lowercased markout time and
/// pool name.
pub fn read_individual_running_totals(
    rows: &Vec<RunningTotalRow>,
    start_block: u64,
    end_block: u64,
    params: &TimeRangeQuery,
) -> (r: Vec<RunningTotal>)
    ensures
        spec_points_view(r@) == spec_sort_points(spec_select_individual(
            spec_total_rows_view(rows@),
            start_block,
            end_block,
            spec_opt_view(params.markout_time),
            spec_opt_view(params.pool),
        )),
{
    let ghost rv = spec_total_rows_view(rows@);
    let mut out: Vec<RunningTotal> = Vec::new();
    let mut i: usize = 0;
    while i < rows.len()
        invariant
            i <= rows.len(),
            rv == spec_total_rows_view(rows@),
            spec_points_view(out@) == spec_select_individual(rv.take(i as int), start_block, end_block,
                spec_opt_view(params.markout_time), spec_opt_view(params.pool)),
        decreases rows.len() - i,
    {
        let r = &rows[i];
        let ghost before = spec_points_view(out@);
        proof {
            assert(rv[i as int] == r@);
            assert(rv.take(i + 1).drop_last() =~= rv.take(i as int));
            assert(rv.take(i + 1).last() == rv[i as int]);
        }
        let address = to_lower(r.pool_address.as_str());
        let wanted_markout = match &params.markout_time {
            Some(f) => *f == r.markout_time,
            None => true,
        };
        let wanted_pool = match &params.pool {
            Some(p) => to_lower(p.as_str()) == address,
            None => true,
        };
        if start_block <= r.block_number && r.block_number <= end_block && wanted_markout && wanted_pool {
            let name = get_pool_name(address.as_str());
            let pt = RunningTotal {
                block_number: r.block_number,
                markout: r.markout_time.clone(),
                pool_name: Some(name),
                pool_address: Some(address),
                running_total_cents: r.running_total_cents,
            };
            out.push(pt);
            proof {
                assert(spec_points_view(out@) =~= before.push(pt@));
            }
        }
        i = i + 1;
    }
    assert(rv.take(rows.len() as int) =~= rv);
    sort_points(out)
}

/// Whether a request for precomputed running totals is refused: one per
/// pool must name a pool, and a named pool must be tracked.
pub open spec fn spec_precomputed_refused(q: TimeRangeQuery) -> bool {
    ||| !spec_query_aggregate(q) && q.pool is None
    ||| match q.pool {
        Some(p) => !spec_is_valid_pool(p@),
        None => false,
    }
}

/// The running totals a request asks for, read from the precomputed rows:
/// refused as `spec_precomputed_refused` says; otherwise the aggregate rows
/// or the per-pool rows selected and sorted (see
/// `read_aggregate_running_totals` and `read_individual_running_totals`).
pub fn get_precomputed_running_total(
    query: &TimeRangeQuery,
    aggregate_rows: &Vec<(u64, String, u64)>,
    individual_rows: &Vec<RunningTotalRow>,
) -> (r: Result<Vec<RunningTotal>, ApiError>)
    ensures
        spec_precomputed_refused(*query) <==> r is Err,
        r matches Err(e) ==> e == ApiError::BadRequest,
        r matches Ok(v) ==> spec_points_view(v@) == if spec_query_aggregate(*query) {
            spec_sort_points(spec_select_aggregate(
                aggregate_rows@.map_values(|t: (u64, String, u64)| (t.0, t.1@, t.2)),
                spec_query_start(*query),
                spec_query_end(*query),
                spec_opt_view(query.markout_time),
            ))
        } else {
            spec_sort_points(spec_select_individual(
                spec_total_rows_view(individual_rows@),
                spec_query_start(*query),
                spec_query_end(*query),
                spec_opt_view(query.markout_time),
                spec_opt_view(query.pool),
            ))
        },
{
    let start_block = match query.start_block {
        Some(b) => b,
        None => MERGE_BLOCK,
    };
    let end_block = match query.end_block {
        Some(b) => b,
        None => DEFAULT_END_BLOCK,
    };
    let is_aggregate = match query.aggregate {
        Some(b) => b,
        None => false,
    };
    if !is_aggregate && query.pool.is_none() {
        return Err(ApiError::BadRequest);
    }
    match &query.pool {
        Some(p) => {
            if !is_valid_pool(p.as_str()) {
                return Err(ApiError::BadRequest);
            }
        },
        None => {},
    }
    if is_aggregate {
        Ok(read_aggregate_running_totals(aggregate_rows, start_block, end_block, &query.markout_time))
    } else {
        Ok(read_individual_running_totals(individual_rows, start_block, end_block, query))
    }
}

/// The block range and pool a ratio request asks for.
pub struct LVRRatioQuery {
    pub start_block: Option<u64>,
    pub end_block: Option<u64>,
    pub pool_address: Option<String>,
}

/// The realized (Brontes) LVR and the theoretical LVR of each other markout
/// time.
pub struct LVRTotals {
    pub realized: u64,
    /// Each markout time with its total, in the order of their first row.
    pub theoretical: Vec<(String, u64)>,
}

/// The realized LVR and the theoretical LVR per markout time of interval
/// rows: the positive totals of the rows that have a total and some
/// non-zero block and belong to a tracked pool, `brontes` rows summed into
/// the realized LVR and the others by markout time, all saturating.
pub open spec fn spec_lvr_totals(rows: Seq<IntervalRow>) -> (u64, Seq<(Seq<char>, u64)>)
    decreases rows.len(),
{
    if rows.len() == 0 {
        (0, Seq::empty())
    } else {
        let prev = spec_lvr_totals(rows.drop_last());
        let r = rows.last();
        if spec_row_counts(r) && r.total_lvr_cents.unwrap() > 0 {
            let v = r.total_lvr_cents.unwrap();
            if r.markout_time@ == "brontes"@ {
                (spec_sat_add(prev.0, v), prev.1)
            } else {
                (prev.0, spec_assoc_put(prev.1, r.markout_time@, spec_running_value(prev.1, r.markout_time@, v)))
            }
        } else {
            prev
        }
    }
}

/// The realized and theoretical LVR of interval rows (see
/// `spec_lvr_totals`).
pub fn lvr_totals(rows: &Vec<IntervalRow>) -> (r: LVRTotals)
    ensures
        (r.realized, spec_assoc_view(r.theoretical@)) == spec_lvr_totals(rows@),
{
    let brontes = String::from_str("brontes");
    let mut realized: u64 = 0;
    let mut theoretical: Vec<(String, u64)> = Vec::new();
    let mut i: usize = 0;
    while i < rows.len()
        invariant
            i <= rows.len(),
            brontes@ == "brontes"@,
            (realized, spec_assoc_view(theoretical@)) == spec_lvr_totals(rows@.take(i as int)),
        decreases rows.len() - i,
    {
        let r = &rows[i];
        assert(rows@.take(i + 1).drop_last() =~= rows@.take(i as int));
        assert(rows@.take(i + 1).last() == rows@[i as int]);
        if r.total_lvr_cents.is_some() && r.non_zero_count != 0 && is_valid_pool(r.pair_address.as_str()) {
            let v = match r.total_lvr_cents {
                Some(v) => v,
                None => 0,
            };
            if v > 0 {
                if r.markout_time == brontes {
                    realized = realized.saturating_add(v);
                } else {
                    bump(&mut theoretical, r.markout_time.clone(), v);
                }
            }
        }
        i = i + 1;
    }
    assert(rows@.take(rows.len() as int) =~= rows@);
    LVRTotals { realized, theoretical }
}

/// Whether a markout time is `brontes`, in any case.
pub open spec fn spec_is_brontes(m: Seq<char>) -> bool {
    spec_lower(m) == "brontes"@
}

/// The latest block of each markout time other than `brontes` among the
/// precomputed aggregate rows (block, markout time, running total), markout
/// times in the order of their first row.
pub open spec fn spec_latest_blocks(rows: Seq<(u64, Seq<char>, u64)>) -> Seq<(Seq<char>, u64)>
    decreases rows.len(),
{
    if rows.len() == 0 {
        Seq::empty()
    } else {
        let prev = spec_latest_blocks(rows.drop_last());
        let r = rows.last();
        if spec_is_brontes(r.1) {
            prev
        } else {
            let v = match spec_assoc_find(prev, r.1, 0) {
                Some(j) => if prev[j].1 >= r.0 { prev[j].1 } else { r.0 },
                None => r.0,
            };
            spec_assoc_put(prev, r.1, v)
        }
    }
}

/// The rows, in row order, that stand at the latest block of their markout
/// time (other than `brontes`), as markout time and running total.
pub open spec fn spec_latest_rows(rows: Seq<(u64, Seq<char>, u64)>, latest: Seq<(Seq<char>, u64)>) -> Seq<(Seq<char>, u64)>
    decreases rows.len(),
{
    if rows.len() == 0 {
        Seq::empty()
    } else {
        let prev = spec_latest_rows(rows.drop_last(), latest);
        let r = rows.last();
        if !spec_is_brontes(r.1) && match spec_assoc_find(latest, r.1, 0) {
            Some(j) => latest[j].1 == r.0,
            None => false,
        } {
            prev.push((r.1, r.2))
        } else {
            prev
        }
    }
}

/// Where a stable insertion by text puts `x`: just after the last element
/// whose text does not come after that of `x`.
pub open spec fn spec_text_slot(s: Seq<(Seq<char>, u64)>, x: (Seq<char>, u64)) -> int
    decreases s.len(),
{
    if s.len() == 0 {
        0
    } else if !spec_text_lt(x.0, s.last().0) {
        s.len() as int
    } else {
        spec_text_slot(s.drop_last(), x)
    }
}

/// The pairs stably sorted by their text.
pub open spec fn spec_sort_by_text(s: Seq<(Seq<char>, u64)>) -> Seq<(Seq<char>, u64)>
    decreases s.len(),
{
    if s.len() == 0 {
        s
    } else {
        let t = spec_sort_by_text(s.drop_last());
        t.insert(spec_text_slot(t, s.last()), s.last())
    }
}

/// The total LVR of each markout time other than `brontes` read from the
/// precomputed aggregate rows: the running totals at the latest block of
/// each markout time, sorted by markout time.
pub open spec fn spec_get_total_lvr(rows: Seq<(u64, Seq<char>, u64)>) -> Seq<(Seq<char>, u64)> {
    spec_sort_by_text(spec_latest_rows(rows, spec_latest_blocks(rows)))
}

/// The total LVR of each markout time other than `brontes`, in cents, read
/// from the precomputed aggregate rows (block, markout time, running total;
/// see `spec_get_total_lvr`).
pub fn get_total_lvr(rows: &Vec<(u64, String, u64)>) -> (r: Vec<(String, u64)>)
    ensures
        spec_assoc_view(r@) == spec_get_total_lvr(rows@.map_values(|t: (u64, String, u64)| (t.0, t.1@, t.2))),
{
    let ghost rv = rows@.map_values(|t: (u64, String, u64)| (t.0, t.1@, t.2));
    let mut latest: Vec<(String, u64)> = Vec::new();
    let mut i: usize = 0;
    while i < rows.len()
        invariant
            i <= rows.len(),
            rv == rows@.map_values(|t: (u64, String, u64)| (t.0, t.1@, t.2)),
            spec_assoc_view(latest@) == spec_latest_blocks(rv.take(i as int)),
        decreases rows.len() - i,
    {
        let (block, markout) = (rows[i].0, &rows[i].1);
        proof {
            assert(rv[i as int] == (block, markout@, rows@[i as int].2));
            assert(rv.take(i + 1).drop_last() =~= rv.take(i as int));
            assert(rv.take(i + 1).last() == rv[i as int]);
        }
        if !crate::text::eq_lower(markout.as_str(), "brontes") {
            let ghost lv = spec_assoc_view(latest@);
            let v = match assoc_find(&latest, markout) {
                Some(j) => {
                    assert(lv[j as int] == (latest@[j as int].0@, latest@[j as int].1));
                    if latest[j].1 >= block { latest[j].1 } else { block }
                },
                None => block,
            };
            assoc_put(&mut latest, markout.clone(), v);
        }
        i = i + 1;
    }
    assert(rv.take(rows.len() as int) =~= rv);
    let ghost lv = spec_assoc_view(latest@);
    let mut picked: Vec<(String, u64)> = Vec::new();
    let mut k: usize = 0;
    while k < rows.len()
        invariant
            k <= rows.len(),
            rv == rows@.map_values(|t: (u64, String, u64)| (t.0, t.1@, t.2)),
            lv == spec_assoc_view(latest@),
            lv == spec_latest_blocks(rv),
            spec_assoc_view(picked@) == spec_latest_rows(rv.take(k as int), lv),
        decreases rows.len() - k,
    {
        let (block, markout, total) = (rows[k].0, &rows[k].1, rows[k].2);
        let ghost before = spec_assoc_view(picked@);
        proof {
            assert(rv[k as int] == (block, markout@, total));
            assert(rv.take(k + 1).drop_last() =~= rv.take(k as int));
            assert(rv.take(k + 1).last() == rv[k as int]);
        }
        if !crate::text::eq_lower(markout.as_str(), "brontes") {
            match assoc_find(&latest, markout) {
                Some(j) => {
                    assert(lv[j as int] == (latest@[j as int].0@, latest@[j as int].1));
                    if latest[j].1 == block {
                        picked.push((markout.clone(), total));
                        proof {
                            assert(spec_assoc_view(picked@) =~= before.push((markout@, total)));
                        }
                    }
                },
                None => {},
            }
        }
        k = k + 1;
    }
    assert(rv.take(rows.len() as int) =~= rv);
    sort_by_text(picked)
}

/// The pairs stably sorted by their text (see `spec_sort_by_text`).
fn sort_by_text(v: Vec<(String, u64)>) -> (r: Vec<(String, u64)>)
    ensures
        spec_assoc_view(r@) == spec_sort_by_text(spec_assoc_view(v@)),
{
    let ghost ov = spec_assoc_view(v@);
    let n = v.len();
    let mut rest = v;
    let mut out: Vec<(String, u64)> = Vec::new();
    let mut i: usize = 0;
    while i < n
        invariant
            i <= n,
            n == ov.len(),
            rest.len() == n - i,
            spec_assoc_view(rest@) == ov.subrange(i as int, n as int),
            spec_assoc_view(out@) == spec_sort_by_text(ov.take(i as int)),
        decreases n - i,
    {
        let ghost os = spec_assoc_view(out@);
        let ghost old_rest = rest@;
        let x = rest.remove(0);
        proof {
            assert(spec_assoc_view(old_rest)[0] == (old_rest[0].0@, old_rest[0].1));
            assert((x.0@, x.1) == ov[i as int]);
            assert forall|q: int| 0 <= q < rest@.len() implies
                #[trigger] spec_assoc_view(rest@)[q] == ov[i + 1 + q] by {
                assert(rest@[q] == old_rest[q + 1]);
                assert(spec_assoc_view(old_rest)[q + 1] == (old_rest[q + 1].0@, old_rest[q + 1].1));
            }
            assert(spec_assoc_view(rest@) =~= ov.subrange(i + 1, n as int));
        }
        let mut j = out.len();
        let mut moving = true;
        assert(os.take(j as int) =~= os);
        while moving && j > 0
            invariant
                j <= out.len(),
                os == spec_assoc_view(out@),
                spec_text_slot(os, (x.0@, x.1)) == spec_text_slot(os.take(j as int), (x.0@, x.1)),
                !moving ==> j > 0 && !spec_text_lt(x.0@, os[j - 1].0),
            decreases j + (if moving { 1int } else { 0int }),
        {
            assert(os[j - 1] == (out@[j - 1].0@, out@[j - 1].1));
            if text_lt(x.0.as_str(), out[j - 1].0.as_str()) {
                assert(os.take(j as int).drop_last() =~= os.take(j - 1));
                j = j - 1;
            } else {
                moving = false;
            }
        }
        proof {
            if j > 0 {
                assert(os.take(j as int).last() == os[j - 1]);
            }
            assert(spec_text_slot(os, (x.0@, x.1)) == j);
            assert(ov.take(i + 1).drop_last() =~= ov.take(i as int));
            assert(ov.take(i + 1).last() == ov[i as int]);
        }
        let ghost xv = (x.0@, x.1);
        out.insert(j, x);
        proof {
            assert(spec_assoc_view(out@) =~= os.insert(j as int, xv));
        }
        i = i + 1;
    }
    assert(ov.take(n as int) =~= ov);
    out
}

/// A found running value holds its pool and markout time and lies in the
/// list.
proof fn lemma_pair_found(l: Seq<(Seq<char>, Seq<char>, u64)>, p: Seq<char>, m: Seq<char>, i: int, j: int)
    requires
        spec_pair_find(l, p, m, i) == Some(j),
    ensures
        i <= j < l.len(),
        l[j].0 == p && l[j].1 == m,
    decreases l.len() - i,
{
    if i >= 0 && i < l.len() && !(l[i].0 == p && l[i].1 == m) {
        lemma_pair_found(l, p, m, i + 1, j);
    }
}

/// Changing the value of one pool and markout time moves no other.
proof fn lemma_pair_find_update(
    l: Seq<(Seq<char>, Seq<char>, u64)>,
    j: int,
    x: (Seq<char>, Seq<char>, u64),
    p: Seq<char>,
    m: Seq<char>,
    i: int,
)
    requires
        0 <= j < l.len(),
        l[j].0 == x.0 && l[j].1 == x.1,
    ensures
        spec_pair_find(l.update(j, x), p, m, i) == spec_pair_find(l, p, m, i),
    decreases l.len() - i,
{
    if i >= 0 && i < l.len() {
        lemma_pair_find_update(l, j, x, p, m, i + 1);
    }
}

/// Adding a value last moves no value already found.
proof fn lemma_pair_find_push(l: Seq<(Seq<char>, Seq<char>, u64)>, x: (Seq<char>, Seq<char>, u64), p: Seq<char>, m: Seq<char>, i: int)
    requires
        spec_pair_find(l, p, m, i) is Some,
    ensures
        spec_pair_find(l.push(x), p, m, i) == spec_pair_find(l, p, m, i),
    decreases l.len() - i,
{
    if i >= 0 && i < l.len() && !(l[i].0 == p && l[i].1 == m) {
        lemma_pair_find_push(l, x, p, m, i + 1);
    }
}

/// A value added last for a pool and markout time that had none is found
/// there.
proof fn lemma_pair_find_new(l: Seq<(Seq<char>, Seq<char>, u64)>, x: (Seq<char>, Seq<char>, u64), i: int)
    requires
        0 <= i <= l.len(),
        spec_pair_find(l, x.0, x.1, i) is None,
    ensures
        spec_pair_find(l.push(x), x.0, x.1, i) == Some(l.len() as int),
    decreases l.len() - i,
{
    if i < l.len() {
        lemma_pair_find_new(l, x, i + 1);
    }
}

/// Every emitted running total is at most the current value of its pool
/// and markout time.
pub open spec fn spec_points_bounded(l: Seq<(Seq<char>, Seq<char>, u64)>, out: Seq<(u64, Seq<char>, Seq<char>, u64)>) -> bool {
    forall|k: int| 0 <= k < out.len() ==> match spec_pair_find(l, (#[trigger] out[k]).2, out[k].1, 0) {
        Some(j) => l[j].2 >= out[k].3,
        None => false,
    }
}

/// Whether, among rows of the same pool and markout time, a later running
/// total is never smaller than an earlier one.
pub open spec fn spec_never_falls(out: Seq<(u64, Seq<char>, Seq<char>, u64)>) -> bool {
    forall|i: int, k: int| 0 <= i < k < out.len() && (#[trigger] out[i]).1 == (#[trigger] out[k]).1 && out[i].2 == out[k].2
        ==> out[i].3 <= out[k].3
}

/// The running values bound the emitted totals, and no total falls.
proof fn lemma_all_running_never_falls(s: Seq<(u64, u64, Seq<char>, Option<Seq<char>>, u64, Seq<char>)>)
    ensures
        spec_points_bounded(spec_all_running(s).0, spec_all_running(s).1),
        spec_never_falls(spec_all_running(s).1),
    decreases s.len(),
{
    if s.len() > 0 {
        lemma_all_running_never_falls(s.drop_last());
        let prev = spec_all_running(s.drop_last());
        let e = s.last();
        match e.3 {
            None => {},
            Some(p) => {
                let l = prev.0;
                let o = prev.1;
                let m = e.2;
                let b = spec_pair_bump(l, p, m, e.4);
                let l2 = b.0;
                let v = b.1;
                let o2 = o.push((spec_total_block(e) as u64, m, p, v));
                assert(spec_all_running(s) == (l2, o2));
                let found = spec_pair_find(l, p, m, 0);
                let jn: int = match found {
                    Some(j) => {
                        lemma_pair_found(l, p, m, 0, j);
                        lemma_pair_find_update(l, j, (p, m, v), p, m, 0);
                        j
                    },
                    None => {
                        lemma_pair_find_new(l, (p, m, v), 0);
                        l.len() as int
                    },
                };
                assert(spec_pair_find(l2, p, m, 0) == Some(jn));
                assert(l2[jn].2 == v);
                assert forall|k: int| 0 <= k < o2.len() implies match spec_pair_find(l2, (#[trigger] o2[k]).2, o2[k].1, 0) {
                    Some(j) => l2[j].2 >= o2[k].3,
                    None => false,
                } by {
                    if k < o.len() {
                        assert(o2[k] == o[k]);
                        let pk = o[k].2;
                        let mk = o[k].1;
                        let jk = spec_pair_find(l, pk, mk, 0).unwrap();
                        lemma_pair_found(l, pk, mk, 0, jk);
                        if pk == p && mk == m {
                            assert(found == Some(jk));
                        } else {
                            match found {
                                Some(j) => {
                                    lemma_pair_find_update(l, j, (p, m, v), pk, mk, 0);
                                    assert(jk != j);
                                },
                                None => {
                                    lemma_pair_find_push(l, (p, m, v), pk, mk, 0);
                                },
                            }
                        }
                    }
                }
                assert forall|i: int, k: int| 0 <= i < k < o2.len() && (#[trigger] o2[i]).1 == (#[trigger] o2[k]).1
                    && o2[i].2 == o2[k].2 implies o2[i].3 <= o2[k].3 by {
                    if k < o.len() {
                        assert(o2[i] == o[i] && o2[k] == o[k]);
                    } else {
                        assert(o2[i] == o[i]);
                        assert(o2[k] == (spec_total_block(e) as u64, m, p, v));
                        let jk = spec_pair_find(l, p, m, 0).unwrap();
                        assert(found == Some(jk));
                        lemma_pair_found(l, p, m, 0, jk);
                    }
                }
            },
        }
    }
}

/// A running total never falls: among the precomputed running totals of the
/// same pool and markout time, a later row's total is never smaller than an
/// earlier one's.
pub proof fn lemma_running_totals_never_fall(rows: Seq<IntervalRow>)
    ensures
        spec_never_falls(spec_running_total_rows(rows)),
{
    lemma_all_running_never_falls(spec_sort_by_block(spec_collect_all(rows)));
}

} // verus!
