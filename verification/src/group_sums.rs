//! What each running-total point adds up: the LVR of its group's interval
//! totals in the requested range, up to its block.
use vstd::prelude::*;
use crate::pools::spec_pool_name;
use crate::files::spec_interval_file_range;
use crate::running::{
    spec_add_row, spec_collect, spec_find_total, spec_row_key, spec_row_passes, spec_row_selected, IntervalRow,
    lemma_block_slot_bounds, lemma_point_slot_in, lemma_sort_by_block_members, spec_assoc_find,
    spec_assoc_put, spec_block_key, spec_block_slot, spec_point_slot, spec_process, spec_running,
    spec_running_step, spec_running_value, spec_sort_by_block, spec_sort_points,
    spec_total_block,
};

verus! {

/// The running key that an interval total adds to: its markout time when
/// pools are aggregated, otherwise its markout time and pool name joined by
/// `_`; none for a total without a pool when pools are not aggregated.
pub open spec fn spec_total_group(e: (u64, u64, Seq<char>, Option<Seq<char>>, u64, Seq<char>), agg: bool) -> Option<Seq<char>> {
    if agg {
        Some(e.2)
    } else {
        match e.3 {
            Some(pa) => Some(e.2 + seq!['_'] + spec_pool_name(pa)),
            None => None,
        }
    }
}

/// The running key of a point: its markout time, joined by `_` to its pool
/// name when pools are not aggregated.
pub open spec fn spec_point_group(p: (u64, Seq<char>, Option<Seq<char>>, Option<Seq<char>>, u64), agg: bool) -> Seq<char> {
    if agg {
        p.1
    } else {
        p.1 + seq!['_'] + p.2.unwrap()
    }
}

/// Whether an interval total counts toward group `g`: its block lies in
/// `[start, end]` and is at most `cap`, and it adds to `g`.
pub open spec fn spec_counts_toward(
    e: (u64, u64, Seq<char>, Option<Seq<char>>, u64, Seq<char>),
    g: Seq<char>,
    start: u64,
    end: u64,
    agg: bool,
    cap: int,
) -> bool {
    &&& start <= spec_total_block(e) <= end
    &&& spec_total_block(e) <= cap
    &&& spec_total_group(e, agg) == Some(g)
}

/// The sum of the LVR of the interval totals that count toward group `g`
/// up to block `cap`.
pub open spec fn spec_group_sum(
    s: Seq<(u64, u64, Seq<char>, Option<Seq<char>>, u64, Seq<char>)>,
    g: Seq<char>,
    start: u64,
    end: u64,
    agg: bool,
    cap: int,
) -> int
    decreases s.len(),
{
    if s.len() == 0 {
        0
    } else {
        spec_group_sum(s.drop_last(), g, start, end, agg, cap) + if spec_counts_toward(s.last(), g, start, end, agg, cap) {
            s.last().4 as int
        } else {
            0int
        }
    }
}

/// Whether, within each group, the interval totals lie at distinct block
/// keys and their blocks follow the order of their block keys.
pub open spec fn spec_groups_follow_keys(s: Seq<(u64, u64, Seq<char>, Option<Seq<char>>, u64, Seq<char>)>, agg: bool) -> bool {
    forall|i: int, j: int|
        #![trigger s[i], s[j]]
        0 <= i < s.len() && 0 <= j < s.len() && i != j && spec_total_group(s[i], agg) is Some
            && spec_total_group(s[i], agg) == spec_total_group(s[j], agg)
            ==> spec_block_key(s[i]) != spec_block_key(s[j])
                && (spec_block_key(s[i]) < spec_block_key(s[j]) ==> spec_total_block(s[i]) < spec_total_block(s[j]))
}

/// Whether, within each group, later interval totals lie at later blocks.
pub open spec fn spec_groups_rise(s: Seq<(u64, u64, Seq<char>, Option<Seq<char>>, u64, Seq<char>)>, agg: bool) -> bool {
    forall|i: int, j: int|
        #![trigger s[i], s[j]]
        0 <= i < j < s.len() && spec_total_group(s[i], agg) is Some
            && spec_total_group(s[i], agg) == spec_total_group(s[j], agg)
            ==> spec_total_block(s[i]) < spec_total_block(s[j])
}

/// Whether the whole sum of each group in `[start, end]` fits in 64 bits.
pub open spec fn spec_group_sums_fit(
    s: Seq<(u64, u64, Seq<char>, Option<Seq<char>>, u64, Seq<char>)>,
    start: u64,
    end: u64,
    agg: bool,
) -> bool {
    forall|k: int|
        0 <= k < s.len() && (#[trigger] spec_total_group(s[k], agg)) is Some
            ==> spec_group_sum(s, spec_total_group(s[k], agg).unwrap(), start, end, agg, end as int) <= u64::MAX
}

/// The value an association list holds for `key`; zero when it has none.
pub open spec fn spec_assoc_value(l: Seq<(Seq<char>, u64)>, key: Seq<char>) -> int {
    match spec_assoc_find(l, key, 0) {
        Some(j) => l[j].1 as int,
        None => 0,
    }
}

/// Replacing an entry by one with the same key leaves every search as it
/// was.
proof fn lemma_assoc_find_same_keys(l: Seq<(Seq<char>, u64)>, j: int, x: (Seq<char>, u64), key: Seq<char>, i: int)
    requires
        0 <= j < l.len(),
        l[j].0 == x.0,
    ensures
        spec_assoc_find(l.update(j, x), key, i) == spec_assoc_find(l, key, i),
    decreases l.len() - i,
{
    if 0 <= i < l.len() {
        assert(l.update(j, x)[i].0 == l[i].0);
        lemma_assoc_find_same_keys(l, j, x, key, i + 1);
    }
}

/// A pushed entry is found only where the list held no entry for its key.
proof fn lemma_assoc_find_push(l: Seq<(Seq<char>, u64)>, x: (Seq<char>, u64), key: Seq<char>, i: int)
    requires
        0 <= i <= l.len(),
    ensures
        spec_assoc_find(l.push(x), key, i) == match spec_assoc_find(l, key, i) {
            Some(q) => Some(q),
            None => if x.0 == key { Some(l.len() as int) } else { None },
        },
    decreases l.len() - i,
{
    if i < l.len() {
        assert(l.push(x)[i] == l[i]);
        lemma_assoc_find_push(l, x, key, i + 1);
    } else {
        assert(l.push(x)[i] == x);
        assert(spec_assoc_find(l.push(x), key, i + 1) is None);
        assert(spec_assoc_find(l, key, i) is None);
    }
}

/// Setting `key` to `v` changes the value of `key` alone.
proof fn lemma_assoc_put_value(l: Seq<(Seq<char>, u64)>, key: Seq<char>, v: u64, other: Seq<char>)
    ensures
        spec_assoc_value(spec_assoc_put(l, key, v), other) == if other == key { v as int } else { spec_assoc_value(l, other) },
{
    match spec_assoc_find(l, key, 0) {
        Some(j) => {
            crate::running::lemma_assoc_found(l, key, 0, j);
            lemma_assoc_find_same_keys(l, j, (key, v), other, 0);
            if other != key {
                match spec_assoc_find(l, other, 0) {
                    Some(q) => {
                        crate::running::lemma_assoc_found(l, other, 0, q);
                    },
                    None => {},
                }
            }
        },
        None => {
            lemma_assoc_find_push(l, (key, v), other, 0);
            match spec_assoc_find(l, other, 0) {
                Some(q) => {
                    crate::running::lemma_assoc_found(l, other, 0, q);
                },
                None => {},
            }
        },
    }
}

/// Group sums are never negative, and adding a total never lowers one.
proof fn lemma_group_sum_nonneg(
    s: Seq<(u64, u64, Seq<char>, Option<Seq<char>>, u64, Seq<char>)>,
    g: Seq<char>,
    start: u64,
    end: u64,
    agg: bool,
    cap: int,
)
    ensures
        spec_group_sum(s, g, start, end, agg, cap) >= 0,
        s.len() > 0 ==> spec_group_sum(s.drop_last(), g, start, end, agg, cap) <= spec_group_sum(s, g, start, end, agg, cap),
    decreases s.len(),
{
    if s.len() > 0 {
        lemma_group_sum_nonneg(s.drop_last(), g, start, end, agg, cap);
    }
}

/// A raised cap adds nothing where no total of the group lies beyond the
/// lower one.
proof fn lemma_group_sum_cap(
    s: Seq<(u64, u64, Seq<char>, Option<Seq<char>>, u64, Seq<char>)>,
    g: Seq<char>,
    start: u64,
    end: u64,
    agg: bool,
    low: int,
    high: int,
)
    requires
        low <= high,
        forall|w: int| 0 <= w < s.len() && spec_counts_toward(#[trigger] s[w], g, start, end, agg, high)
            ==> spec_total_block(s[w]) <= low,
    ensures
        spec_group_sum(s, g, start, end, agg, low) == spec_group_sum(s, g, start, end, agg, high),
    decreases s.len(),
{
    if s.len() > 0 {
        let d = s.drop_last();
        assert forall|w: int| 0 <= w < d.len() && spec_counts_toward(#[trigger] d[w], g, start, end, agg, high)
            implies spec_total_block(d[w]) <= low by {
            assert(d[w] == s[w]);
        }
        lemma_group_sum_cap(d, g, start, end, agg, low, high);
        if spec_counts_toward(s.last(), g, start, end, agg, high) {
            assert(spec_counts_toward(s[s.len() - 1], g, start, end, agg, high));
        }
    }
}

/// A group's sum grows with the cap.
proof fn lemma_group_sum_mono(
    s: Seq<(u64, u64, Seq<char>, Option<Seq<char>>, u64, Seq<char>)>,
    g: Seq<char>,
    start: u64,
    end: u64,
    agg: bool,
    low: int,
    high: int,
)
    requires
        low <= high,
    ensures
        spec_group_sum(s, g, start, end, agg, low) <= spec_group_sum(s, g, start, end, agg, high),
    decreases s.len(),
{
    if s.len() > 0 {
        lemma_group_sum_mono(s.drop_last(), g, start, end, agg, low, high);
    }
}

/// Whether every point holds its group's sum up to its block, and that
/// block is the block of some total of its group.
pub open spec fn spec_points_hold_sums(
    t: Seq<(u64, u64, Seq<char>, Option<Seq<char>>, u64, Seq<char>)>,
    out: Seq<(u64, Seq<char>, Option<Seq<char>>, Option<Seq<char>>, u64)>,
    start: u64,
    end: u64,
    agg: bool,
) -> bool {
    forall|k: int| 0 <= k < out.len() ==> {
        &&& (#[trigger] out[k]).4 == spec_group_sum(t, spec_point_group(out[k], agg), start, end, agg, out[k].0 as int)
        &&& exists|w: int| 0 <= w < t.len() && spec_counts_toward(#[trigger] t[w], spec_point_group(out[k], agg), start, end, agg, end as int)
            && spec_total_block(t[w]) == out[k].0
    }
}

/// What the running totals hold after a prefix of interval totals whose
/// groups rise: each key's value is its group's sum, and each point holds
/// its group's sum up to its block.
pub open spec fn spec_running_holds_sums(
    t: Seq<(u64, u64, Seq<char>, Option<Seq<char>>, u64, Seq<char>)>,
    start: u64,
    end: u64,
    agg: bool,
) -> bool {
    &&& forall|g: Seq<char>|
        #![trigger spec_assoc_value(spec_running(t, start, end, agg).0, g)]
        spec_assoc_value(spec_running(t, start, end, agg).0, g) == spec_group_sum(t, g, start, end, agg, end as int)
    &&& spec_points_hold_sums(t, spec_running(t, start, end, agg).1, start, end, agg)
}

/// A total that does not count toward `g` leaves the sum of `g` as it was.
proof fn lemma_group_sum_last(
    t: Seq<(u64, u64, Seq<char>, Option<Seq<char>>, u64, Seq<char>)>,
    g: Seq<char>,
    start: u64,
    end: u64,
    agg: bool,
    cap: int,
)
    requires
        t.len() > 0,
    ensures
        spec_group_sum(t, g, start, end, agg, cap) == spec_group_sum(t.drop_last(), g, start, end, agg, cap)
            + if spec_counts_toward(t.last(), g, start, end, agg, cap) { t.last().4 as int } else { 0int },
{
}

/// One step of the running totals keeps what they hold.
proof fn lemma_running_step_sums(
    t: Seq<(u64, u64, Seq<char>, Option<Seq<char>>, u64, Seq<char>)>,
    start: u64,
    end: u64,
    agg: bool,
)
    requires
        t.len() > 0,
        spec_running_holds_sums(t.drop_last(), start, end, agg),
        spec_groups_rise(t, agg),
        spec_total_group(t.last(), agg) is Some
            ==> spec_group_sum(t, spec_total_group(t.last(), agg).unwrap(), start, end, agg, end as int) <= u64::MAX,
    ensures
        spec_running_holds_sums(t, start, end, agg),
{
    let d = t.drop_last();
    let e = t.last();
    let n = t.len() - 1;
    assert(e == t[n]);
    let st = spec_running(d, start, end, agg);
    let r = spec_running(t, start, end, agg);
    assert(r == spec_running_step(st, e, start, end, agg));
    let blk = spec_total_block(e);
    let out = st.1;
    if !(start <= blk && blk <= end) || spec_total_group(e, agg) is None {
        assert(r == st);
        assert forall|g: Seq<char>| #![trigger spec_assoc_value(r.0, g)]
            spec_assoc_value(r.0, g) == spec_group_sum(t, g, start, end, agg, end as int) by {
            lemma_group_sum_last(t, g, start, end, agg, end as int);
            assert(spec_assoc_value(st.0, g) == spec_group_sum(d, g, start, end, agg, end as int));
        }
        assert forall|k: int| 0 <= k < out.len() implies {
            &&& (#[trigger] out[k]).4 == spec_group_sum(t, spec_point_group(out[k], agg), start, end, agg, out[k].0 as int)
            &&& exists|w: int| 0 <= w < t.len() && spec_counts_toward(#[trigger] t[w], spec_point_group(out[k], agg), start, end, agg, end as int)
                && spec_total_block(t[w]) == out[k].0
        } by {
            let pg = spec_point_group(out[k], agg);
            lemma_group_sum_last(t, pg, start, end, agg, out[k].0 as int);
            let w = choose|w: int| 0 <= w < d.len() && spec_counts_toward(#[trigger] d[w], pg, start, end, agg, end as int)
                && spec_total_block(d[w]) == out[k].0;
            assert(t[w] == d[w]);
        }
    } else {
        let g0 = spec_total_group(e, agg).unwrap();
        let l = st.0;
        let cur = spec_running_value(l, g0, e.4);
        lemma_group_sum_last(t, g0, start, end, agg, end as int);
        lemma_group_sum_nonneg(d, g0, start, end, agg, end as int);
        assert(spec_assoc_value(l, g0) == spec_group_sum(d, g0, start, end, agg, end as int));
        match spec_assoc_find(l, g0, 0) {
            Some(j) => {},
            None => {},
        }
        assert(cur == spec_group_sum(t, g0, start, end, agg, end as int));
        assert(r.0 == spec_assoc_put(l, g0, cur));
        assert forall|g: Seq<char>| #![trigger spec_assoc_value(r.0, g)]
            spec_assoc_value(r.0, g) == spec_group_sum(t, g, start, end, agg, end as int) by {
            lemma_assoc_put_value(l, g0, cur, g);
            lemma_group_sum_last(t, g, start, end, agg, end as int);
            assert(spec_assoc_value(l, g) == spec_group_sum(d, g, start, end, agg, end as int));
        }
        // the points already there keep their sums: the new total lies
        // after every earlier total of its group
        assert forall|k: int| 0 <= k < out.len() implies {
            &&& (#[trigger] out[k]).4 == spec_group_sum(t, spec_point_group(out[k], agg), start, end, agg, out[k].0 as int)
            &&& exists|w: int| 0 <= w < t.len() && spec_counts_toward(#[trigger] t[w], spec_point_group(out[k], agg), start, end, agg, end as int)
                && spec_total_block(t[w]) == out[k].0
        } by {
            let pg = spec_point_group(out[k], agg);
            lemma_group_sum_last(t, pg, start, end, agg, out[k].0 as int);
            let w = choose|w: int| 0 <= w < d.len() && spec_counts_toward(#[trigger] d[w], pg, start, end, agg, end as int)
                && spec_total_block(d[w]) == out[k].0;
            assert(t[w] == d[w]);
            if pg == g0 {
                assert(spec_total_block(t[w]) < spec_total_block(t[n]));
            }
        }
        // a new point holds the whole sum of its group, all of whose totals
        // lie at or before it
        assert forall|w: int| 0 <= w < t.len() && spec_counts_toward(#[trigger] t[w], g0, start, end, agg, end as int)
            implies spec_total_block(t[w]) <= blk by {
            if w < n {
                assert(spec_total_block(t[w]) < spec_total_block(t[n]));
            }
        }
        lemma_group_sum_cap(t, g0, start, end, agg, blk, end as int);
        assert(spec_counts_toward(t[n], g0, start, end, agg, end as int));
        if r.1 != out {
            assert forall|k: int| 0 <= k < r.1.len() implies {
                &&& (#[trigger] r.1[k]).4 == spec_group_sum(t, spec_point_group(r.1[k], agg), start, end, agg, r.1[k].0 as int)
                &&& exists|w: int| 0 <= w < t.len() && spec_counts_toward(#[trigger] t[w], spec_point_group(r.1[k], agg), start, end, agg, end as int)
                    && spec_total_block(t[w]) == r.1[k].0
            } by {
                if k < out.len() {
                    assert(r.1[k] == out[k]);
                } else {
                    assert(spec_point_group(r.1[k], agg) == g0);
                    assert(r.1[k].0 as int == blk);
                }
            }
        }
    }
}

/// Over interval totals whose groups rise and whose sums fit, the running
/// totals hold their groups' sums.
proof fn lemma_running_sums(
    t: Seq<(u64, u64, Seq<char>, Option<Seq<char>>, u64, Seq<char>)>,
    start: u64,
    end: u64,
    agg: bool,
)
    requires
        spec_groups_rise(t, agg),
        spec_group_sums_fit(t, start, end, agg),
    ensures
        spec_running_holds_sums(t, start, end, agg),
    decreases t.len(),
{
    if t.len() == 0 {
        assert forall|g: Seq<char>| #![trigger spec_assoc_value(spec_running(t, start, end, agg).0, g)]
            spec_assoc_value(spec_running(t, start, end, agg).0, g) == spec_group_sum(t, g, start, end, agg, end as int) by {
            assert(spec_assoc_find(Seq::<(Seq<char>, u64)>::empty(), g, 0) is None);
        }
    } else {
        let d = t.drop_last();
        assert forall|i: int, j: int|
            #![trigger d[i], d[j]]
            0 <= i < j < d.len() && spec_total_group(d[i], agg) is Some
                && spec_total_group(d[i], agg) == spec_total_group(d[j], agg)
                implies spec_total_block(d[i]) < spec_total_block(d[j]) by {
            assert(d[i] == t[i] && d[j] == t[j]);
        }
        assert forall|k: int| 0 <= k < d.len() && (#[trigger] spec_total_group(d[k], agg)) is Some
            implies spec_group_sum(d, spec_total_group(d[k], agg).unwrap(), start, end, agg, end as int) <= u64::MAX by {
            assert(d[k] == t[k]);
            assert(spec_total_group(t[k], agg) is Some);
            lemma_group_sum_nonneg(t, spec_total_group(d[k], agg).unwrap(), start, end, agg, end as int);
        }
        lemma_running_sums(d, start, end, agg);
        assert(t.last() == t[t.len() - 1]);
        lemma_running_step_sums(t, start, end, agg);
    }
}

/// Where a stable insertion by block key puts `x`: every element from the
/// slot on has a larger key, and the one just before it does not.
proof fn lemma_block_slot_split(
    t: Seq<(u64, u64, Seq<char>, Option<Seq<char>>, u64, Seq<char>)>,
    x: (u64, u64, Seq<char>, Option<Seq<char>>, u64, Seq<char>),
)
    ensures
        0 <= spec_block_slot(t, x) <= t.len(),
        forall|q: int| spec_block_slot(t, x) <= q < t.len() ==> spec_block_key(x) < spec_block_key(#[trigger] t[q]),
        spec_block_slot(t, x) > 0 ==> spec_block_key(t[spec_block_slot(t, x) - 1]) <= spec_block_key(x),
    decreases t.len(),
{
    if t.len() > 0 && spec_block_key(t.last()) > spec_block_key(x) {
        let d = t.drop_last();
        lemma_block_slot_split(d, x);
        assert forall|q: int| spec_block_slot(t, x) <= q < t.len() implies spec_block_key(x) < spec_block_key(#[trigger] t[q]) by {
            if q < d.len() {
                assert(t[q] == d[q]);
            }
        }
        if spec_block_slot(d, x) > 0 {
            assert(t[spec_block_slot(d, x) - 1] == d[spec_block_slot(d, x) - 1]);
        }
    }
}

/// Sorting by block key orders the totals by block key.
proof fn lemma_sort_by_block_sorted(s: Seq<(u64, u64, Seq<char>, Option<Seq<char>>, u64, Seq<char>)>)
    ensures
        forall|i: int, j: int| 0 <= i < j < spec_sort_by_block(s).len()
            ==> spec_block_key(#[trigger] spec_sort_by_block(s)[i]) <= spec_block_key(#[trigger] spec_sort_by_block(s)[j]),
    decreases s.len(),
{
    if s.len() > 0 {
        let t = spec_sort_by_block(s.drop_last());
        let x = s.last();
        lemma_sort_by_block_sorted(s.drop_last());
        lemma_block_slot_split(t, x);
        let p = spec_block_slot(t, x);
        let r = t.insert(p, x);
        assert(r == spec_sort_by_block(s));
        assert forall|i: int, j: int| 0 <= i < j < r.len() implies spec_block_key(#[trigger] r[i]) <= spec_block_key(#[trigger] r[j]) by {
            let ti = if i < p { i } else { i - 1 };
            let tj = if j < p { j } else { j - 1 };
            if i == p {
                assert(r[j] == t[j - 1]);
            } else if j == p {
                assert(r[i] == t[i]);
                if i < p - 1 {
                    assert(spec_block_key(t[i]) <= spec_block_key(t[p - 1]));
                }
            } else {
                assert(r[i] == t[ti]);
                assert(r[j] == t[tj]);
            }
        }
    }
}

/// Sorting by block key makes the blocks of each group rise, where within
/// each group block keys are distinct and blocks follow them.
proof fn lemma_sort_by_block_rise(s: Seq<(u64, u64, Seq<char>, Option<Seq<char>>, u64, Seq<char>)>, agg: bool)
    requires
        spec_groups_follow_keys(s, agg),
    ensures
        spec_groups_rise(spec_sort_by_block(s), agg),
    decreases s.len(),
{
    if s.len() > 0 {
        let d = s.drop_last();
        let n = s.len() - 1;
        let x = s.last();
        assert(x == s[n]);
        assert forall|i: int, j: int|
            #![trigger d[i], d[j]]
            0 <= i < d.len() && 0 <= j < d.len() && i != j && spec_total_group(d[i], agg) is Some
                && spec_total_group(d[i], agg) == spec_total_group(d[j], agg)
                implies spec_block_key(d[i]) != spec_block_key(d[j])
                    && (spec_block_key(d[i]) < spec_block_key(d[j]) ==> spec_total_block(d[i]) < spec_total_block(d[j])) by {
            assert(d[i] == s[i] && d[j] == s[j]);
        }
        lemma_sort_by_block_rise(d, agg);
        let t = spec_sort_by_block(d);
        lemma_sort_by_block_sorted(d);
        lemma_sort_by_block_members(d);
        lemma_block_slot_split(t, x);
        let p = spec_block_slot(t, x);
        let r = t.insert(p, x);
        assert(r == spec_sort_by_block(s));
        assert forall|i: int, j: int|
            #![trigger r[i], r[j]]
            0 <= i < j < r.len() && spec_total_group(r[i], agg) is Some
                && spec_total_group(r[i], agg) == spec_total_group(r[j], agg)
                implies spec_total_block(r[i]) < spec_total_block(r[j]) by {
            if i == p {
                assert(r[j] == t[j - 1]);
                assert(d.contains(t[j - 1]));
                let w = choose|w: int| 0 <= w < d.len() && d[w] == t[j - 1];
                assert(s[w] == d[w]);
                assert(spec_block_key(s[n]) < spec_block_key(s[w]));
            } else if j == p {
                assert(r[i] == t[i]);
                if i < p - 1 {
                    assert(spec_block_key(t[i]) <= spec_block_key(t[p - 1]));
                }
                assert(d.contains(t[i]));
                let w = choose|w: int| 0 <= w < d.len() && d[w] == t[i];
                assert(s[w] == d[w]);
                assert(spec_block_key(s[w]) != spec_block_key(s[n]));
            } else {
                let ti = if i < p { i } else { i - 1 };
                let tj = if j < p { j } else { j - 1 };
                assert(r[i] == t[ti]);
                assert(r[j] == t[tj]);
            }
        }
    }
}

/// Inserting a total anywhere adds its share to each group's sum.
proof fn lemma_group_sum_insert(
    t: Seq<(u64, u64, Seq<char>, Option<Seq<char>>, u64, Seq<char>)>,
    p: int,
    x: (u64, u64, Seq<char>, Option<Seq<char>>, u64, Seq<char>),
    g: Seq<char>,
    start: u64,
    end: u64,
    agg: bool,
    cap: int,
)
    requires
        0 <= p <= t.len(),
    ensures
        spec_group_sum(t.insert(p, x), g, start, end, agg, cap) == spec_group_sum(t, g, start, end, agg, cap)
            + if spec_counts_toward(x, g, start, end, agg, cap) { x.4 as int } else { 0int },
    decreases t.len(),
{
    let r = t.insert(p, x);
    if p == t.len() {
        assert(r.drop_last() =~= t);
        assert(r.last() == x);
    } else {
        assert(r.drop_last() =~= t.drop_last().insert(p, x));
        assert(r.last() == t.last());
        lemma_group_sum_insert(t.drop_last(), p, x, g, start, end, agg, cap);
    }
}

/// Sorting by block key keeps each group's sum.
proof fn lemma_group_sum_sort(
    s: Seq<(u64, u64, Seq<char>, Option<Seq<char>>, u64, Seq<char>)>,
    g: Seq<char>,
    start: u64,
    end: u64,
    agg: bool,
    cap: int,
)
    ensures
        spec_group_sum(spec_sort_by_block(s), g, start, end, agg, cap) == spec_group_sum(s, g, start, end, agg, cap),
    decreases s.len(),
{
    if s.len() > 0 {
        let t = spec_sort_by_block(s.drop_last());
        lemma_group_sum_sort(s.drop_last(), g, start, end, agg, cap);
        lemma_block_slot_bounds(t, s.last());
        lemma_group_sum_insert(t, spec_block_slot(t, s.last()), s.last(), g, start, end, agg, cap);
    }
}

/// Sorting points keeps only points that were there.
proof fn lemma_sort_points_members(s: Seq<(u64, Seq<char>, Option<Seq<char>>, Option<Seq<char>>, u64)>)
    ensures
        spec_sort_points(s).len() == s.len(),
        forall|k: int| 0 <= k < s.len() ==> s.contains(#[trigger] spec_sort_points(s)[k]),
    decreases s.len(),
{
    if s.len() > 0 {
        let d = s.drop_last();
        lemma_sort_points_members(d);
        let t = spec_sort_points(d);
        lemma_point_slot_in(t, s.last());
        let p = spec_point_slot(t, s.last());
        let r = t.insert(p, s.last());
        assert(r == spec_sort_points(s));
        assert forall|k: int| 0 <= k < s.len() implies s.contains(#[trigger] r[k]) by {
            if k == p {
                assert(r[k] == s[s.len() - 1]);
            } else {
                let tk = if k < p { k } else { k - 1 };
                assert(r[k] == t[tk]);
                assert(d.contains(t[tk]));
                let w = choose|w: int| 0 <= w < d.len() && d[w] == t[tk];
                assert(s[w] == d[w]);
            }
        }
    }
}

/// Whether every counted interval total with some LVR has a point of its
/// group at its block, and the points of a group lie at rising blocks.
pub open spec fn spec_points_cover(
    t: Seq<(u64, u64, Seq<char>, Option<Seq<char>>, u64, Seq<char>)>,
    out: Seq<(u64, Seq<char>, Option<Seq<char>>, Option<Seq<char>>, u64)>,
    start: u64,
    end: u64,
    agg: bool,
) -> bool {
    &&& forall|w: int|
        0 <= w < t.len() && (#[trigger] spec_total_group(t[w], agg)) is Some
            && start <= spec_total_block(t[w]) <= end && t[w].4 > 0
            ==> exists|k: int| 0 <= k < out.len() && (#[trigger] out[k]).0 == spec_total_block(t[w])
                && Some(spec_point_group(out[k], agg)) == spec_total_group(t[w], agg)
    &&& forall|i: int, j: int|
        #![trigger out[i], out[j]]
        0 <= i < j < out.len() && spec_point_group(out[i], agg) == spec_point_group(out[j], agg)
            ==> out[i].0 < out[j].0
}

/// One step of the running totals keeps the points covering the totals.
proof fn lemma_running_step_cover(
    t: Seq<(u64, u64, Seq<char>, Option<Seq<char>>, u64, Seq<char>)>,
    start: u64,
    end: u64,
    agg: bool,
)
    requires
        t.len() > 0,
        spec_running_holds_sums(t.drop_last(), start, end, agg),
        spec_points_cover(t.drop_last(), spec_running(t.drop_last(), start, end, agg).1, start, end, agg),
        spec_groups_rise(t, agg),
        spec_total_group(t.last(), agg) is Some
            ==> spec_group_sum(t, spec_total_group(t.last(), agg).unwrap(), start, end, agg, end as int) <= u64::MAX,
    ensures
        spec_points_cover(t, spec_running(t, start, end, agg).1, start, end, agg),
{
    let d = t.drop_last();
    let e = t.last();
    let n = t.len() - 1;
    assert(e == t[n]);
    let st = spec_running(d, start, end, agg);
    let r = spec_running(t, start, end, agg);
    assert(r == spec_running_step(st, e, start, end, agg));
    let blk = spec_total_block(e);
    let out = st.1;
    let ro = r.1;
    // the old points stay where they were
    assert(ro.len() >= out.len());
    assert forall|k: int| 0 <= k < out.len() implies ro[k] == out[k] by {
        if ro != out {
            assert(ro[k] == out[k]);
        }
    }
    let counted = spec_total_group(e, agg) is Some && start <= blk && blk <= end;
    if counted {
        let g0 = spec_total_group(e, agg).unwrap();
        lemma_group_sum_last(t, g0, start, end, agg, end as int);
        assert(spec_assoc_value(st.0, g0) == spec_group_sum(d, g0, start, end, agg, end as int));
        match spec_assoc_find(st.0, g0, 0) {
            Some(j) => {},
            None => {},
        }
        let cur = spec_running_value(st.0, g0, e.4);
        assert(cur == spec_group_sum(t, g0, start, end, agg, end as int));
        if e.4 > 0 && out.len() > 0 {
            // the last point, if of the same group, holds less than the new
            // value, so a new point is emitted
            let last = out.last();
            assert(last == out[out.len() - 1]);
            let pg = spec_point_group(last, agg);
            let w = choose|w: int| 0 <= w < d.len() && spec_counts_toward(#[trigger] d[w], pg, start, end, agg, end as int)
                && spec_total_block(d[w]) == last.0;
            lemma_group_sum_mono(d, pg, start, end, agg, last.0 as int, end as int);
            if !agg && last.1 == e.2 && last.2 == Some(spec_pool_name(e.3.unwrap())) {
                assert(pg == g0);
            }
            if agg && last.1 == e.2 {
                assert(pg == g0);
            }
        }
        if e.4 > 0 {
            assert(ro.len() == out.len() + 1);
        }
        if ro.len() == out.len() + 1 {
            assert(ro[out.len() as int].0 as int == blk);
            assert(spec_point_group(ro[out.len() as int], agg) == g0);
        }
    } else {
        assert(ro == out);
    }
    assert forall|w: int|
        0 <= w < t.len() && (#[trigger] spec_total_group(t[w], agg)) is Some
            && start <= spec_total_block(t[w]) <= end && t[w].4 > 0
            implies exists|k: int| 0 <= k < ro.len() && (#[trigger] ro[k]).0 == spec_total_block(t[w])
                && Some(spec_point_group(ro[k], agg)) == spec_total_group(t[w], agg) by {
        if w < n {
            assert(t[w] == d[w]);
            assert(spec_total_group(d[w], agg) is Some);
            let k = choose|k: int| 0 <= k < out.len() && (#[trigger] out[k]).0 == spec_total_block(d[w])
                && Some(spec_point_group(out[k], agg)) == spec_total_group(d[w], agg);
            assert(ro[k] == out[k]);
        } else {
            assert(ro[out.len() as int] == ro[out.len() as int]);
        }
    }
    assert forall|i: int, j: int|
        #![trigger ro[i], ro[j]]
        0 <= i < j < ro.len() && spec_point_group(ro[i], agg) == spec_point_group(ro[j], agg)
            implies ro[i].0 < ro[j].0 by {
        if j < out.len() {
            assert(ro[i] == out[i] && ro[j] == out[j]);
        } else {
            assert(ro[i] == out[i]);
            let pg = spec_point_group(out[i], agg);
            let w = choose|w: int| 0 <= w < d.len() && spec_counts_toward(#[trigger] d[w], pg, start, end, agg, end as int)
                && spec_total_block(d[w]) == out[i].0;
            assert(t[w] == d[w]);
            assert(spec_total_block(t[w]) < spec_total_block(t[n]));
        }
    }
}

/// Over interval totals whose groups rise and whose sums fit, the points
/// cover the totals.
proof fn lemma_running_cover(
    t: Seq<(u64, u64, Seq<char>, Option<Seq<char>>, u64, Seq<char>)>,
    start: u64,
    end: u64,
    agg: bool,
)
    requires
        spec_groups_rise(t, agg),
        spec_group_sums_fit(t, start, end, agg),
    ensures
        spec_points_cover(t, spec_running(t, start, end, agg).1, start, end, agg),
    decreases t.len(),
{
    if t.len() > 0 {
        let d = t.drop_last();
        assert forall|i: int, j: int|
            #![trigger d[i], d[j]]
            0 <= i < j < d.len() && spec_total_group(d[i], agg) is Some
                && spec_total_group(d[i], agg) == spec_total_group(d[j], agg)
                implies spec_total_block(d[i]) < spec_total_block(d[j]) by {
            assert(d[i] == t[i] && d[j] == t[j]);
        }
        assert forall|k: int| 0 <= k < d.len() && (#[trigger] spec_total_group(d[k], agg)) is Some
            implies spec_group_sum(d, spec_total_group(d[k], agg).unwrap(), start, end, agg, end as int) <= u64::MAX by {
            assert(d[k] == t[k]);
            assert(spec_total_group(t[k], agg) is Some);
            lemma_group_sum_nonneg(t, spec_total_group(d[k], agg).unwrap(), start, end, agg, end as int);
        }
        lemma_running_cover(d, start, end, agg);
        lemma_running_sums(d, start, end, agg);
        assert(t.last() == t[t.len() - 1]);
        lemma_running_step_cover(t, start, end, agg);
    }
}

/// Each running-total point holds the sum of the LVR of its group's
/// interval totals that lie in `[start, end]` at or before its block, so
/// within a group a point at a later block never holds less. A group is the
/// markout time, joined by `_` to the pool's name when pools are not
/// aggregated. This holds where, within each group, the totals lie at
/// distinct block keys, their blocks follow the order of their block keys,
/// and no group's sum overflows.
pub proof fn lemma_running_point_sums(
    s: Seq<(u64, u64, Seq<char>, Option<Seq<char>>, u64, Seq<char>)>,
    start: u64,
    end: u64,
    agg: bool,
)
    requires
        spec_groups_follow_keys(s, agg),
        spec_group_sums_fit(s, start, end, agg),
    ensures
        forall|k: int| 0 <= k < spec_process(s, start, end, agg).len()
            ==> (#[trigger] spec_process(s, start, end, agg)[k]).4 == spec_group_sum(
                s,
                spec_point_group(spec_process(s, start, end, agg)[k], agg),
                start,
                end,
                agg,
                spec_process(s, start, end, agg)[k].0 as int,
            ),
        forall|i: int, k: int|
            0 <= i < spec_process(s, start, end, agg).len() && 0 <= k < spec_process(s, start, end, agg).len()
                && spec_point_group(#[trigger] spec_process(s, start, end, agg)[i], agg)
                    == spec_point_group(#[trigger] spec_process(s, start, end, agg)[k], agg)
                && spec_process(s, start, end, agg)[i].0 <= spec_process(s, start, end, agg)[k].0
                ==> spec_process(s, start, end, agg)[i].4 <= spec_process(s, start, end, agg)[k].4,
{
    let t = spec_sort_by_block(s);
    lemma_sort_by_block_rise(s, agg);
    lemma_sort_by_block_members(s);
    assert forall|k: int| 0 <= k < t.len() && (#[trigger] spec_total_group(t[k], agg)) is Some
        implies spec_group_sum(t, spec_total_group(t[k], agg).unwrap(), start, end, agg, end as int) <= u64::MAX by {
        assert(s.contains(t[k]));
        let w = choose|w: int| 0 <= w < s.len() && s[w] == t[k];
        assert(spec_total_group(s[w], agg) is Some);
        lemma_group_sum_sort(s, spec_total_group(t[k], agg).unwrap(), start, end, agg, end as int);
    }
    lemma_running_sums(t, start, end, agg);
    let out = spec_running(t, start, end, agg).1;
    let pts = spec_process(s, start, end, agg);
    assert(pts == spec_sort_points(out));
    lemma_sort_points_members(out);
    assert forall|k: int| 0 <= k < pts.len() implies (#[trigger] pts[k]).4 == spec_group_sum(
        s, spec_point_group(pts[k], agg), start, end, agg, pts[k].0 as int) by {
        assert(out.contains(pts[k]));
        let w = choose|w: int| 0 <= w < out.len() && out[w] == pts[k];
        assert(out[w].4 == spec_group_sum(t, spec_point_group(out[w], agg), start, end, agg, out[w].0 as int));
        lemma_group_sum_sort(s, spec_point_group(pts[k], agg), start, end, agg, pts[k].0 as int);
    }
    assert forall|i: int, k: int|
        0 <= i < pts.len() && 0 <= k < pts.len()
            && spec_point_group(#[trigger] pts[i], agg) == spec_point_group(#[trigger] pts[k], agg)
            && pts[i].0 <= pts[k].0
            implies pts[i].4 <= pts[k].4 by {
        lemma_group_sum_mono(s, spec_point_group(pts[i], agg), start, end, agg, pts[i].0 as int, pts[k].0 as int);
    }
}

/// Sorting by block key keeps every total.
proof fn lemma_sort_by_block_keeps(s: Seq<(u64, u64, Seq<char>, Option<Seq<char>>, u64, Seq<char>)>)
    ensures
        forall|w: int| 0 <= w < s.len() ==> spec_sort_by_block(s).contains(#[trigger] s[w]),
    decreases s.len(),
{
    if s.len() > 0 {
        let d = s.drop_last();
        lemma_sort_by_block_keeps(d);
        let t = spec_sort_by_block(d);
        lemma_block_slot_bounds(t, s.last());
        let p = spec_block_slot(t, s.last());
        let r = t.insert(p, s.last());
        assert(r == spec_sort_by_block(s));
        assert forall|w: int| 0 <= w < s.len() implies r.contains(#[trigger] s[w]) by {
            if w < d.len() {
                assert(s[w] == d[w]);
                let q = choose|q: int| 0 <= q < t.len() && t[q] == d[w];
                if q < p {
                    assert(r[q] == t[q]);
                } else {
                    assert(r[q + 1] == t[q]);
                }
            } else {
                assert(r[p] == s[w]);
            }
        }
    }
}

/// Sorting points keeps every point.
proof fn lemma_sort_points_keeps(s: Seq<(u64, Seq<char>, Option<Seq<char>>, Option<Seq<char>>, u64)>)
    ensures
        forall|w: int| 0 <= w < s.len() ==> spec_sort_points(s).contains(#[trigger] s[w]),
    decreases s.len(),
{
    if s.len() > 0 {
        let d = s.drop_last();
        lemma_sort_points_keeps(d);
        let t = spec_sort_points(d);
        lemma_point_slot_in(t, s.last());
        let p = spec_point_slot(t, s.last());
        let r = t.insert(p, s.last());
        assert(r == spec_sort_points(s));
        assert forall|w: int| 0 <= w < s.len() implies r.contains(#[trigger] s[w]) by {
            if w < d.len() {
                assert(s[w] == d[w]);
                let q = choose|q: int| 0 <= q < t.len() && t[q] == d[w];
                if q < p {
                    assert(r[q] == t[q]);
                } else {
                    assert(r[q + 1] == t[q]);
                }
            } else {
                assert(r[p] == s[w]);
            }
        }
    }
}

/// Whether no two points of a group lie at the same block.
pub open spec fn spec_points_distinct(s: Seq<(u64, Seq<char>, Option<Seq<char>>, Option<Seq<char>>, u64)>, agg: bool) -> bool {
    forall|i: int, j: int|
        #![trigger s[i], s[j]]
        0 <= i < s.len() && 0 <= j < s.len() && i != j && spec_point_group(s[i], agg) == spec_point_group(s[j], agg)
            ==> s[i].0 != s[j].0
}

/// Sorting points keeps the points of a group at distinct blocks.
proof fn lemma_sort_points_distinct(s: Seq<(u64, Seq<char>, Option<Seq<char>>, Option<Seq<char>>, u64)>, agg: bool)
    requires
        spec_points_distinct(s, agg),
    ensures
        spec_points_distinct(spec_sort_points(s), agg),
    decreases s.len(),
{
    if s.len() > 0 {
        let d = s.drop_last();
        let n = s.len() - 1;
        assert forall|i: int, j: int|
            #![trigger d[i], d[j]]
            0 <= i < d.len() && 0 <= j < d.len() && i != j && spec_point_group(d[i], agg) == spec_point_group(d[j], agg)
                implies d[i].0 != d[j].0 by {
            assert(d[i] == s[i] && d[j] == s[j]);
        }
        lemma_sort_points_distinct(d, agg);
        lemma_sort_points_members(d);
        let t = spec_sort_points(d);
        let x = s.last();
        assert(x == s[n]);
        lemma_point_slot_in(t, x);
        let p = spec_point_slot(t, x);
        let r = t.insert(p, x);
        assert(r == spec_sort_points(s));
        assert forall|i: int, j: int|
            #![trigger r[i], r[j]]
            0 <= i < r.len() && 0 <= j < r.len() && i != j && spec_point_group(r[i], agg) == spec_point_group(r[j], agg)
                implies r[i].0 != r[j].0 by {
            if i == p || j == p {
                let o = if i == p { j } else { i };
                let to = if o < p { o } else { o - 1 };
                assert(r[o] == t[to]);
                assert(d.contains(t[to]));
                let w = choose|w: int| 0 <= w < d.len() && d[w] == t[to];
                assert(s[w] == d[w]);
                assert(r[p] == s[n]);
            } else {
                let ti = if i < p { i } else { i - 1 };
                let tj = if j < p { j } else { j - 1 };
                assert(r[i] == t[ti]);
                assert(r[j] == t[tj]);
            }
        }
    }
}

/// Every interval total in `[start, end]` that adds some LVR to a group
/// yields a point of that group at its block, and no two points of a group
/// lie at the same block: such a total yields exactly one point. This holds
/// where, within each group, the totals lie at distinct block keys, their
/// blocks follow the order of their block keys, and no group's sum
/// overflows.
pub proof fn lemma_running_points_cover(
    s: Seq<(u64, u64, Seq<char>, Option<Seq<char>>, u64, Seq<char>)>,
    start: u64,
    end: u64,
    agg: bool,
)
    requires
        spec_groups_follow_keys(s, agg),
        spec_group_sums_fit(s, start, end, agg),
    ensures
        forall|w: int|
            0 <= w < s.len() && (#[trigger] spec_total_group(s[w], agg)) is Some
                && start <= spec_total_block(s[w]) <= end && s[w].4 > 0
                ==> exists|k: int| 0 <= k < spec_process(s, start, end, agg).len()
                    && (#[trigger] spec_process(s, start, end, agg)[k]).0 == spec_total_block(s[w])
                    && Some(spec_point_group(spec_process(s, start, end, agg)[k], agg)) == spec_total_group(s[w], agg),
        spec_points_distinct(spec_process(s, start, end, agg), agg),
{
    let t = spec_sort_by_block(s);
    lemma_sort_by_block_rise(s, agg);
    lemma_sort_by_block_members(s);
    lemma_sort_by_block_keeps(s);
    assert forall|k: int| 0 <= k < t.len() && (#[trigger] spec_total_group(t[k], agg)) is Some
        implies spec_group_sum(t, spec_total_group(t[k], agg).unwrap(), start, end, agg, end as int) <= u64::MAX by {
        assert(s.contains(t[k]));
        let w = choose|w: int| 0 <= w < s.len() && s[w] == t[k];
        assert(spec_total_group(s[w], agg) is Some);
        lemma_group_sum_sort(s, spec_total_group(t[k], agg).unwrap(), start, end, agg, end as int);
    }
    lemma_running_cover(t, start, end, agg);
    let out = spec_running(t, start, end, agg).1;
    let pts = spec_process(s, start, end, agg);
    assert(pts == spec_sort_points(out));
    lemma_sort_points_keeps(out);
    assert forall|w: int|
        0 <= w < s.len() && (#[trigger] spec_total_group(s[w], agg)) is Some
            && start <= spec_total_block(s[w]) <= end && s[w].4 > 0
            implies exists|k: int| 0 <= k < pts.len() && (#[trigger] pts[k]).0 == spec_total_block(s[w])
                && Some(spec_point_group(pts[k], agg)) == spec_total_group(s[w], agg) by {
        assert(t.contains(s[w]));
        let v = choose|v: int| 0 <= v < t.len() && t[v] == s[w];
        assert(spec_total_group(t[v], agg) is Some);
        let k = choose|k: int| 0 <= k < out.len() && (#[trigger] out[k]).0 == spec_total_block(t[v])
            && Some(spec_point_group(out[k], agg)) == spec_total_group(t[v], agg);
        assert(pts.contains(out[k]));
        let q = choose|q: int| 0 <= q < pts.len() && pts[q] == out[k];
        assert(pts[q].0 == spec_total_block(s[w]));
    }
    assert forall|i: int, j: int|
        #![trigger out[i], out[j]]
        0 <= i < out.len() && 0 <= j < out.len() && i != j && spec_point_group(out[i], agg) == spec_point_group(out[j], agg)
            implies out[i].0 != out[j].0 by {
        if i < j {
            assert(out[i].0 < out[j].0);
        } else {
            assert(out[j].0 < out[i].0);
        }
    }
    lemma_sort_points_distinct(out, agg);
}

/// An interval file is skipped only when the block range in its name lies
/// wholly outside `[start, end]`: of two rows that differ only in their
/// files, where neither file's named range lies wholly outside the request
/// (or names none), one passes the tests exactly when the other does; and
/// a row whose file's range lies wholly outside never passes.
pub proof fn lemma_file_skipped_only_outside(
    r1: IntervalRow,
    r2: IntervalRow,
    start: u64,
    end: u64,
    agg: bool,
    pool: Option<Seq<char>>,
    markout: Option<Seq<char>>,
)
    requires
        r1.interval_id == r2.interval_id,
        r1.markout_time@ == r2.markout_time@,
        r1.pair_address@ == r2.pair_address@,
        r1.total_lvr_cents == r2.total_lvr_cents,
        r1.non_zero_count == r2.non_zero_count,
    ensures
        (match spec_interval_file_range(r1.file_path@) {
            Some((Some(a), Some(b))) => a <= end && start <= b,
            _ => true,
        }) && (match spec_interval_file_range(r2.file_path@) {
            Some((Some(a), Some(b))) => a <= end && start <= b,
            _ => true,
        }) ==> spec_row_passes(r1, start, end, agg, pool, markout) == spec_row_passes(r2, start, end, agg, pool, markout),
        (match spec_interval_file_range(r1.file_path@) {
            Some((Some(a), Some(b))) => a > end || b < start,
            _ => false,
        }) ==> !spec_row_passes(r1, start, end, agg, pool, markout),
{
}

/// A row counts toward a request exactly when it passes the request's tests
/// and its block lies in `[start, end]`.
pub proof fn lemma_selected_in_range(
    r: IntervalRow,
    start: u64,
    end: u64,
    agg: bool,
    pool: Option<Seq<char>>,
    markout: Option<Seq<char>>,
)
    ensures
        spec_row_selected(r, start, end, agg, pool, markout) <==> spec_row_passes(r, start, end, agg, pool, markout)
            && start <= crate::files::spec_block_number(start, r.interval_id, r.file_path@) <= end,
{
}

/// The LVR of the selected rows with key `key`, summed.
pub open spec fn spec_selected_cents(
    rows: Seq<IntervalRow>,
    key: (u64, u64, Seq<char>, Option<Seq<char>>),
    start: u64,
    end: u64,
    agg: bool,
    pool: Option<Seq<char>>,
    markout: Option<Seq<char>>,
) -> int
    decreases rows.len(),
{
    if rows.len() == 0 {
        0
    } else {
        spec_selected_cents(rows.drop_last(), key, start, end, agg, pool, markout)
            + if spec_row_selected(rows.last(), start, end, agg, pool, markout) && spec_row_key(rows.last(), start, agg) == key {
            rows.last().total_lvr_cents.unwrap() as int
        } else {
            0int
        }
    }
}

/// Whether some selected row has key `key`.
pub open spec fn spec_key_selected(
    rows: Seq<IntervalRow>,
    key: (u64, u64, Seq<char>, Option<Seq<char>>),
    start: u64,
    end: u64,
    agg: bool,
    pool: Option<Seq<char>>,
    markout: Option<Seq<char>>,
) -> bool {
    exists|w: int| 0 <= w < rows.len() && spec_row_selected(#[trigger] rows[w], start, end, agg, pool, markout)
        && spec_row_key(rows[w], start, agg) == key
}

/// The key of a collected total.
pub open spec fn spec_total_key(e: (u64, u64, Seq<char>, Option<Seq<char>>, u64, Seq<char>)) -> (u64, u64, Seq<char>, Option<Seq<char>>) {
    (e.0, e.1, e.2, e.3)
}

/// A found total has the key searched for.
proof fn lemma_find_total_found(
    es: Seq<(u64, u64, Seq<char>, Option<Seq<char>>, u64, Seq<char>)>,
    key: (u64, u64, Seq<char>, Option<Seq<char>>),
    i: int,
    j: int,
)
    requires
        spec_find_total(es, key, i) == Some(j),
    ensures
        i <= j < es.len(),
        spec_total_key(es[j]) == key,
    decreases es.len() - i,
{
    if 0 <= i < es.len() && spec_total_key(es[i]) != key {
        lemma_find_total_found(es, key, i + 1, j);
    }
}

/// Changing a total's value leaves every search as it was.
proof fn lemma_find_total_update(
    es: Seq<(u64, u64, Seq<char>, Option<Seq<char>>, u64, Seq<char>)>,
    j: int,
    x: (u64, u64, Seq<char>, Option<Seq<char>>, u64, Seq<char>),
    key: (u64, u64, Seq<char>, Option<Seq<char>>),
    i: int,
)
    requires
        0 <= j < es.len(),
        spec_total_key(es[j]) == spec_total_key(x),
    ensures
        spec_find_total(es.update(j, x), key, i) == spec_find_total(es, key, i),
    decreases es.len() - i,
{
    if 0 <= i < es.len() {
        assert(spec_total_key(es.update(j, x)[i]) == spec_total_key(es[i]));
        lemma_find_total_update(es, j, x, key, i + 1);
    }
}

/// A pushed total is found only where no total had its key.
proof fn lemma_find_total_push(
    es: Seq<(u64, u64, Seq<char>, Option<Seq<char>>, u64, Seq<char>)>,
    x: (u64, u64, Seq<char>, Option<Seq<char>>, u64, Seq<char>),
    key: (u64, u64, Seq<char>, Option<Seq<char>>),
    i: int,
)
    requires
        0 <= i <= es.len(),
    ensures
        spec_find_total(es.push(x), key, i) == match spec_find_total(es, key, i) {
            Some(q) => Some(q),
            None => if spec_total_key(x) == key { Some(es.len() as int) } else { None },
        },
    decreases es.len() - i,
{
    if i < es.len() {
        assert(es.push(x)[i] == es[i]);
        lemma_find_total_push(es, x, key, i + 1);
    } else {
        assert(es.push(x)[i] == x);
        assert(spec_find_total(es.push(x), key, i + 1) is None);
        assert(spec_find_total(es, key, i) is None);
    }
}

/// What the collected totals hold after some rows.
pub open spec fn spec_collect_holds(
    rows: Seq<IntervalRow>,
    start: u64,
    end: u64,
    agg: bool,
    pool: Option<Seq<char>>,
    markout: Option<Seq<char>>,
) -> bool {
    forall|key: (u64, u64, Seq<char>, Option<Seq<char>>)|
        #![trigger spec_find_total(spec_collect(rows, start, end, agg, pool, markout), key, 0)]
        match spec_find_total(spec_collect(rows, start, end, agg, pool, markout), key, 0) {
            Some(i) => {
                &&& spec_key_selected(rows, key, start, end, agg, pool, markout)
                &&& spec_collect(rows, start, end, agg, pool, markout)[i].4 as int == if spec_selected_cents(
                    rows, key, start, end, agg, pool, markout) > u64::MAX {
                    u64::MAX as int
                } else {
                    spec_selected_cents(rows, key, start, end, agg, pool, markout)
                }
            },
            None => !spec_key_selected(rows, key, start, end, agg, pool, markout)
                && spec_selected_cents(rows, key, start, end, agg, pool, markout) == 0,
        }
}

/// One more row keeps what the collected totals hold.
proof fn lemma_collect_step(
    rows: Seq<IntervalRow>,
    start: u64,
    end: u64,
    agg: bool,
    pool: Option<Seq<char>>,
    markout: Option<Seq<char>>,
)
    requires
        rows.len() > 0,
        spec_collect_holds(rows.drop_last(), start, end, agg, pool, markout),
    ensures
        spec_collect_holds(rows, start, end, agg, pool, markout),
{
    let d = rows.drop_last();
    let r = rows.last();
    let n = rows.len() - 1;
    assert(r == rows[n]);
    let prev = spec_collect(d, start, end, agg, pool, markout);
    let cur = spec_collect(rows, start, end, agg, pool, markout);
    let sel = spec_row_selected(r, start, end, agg, pool, markout);
    let rk = spec_row_key(r, start, agg);
    assert forall|key: (u64, u64, Seq<char>, Option<Seq<char>>)|
        #![trigger spec_find_total(cur, key, 0)]
        match spec_find_total(cur, key, 0) {
            Some(i) => {
                &&& spec_key_selected(rows, key, start, end, agg, pool, markout)
                &&& cur[i].4 as int == if spec_selected_cents(rows, key, start, end, agg, pool, markout) > u64::MAX {
                    u64::MAX as int
                } else {
                    spec_selected_cents(rows, key, start, end, agg, pool, markout)
                }
            },
            None => !spec_key_selected(rows, key, start, end, agg, pool, markout)
                && spec_selected_cents(rows, key, start, end, agg, pool, markout) == 0,
        } by {
        let hit = sel && rk == key;
        // the rows selected with this key are those before, and this one
        assert(spec_key_selected(rows, key, start, end, agg, pool, markout)
            == (spec_key_selected(d, key, start, end, agg, pool, markout) || hit)) by {
            if spec_key_selected(d, key, start, end, agg, pool, markout) {
                let w = choose|w: int| 0 <= w < d.len() && spec_row_selected(#[trigger] d[w], start, end, agg, pool, markout)
                    && spec_row_key(d[w], start, agg) == key;
                assert(rows[w] == d[w]);
            }
            if spec_key_selected(rows, key, start, end, agg, pool, markout) {
                let w = choose|w: int| 0 <= w < rows.len() && spec_row_selected(#[trigger] rows[w], start, end, agg, pool, markout)
                    && spec_row_key(rows[w], start, agg) == key;
                if w < n {
                    assert(rows[w] == d[w]);
                }
            }
        }
        assert(spec_find_total(prev, key, 0) == spec_find_total(prev, key, 0));
        if !sel {
            assert(cur == prev);
        } else {
            let cents = r.total_lvr_cents.unwrap();
            assert(cur == spec_add_row(prev, r, start, agg));
            match spec_find_total(prev, rk, 0) {
                Some(j) => {
                    lemma_find_total_found(prev, rk, 0, j);
                    let x = (prev[j].0, prev[j].1, prev[j].2, prev[j].3, crate::running::spec_sat_add(prev[j].4, cents), prev[j].5);
                    assert(cur == prev.update(j, x));
                    lemma_find_total_update(prev, j, x, key, 0);
                    if key == rk {
                        assert(spec_find_total(prev, rk, 0) == Some(j));
                    } else {
                        match spec_find_total(prev, key, 0) {
                            Some(q) => {
                                lemma_find_total_found(prev, key, 0, q);
                                assert(q != j);
                            },
                            None => {},
                        }
                    }
                },
                None => {
                    let x = (rk.0, rk.1, rk.2, rk.3, cents, r.file_path@);
                    assert(cur == prev.push(x));
                    lemma_find_total_push(prev, x, key, 0);
                    match spec_find_total(prev, key, 0) {
                        Some(q) => {
                            lemma_find_total_found(prev, key, 0, q);
                            assert(cur[q] == prev[q]);
                        },
                        None => {
                            if key == rk {
                                assert(cur[prev.len() as int] == x);
                            }
                        },
                    }
                },
            }
        }
    }
}

/// The collected totals sum, key by key, exactly the selected rows: each
/// total holds the LVR of the selected rows with its key (saturating at
/// the largest 64-bit value), and a key has a total exactly when some
/// selected row has it.
pub proof fn lemma_collect_sums_selected(
    rows: Seq<IntervalRow>,
    start: u64,
    end: u64,
    agg: bool,
    pool: Option<Seq<char>>,
    markout: Option<Seq<char>>,
)
    ensures
        spec_collect_holds(rows, start, end, agg, pool, markout),
    decreases rows.len(),
{
    if rows.len() == 0 {
        assert forall|key: (u64, u64, Seq<char>, Option<Seq<char>>)|
            #![trigger spec_find_total(spec_collect(rows, start, end, agg, pool, markout), key, 0)]
            spec_find_total(spec_collect(rows, start, end, agg, pool, markout), key, 0) is None by {}
    } else {
        lemma_collect_sums_selected(rows.drop_last(), start, end, agg, pool, markout);
        lemma_collect_step(rows, start, end, agg, pool, markout);
    }
}

} // verus!
