use vstd::prelude::*;
use crate::blocks::spec_sum;
use crate::text::concat;

verus! {

/// What the validation reads of one checkpoint row.
pub struct CheckpointCounts {
    pub pair_address: String,
    pub markout_time: String,
    pub running_total: u64,
    /// The seven bucket counts, the zero bucket first.
    pub buckets: Vec<u64>,
    /// The number of non-zero values the checkpoint's digest saw.
    pub exact_samples: u64,
}

/// What the validation reads of one interval row.
pub struct IntervalCounts {
    pub pair_address: String,
    pub markout_time: String,
    pub total_lvr_cents: u64,
    pub total_count: u64,
    pub non_zero_count: u64,
}

/// How a checkpoint compares with the interval rows of its pool and
/// markout time.
pub struct ValidationCounts {
    pub checkpoint_total: u64,
    pub intervals_total: u64,
    /// The checkpoint total less the interval total, zero when that is
    /// negative.
    pub difference: u64,
    pub checkpoint_zero_count: u64,
    pub checkpoint_total_count: u64,
    pub interval_zero_count: u64,
    pub interval_total_count: u64,
    pub tdigest_samples: u64,
    pub non_zero_samples: u64,
    pub bucket_sum_non_zero: u64,
    pub sample_count_match: bool,
    pub non_zero_counts_consistent: bool,
}

/// The key of a pool and markout time: the pool, `_`, the markout time.
pub open spec fn spec_validation_key(pair: Seq<char>, markout: Seq<char>) -> Seq<char> {
    pair + seq!['_'] + markout
}

/// The key of a pool and markout time (see `spec_validation_key`).
fn validation_key(pair: &String, markout: &String) -> (r: String)
    ensures
        r@ == spec_validation_key(pair@, markout@),
{
    let a = concat(pair.as_str(), "_");
    let r = concat(a.as_str(), markout.as_str());
    proof {
        reveal_strlit("_");
        assert(r@ =~= spec_validation_key(pair@, markout@));
    }
    r
}

/// The key of a checkpoint row.
pub open spec fn spec_checkpoint_key(c: CheckpointCounts) -> Seq<char> {
    spec_validation_key(c.pair_address@, c.markout_time@)
}

/// The key of an interval row.
pub open spec fn spec_interval_key(r: IntervalCounts) -> Seq<char> {
    spec_validation_key(r.pair_address@, r.markout_time@)
}

/// The distinct keys of the checkpoint rows, in the order of their first
/// row.
pub open spec fn spec_checkpoint_keys(cps: Seq<CheckpointCounts>) -> Seq<Seq<char>>
    decreases cps.len(),
{
    if cps.len() == 0 {
        Seq::empty()
    } else {
        let prev = spec_checkpoint_keys(cps.drop_last());
        let k = spec_checkpoint_key(cps.last());
        if prev.contains(k) {
            prev
        } else {
            prev.push(k)
        }
    }
}

/// The index of the last checkpoint row with key `k` among the first `n`.
pub open spec fn spec_last_checkpoint(cps: Seq<CheckpointCounts>, k: Seq<char>, n: int) -> Option<int>
    decreases n,
{
    if n <= 0 || n > cps.len() {
        None
    } else if spec_checkpoint_key(cps[n - 1]) == k {
        Some(n - 1)
    } else {
        spec_last_checkpoint(cps, k, n - 1)
    }
}

/// The sums of the interval totals, counts and non-zero counts of the rows
/// with key `k` among the first `n`.
pub open spec fn spec_interval_sums(rows: Seq<IntervalCounts>, k: Seq<char>, n: int) -> (int, int, int)
    decreases n,
{
    if n <= 0 || n > rows.len() {
        (0, 0, 0)
    } else {
        let prev = spec_interval_sums(rows, k, n - 1);
        let r = rows[n - 1];
        if spec_interval_key(r) == k {
            (prev.0 + r.total_lvr_cents, prev.1 + r.total_count, prev.2 + r.non_zero_count)
        } else {
            prev
        }
    }
}

/// `a - b`, or zero where that is negative.
pub open spec fn spec_sat_sub(a: int, b: int) -> int {
    if a >= b { a - b } else { 0 }
}

/// The comparison of a checkpoint row with interval sums: the totals and
/// their saturating difference, the zero counts, the sample counts, and
/// whether the digest's samples match the intervals' non-zero count and
/// the checkpoint's non-zero buckets.
pub open spec fn spec_validation_counts(c: CheckpointCounts, sums: (int, int, int)) -> (u64, u64, int, u64, int, int, int, u64, int, int, bool, bool) {
    let total_count = spec_sum(c.buckets@);
    let non_zero_sum = spec_sum(c.buckets@.drop_first());
    (
        c.running_total,
        sums.0 as u64,
        spec_sat_sub(c.running_total as int, sums.0),
        c.buckets@[0],
        total_count,
        spec_sat_sub(sums.1, sums.2),
        sums.1,
        c.exact_samples,
        sums.2,
        non_zero_sum,
        c.exact_samples == sums.2,
        c.exact_samples == non_zero_sum && c.exact_samples == sums.2,
    )
}

/// The validation of every checkpoint key, in the order of their first
/// row: the last checkpoint row of the key compared with the sums of the
/// interval rows of the key.
pub open spec fn spec_validate_all(cps: Seq<CheckpointCounts>, rows: Seq<IntervalCounts>) -> Seq<(Seq<char>, (u64, u64, int, u64, int, int, int, u64, int, int, bool, bool))> {
    spec_checkpoint_keys(cps).map_values(|k: Seq<char>| (
        k,
        spec_validation_counts(
            cps[spec_last_checkpoint(cps, k, cps.len() as int).unwrap()],
            spec_interval_sums(rows, k, rows.len() as int),
        ),
    ))
}

/// The flags of a validation: the samples match when the digest saw as many
/// non-zero values as the interval rows count, and the non-zero counts are
/// consistent only when the digest's samples equal both that count and the
/// checkpoint's non-zero buckets; consistency thus implies a match.
pub proof fn lemma_validation_flags(cps: Seq<CheckpointCounts>, rows: Seq<IntervalCounts>)
    ensures
        forall|i: int| 0 <= i < spec_validate_all(cps, rows).len() ==> {
            let v = (#[trigger] spec_validate_all(cps, rows)[i]).1;
            &&& v.10 == (v.7 == v.8)
            &&& v.11 == (v.7 == v.9 && v.7 == v.8)
            &&& v.11 ==> v.10
        },
{
}

/// The last checkpoint row found for a key has that key, and no later row
/// has it.
proof fn lemma_last_checkpoint_found(cps: Seq<CheckpointCounts>, k: Seq<char>, n: int, j: int)
    requires
        spec_last_checkpoint(cps, k, n) == Some(j),
    ensures
        0 <= j < n <= cps.len(),
        spec_checkpoint_key(cps[j]) == k,
        forall|q: int| j < q < n ==> spec_checkpoint_key(#[trigger] cps[q]) != k,
    decreases n,
{
    if spec_checkpoint_key(cps[n - 1]) != k {
        lemma_last_checkpoint_found(cps, k, n - 1, j);
    }
}

/// A sum splits into its first value and the sum of the rest.
proof fn lemma_sum_first(s: Seq<u64>)
    requires
        s.len() > 0,
    ensures
        spec_sum(s) == s[0] + spec_sum(s.drop_first()),
    decreases s.len(),
{
    if s.len() > 1 {
        lemma_sum_first(s.drop_last());
        assert(s.drop_last().drop_first() =~= s.drop_first().drop_last());
        assert(s.drop_first().last() == s.last());
        assert(s.drop_last()[0] == s[0]);
        assert(spec_sum(s.drop_first()) == spec_sum(s.drop_first().drop_last()) + s.drop_first().last());
    } else {
        assert(s.drop_first().len() == 0);
        assert(s.drop_last().len() == 0);
        assert(spec_sum(s.drop_last()) == 0);
        assert(spec_sum(s.drop_first()) == 0);
        assert(s.last() == s[0]);
    }
}

/// Where the rows' sums fit, the sums of every key fit.
proof fn lemma_interval_sums_bounded(rows: Seq<IntervalCounts>, k: Seq<char>)
    requires
        spec_interval_sums_fit(rows),
    ensures
        spec_interval_sums(rows, k, rows.len() as int).0 <= u64::MAX,
{
    if exists|i: int| 0 <= i < rows.len() && spec_interval_key(#[trigger] rows[i]) == k {
        let i = choose|i: int| 0 <= i < rows.len() && spec_interval_key(#[trigger] rows[i]) == k;
        assert(spec_interval_sums(rows, spec_interval_key(rows[i]), rows.len() as int).0 <= u64::MAX);
    } else {
        lemma_interval_sums_absent(rows, k, rows.len() as int);
    }
}

/// How a validation compares a checkpoint with the interval rows: it reads
/// the last checkpoint row of its key; the difference is the checkpoint
/// total less the intervals' total, or zero where that is negative; the
/// intervals' zero count is their block count less their non-zero count, or
/// zero; the checkpoint's blocks are its zero bucket plus its non-zero
/// buckets; and the two flags are as `lemma_validation_flags` states.
pub proof fn lemma_validation_counts(cps: Seq<CheckpointCounts>, rows: Seq<IntervalCounts>)
    requires
        forall|i: int| 0 <= i < cps.len() ==> spec_buckets_fit(#[trigger] cps[i]),
        spec_interval_sums_fit(rows),
    ensures
        forall|i: int| 0 <= i < spec_validate_all(cps, rows).len() ==> {
            let k = (#[trigger] spec_validate_all(cps, rows)[i]).0;
            let v = spec_validate_all(cps, rows)[i].1;
            &&& exists|j: int| 0 <= j < cps.len() && spec_checkpoint_key(#[trigger] cps[j]) == k
                && (forall|q: int| j < q < cps.len() ==> spec_checkpoint_key(#[trigger] cps[q]) != k)
                && v.0 == cps[j].running_total && v.3 == cps[j].buckets@[0]
                && v.7 == cps[j].exact_samples
            &&& v.2 == if v.0 >= v.1 { v.0 - v.1 } else { 0 }
            &&& v.5 == if v.6 >= v.8 { v.6 - v.8 } else { 0 }
            &&& v.4 == v.3 + v.9
        },
{
    let out = spec_validate_all(cps, rows);
    assert forall|i: int| 0 <= i < out.len() implies {
        let k = (#[trigger] out[i]).0;
        let v = out[i].1;
        &&& exists|j: int| 0 <= j < cps.len() && spec_checkpoint_key(#[trigger] cps[j]) == k
            && (forall|q: int| j < q < cps.len() ==> spec_checkpoint_key(#[trigger] cps[q]) != k)
            && v.0 == cps[j].running_total && v.3 == cps[j].buckets@[0]
            && v.7 == cps[j].exact_samples
        &&& v.2 == if v.0 >= v.1 { v.0 - v.1 } else { 0 }
        &&& v.5 == if v.6 >= v.8 { v.6 - v.8 } else { 0 }
        &&& v.4 == v.3 + v.9
    } by {
        let k = spec_checkpoint_keys(cps)[i];
        assert(spec_checkpoint_keys(cps).contains(k));
        lemma_keys_have_rows(cps, k);
        let j = spec_last_checkpoint(cps, k, cps.len() as int).unwrap();
        lemma_last_checkpoint_found(cps, k, cps.len() as int, j);
        assert(spec_buckets_fit(cps[j]));
        lemma_sum_first(cps[j].buckets@);
        lemma_interval_sums_bounded(rows, k);
        let sums = spec_interval_sums(rows, k, rows.len() as int);
        lemma_interval_sums_prefix(rows, k, 0, rows.len() as int);
        assert(out[i] == (k, spec_validation_counts(cps[j], sums)));
        assert(out[i].1.1 as int == sums.0);
        assert(out[i].1.2 == if out[i].1.0 >= out[i].1.1 { out[i].1.0 - out[i].1.1 } else { 0 });
        assert(out[i].1.5 == if out[i].1.6 >= out[i].1.8 { out[i].1.6 - out[i].1.8 } else { 0 });
        assert(out[i].1.4 == out[i].1.3 + out[i].1.9);
        let v = out[i].1;
        assert(v.0 == cps[j].running_total && v.3 == cps[j].buckets@[0] && v.7 == cps[j].exact_samples);
        assert(spec_checkpoint_key(cps[j]) == k);
    }
}

impl View for ValidationCounts {
    /// The fields in declaration order.
    type V = (u64, u64, int, u64, int, int, int, u64, int, int, bool, bool);

    open spec fn view(&self) -> Self::V {
        (
            self.checkpoint_total,
            self.intervals_total,
            self.difference as int,
            self.checkpoint_zero_count,
            self.checkpoint_total_count as int,
            self.interval_zero_count as int,
            self.interval_total_count as int,
            self.tdigest_samples,
            self.non_zero_samples as int,
            self.bucket_sum_non_zero as int,
            self.sample_count_match,
            self.non_zero_counts_consistent,
        )
    }
}

/// Whether the sums of the interval rows of every key fit in 64 bits.
pub open spec fn spec_interval_sums_fit(rows: Seq<IntervalCounts>) -> bool {
    forall|i: int| 0 <= i < rows.len() ==> {
        let s = #[trigger] spec_interval_sums(rows, spec_interval_key(rows[i]), rows.len() as int);
        s.0 <= u64::MAX && s.1 <= u64::MAX && s.2 <= u64::MAX
    }
}

/// Whether a checkpoint row holds seven bucket counts whose sum fits in 64
/// bits.
pub open spec fn spec_buckets_fit(c: CheckpointCounts) -> bool {
    c.buckets@.len() == 7 && spec_sum(c.buckets@) <= u64::MAX
}

/// The sums of a prefix are at most those of all the rows.
proof fn lemma_interval_sums_prefix(rows: Seq<IntervalCounts>, k: Seq<char>, n: int, m: int)
    requires
        0 <= n <= m <= rows.len(),
    ensures
        spec_interval_sums(rows, k, n).0 <= spec_interval_sums(rows, k, m).0,
        spec_interval_sums(rows, k, n).1 <= spec_interval_sums(rows, k, m).1,
        spec_interval_sums(rows, k, n).2 <= spec_interval_sums(rows, k, m).2,
    decreases m - n,
{
    if n < m {
        lemma_interval_sums_prefix(rows, k, n, m - 1);
    }
}

/// A key without rows sums to zero; a key with a row has its sums bounded
/// by the sums of that row's key.
proof fn lemma_interval_sums_absent(rows: Seq<IntervalCounts>, k: Seq<char>, n: int)
    requires
        0 <= n <= rows.len(),
        forall|i: int| 0 <= i < n ==> spec_interval_key(#[trigger] rows[i]) != k,
    ensures
        spec_interval_sums(rows, k, n) == (0int, 0int, 0int),
    decreases n,
{
    if n > 0 {
        lemma_interval_sums_absent(rows, k, n - 1);
    }
}

/// The sums of the interval rows of key `k`, when they fit.
fn interval_sums(rows: &Vec<IntervalCounts>, k: &String) -> (r: (u64, u64, u64))
    requires
        spec_interval_sums_fit(rows@),
    ensures
        (r.0 as int, r.1 as int, r.2 as int) == spec_interval_sums(rows@, k@, rows.len() as int),
{
    let ghost n = rows.len() as int;
    let mut a: u64 = 0;
    let mut b: u64 = 0;
    let mut c: u64 = 0;
    let mut i: usize = 0;
    let ghost mut seen: Option<int> = None;
    while i < rows.len()
        invariant
            i <= rows.len(),
            n == rows.len(),
            spec_interval_sums_fit(rows@),
            (a as int, b as int, c as int) == spec_interval_sums(rows@, k@, i as int),
            match seen {
                Some(w) => 0 <= w < rows.len() && spec_interval_key(rows@[w]) == k@,
                None => forall|q: int| 0 <= q < i ==> spec_interval_key(#[trigger] rows@[q]) != k@,
            },
        decreases rows.len() - i,
    {
        let r = &rows[i];
        let key = validation_key(&r.pair_address, &r.markout_time);
        if key == *k {
            proof {
                seen = Some(i as int);
                let s = spec_interval_sums(rows@, k@, n);
                assert(spec_interval_sums(rows@, spec_interval_key(rows@[i as int]), n) == s);
                lemma_interval_sums_prefix(rows@, k@, i + 1, n);
            }
            a = a + r.total_lvr_cents;
            b = b + r.total_count;
            c = c + r.non_zero_count;
        }
        i = i + 1;
    }
    (a, b, c)
}

/// The sum of counts that together fit in 64 bits, and of all but the
/// first of them.
fn bucket_sums(v: &Vec<u64>) -> (r: (u64, u64))
    requires
        v.len() >= 1,
        spec_sum(v@) <= u64::MAX,
    ensures
        r.0 == spec_sum(v@),
        r.1 == spec_sum(v@.drop_first()),
{
    let mut total: u64 = 0;
    let mut rest: u64 = 0;
    let mut i: usize = 0;
    while i < v.len()
        invariant
            1 <= v.len(),
            i <= v.len(),
            spec_sum(v@) <= u64::MAX,
            total == spec_sum(v@.take(i as int)),
            i >= 1 ==> rest == spec_sum(v@.drop_first().take(i - 1)),
            i == 0 ==> rest == 0,
        decreases v.len() - i,
    {
        proof {
            assert(v@.take(i + 1).drop_last() =~= v@.take(i as int));
            crate::blocks::lemma_sum_prefix(v@, i + 1);
            if i >= 1 {
                assert(v@.drop_first().take(i as int).drop_last() =~= v@.drop_first().take(i - 1));
                assert(v@.drop_first().take(i as int).last() == v@[i as int]);
                lemma_sum_tail(v@, i as int);
            }
        }
        total = total + v[i];
        if i >= 1 {
            rest = rest + v[i];
        }
        i = i + 1;
    }
    assert(v@.take(v.len() as int) =~= v@);
    assert(v@.drop_first().take(v.len() - 1) =~= v@.drop_first());
    (total, rest)
}

/// The sum of a prefix of counts is its first count plus the sum of the
/// rest of the prefix.
proof fn lemma_sum_tail(s: Seq<u64>, i: int)
    requires
        0 <= i < s.len(),
    ensures
        spec_sum(s.take(i + 1)) == s[0] + spec_sum(s.drop_first().take(i)),
    decreases i,
{
    assert(s.take(i + 1).drop_last() =~= s.take(i));
    assert(s.take(i + 1).last() == s[i]);
    if i > 0 {
        lemma_sum_tail(s, i - 1);
        assert(s.drop_first().take(i).drop_last() =~= s.drop_first().take(i - 1));
        assert(s.drop_first().take(i).last() == s[i]);
    } else {
        assert(s.drop_first().take(0).len() == 0);
        assert(s.take(0).len() == 0);
        assert(spec_sum(s.take(0)) == 0);
        assert(spec_sum(s.drop_first().take(0)) == 0);
    }
}

/// The validation of every checkpoint key (see `spec_validate_all`).
pub fn validate_all(cps: &Vec<CheckpointCounts>, rows: &Vec<IntervalCounts>) -> (r: Vec<(String, ValidationCounts)>)
    requires
        forall|i: int| 0 <= i < cps.len() ==> spec_buckets_fit(#[trigger] cps@[i]),
        spec_interval_sums_fit(rows@),
    ensures
        r.len() == spec_validate_all(cps@, rows@).len(),
        forall|i: int| 0 <= i < r.len() ==> ((#[trigger] r@[i]).0@, r@[i].1@) == spec_validate_all(cps@, rows@)[i],
{
    let mut keys: Vec<String> = Vec::new();
    let mut i: usize = 0;
    while i < cps.len()
        invariant
            i <= cps.len(),
            keys@.map_values(|k: String| k@) == spec_checkpoint_keys(cps@.take(i as int)),
        decreases cps.len() - i,
    {
        let c = &cps[i];
        let key = validation_key(&c.pair_address, &c.markout_time);
        let ghost kv = keys@.map_values(|k: String| k@);
        proof {
            assert(cps@.take(i + 1).drop_last() =~= cps@.take(i as int));
            assert(cps@.take(i + 1).last() == cps@[i as int]);
        }
        let mut found = false;
        let mut j: usize = 0;
        while j < keys.len()
            invariant
                j <= keys.len(),
                kv == keys@.map_values(|k: String| k@),
                found == exists|q: int| 0 <= q < j && kv[q] == key@,
            decreases keys.len() - j,
        {
            assert(kv[j as int] == keys@[j as int]@);
            if keys[j] == key {
                found = true;
            }
            j = j + 1;
        }
        if !found {
            let ghost k2 = key@;
            keys.push(key);
            proof {
                assert(keys@.map_values(|k: String| k@) =~= kv.push(k2));
            }
        } else {
            assert(kv.contains(key@));
        }
        i = i + 1;
    }
    assert(cps@.take(cps.len() as int) =~= cps@);
    let ghost spec_out = spec_validate_all(cps@, rows@);
    let ghost kv = keys@.map_values(|k: String| k@);
    assert(kv == spec_checkpoint_keys(cps@));
    let mut out: Vec<(String, ValidationCounts)> = Vec::new();
    let mut k: usize = 0;
    while k < keys.len()
        invariant
            k <= keys.len(),
            kv == keys@.map_values(|q: String| q@),
            kv == spec_checkpoint_keys(cps@),
            spec_out == spec_validate_all(cps@, rows@),
            forall|i: int| 0 <= i < cps.len() ==> spec_buckets_fit(#[trigger] cps@[i]),
            spec_interval_sums_fit(rows@),
            out.len() == k,
            forall|i: int| 0 <= i < k ==> ((#[trigger] out@[i]).0@, out@[i].1@) == spec_out[i],
        decreases keys.len() - k,
    {
        let key = &keys[k];
        assert(kv[k as int] == key@);
        let ghost sk = kv[k as int];
        proof {
            lemma_keys_have_rows(cps@, sk);
        }
        let mut last: usize = 0;
        let mut j: usize = cps.len();
        let mut searching = true;
        while searching && j > 0
            invariant
                j <= cps.len(),
                spec_last_checkpoint(cps@, sk, cps.len() as int) == spec_last_checkpoint(cps@, sk, j as int),
                !searching ==> spec_last_checkpoint(cps@, sk, cps.len() as int) == Some(last as int),
                !searching ==> last < cps.len(),
                spec_last_checkpoint(cps@, sk, cps.len() as int) is Some,
                sk == key@,
            decreases j + (if searching { 1int } else { 0int }),
        {
            let c = &cps[j - 1];
            let ck = validation_key(&c.pair_address, &c.markout_time);
            if ck == *key {
                last = j - 1;
                searching = false;
            } else {
                j = j - 1;
            }
        }
        proof {
            if searching {
                assert(spec_last_checkpoint(cps@, sk, 0) is None);
                assert(false);
            }
        }
        let c = &cps[last];
        assert(spec_buckets_fit(cps@[last as int]));
        let (total_count, non_zero_sum) = bucket_sums(&c.buckets);
        let (lvr, counted, non_zero) = interval_sums(rows, key);
        let difference = c.running_total.saturating_sub(lvr);
        let counts = ValidationCounts {
            checkpoint_total: c.running_total,
            intervals_total: lvr,
            difference,
            checkpoint_zero_count: c.buckets[0],
            checkpoint_total_count: total_count,
            interval_zero_count: counted.saturating_sub(non_zero),
            interval_total_count: counted,
            tdigest_samples: c.exact_samples,
            non_zero_samples: non_zero,
            bucket_sum_non_zero: non_zero_sum,
            sample_count_match: c.exact_samples == non_zero,
            non_zero_counts_consistent: c.exact_samples == non_zero_sum && c.exact_samples == non_zero,
        };
        let ghost before = out@;
        out.push((key.clone(), counts));
        proof {
            assert(spec_out[k as int] == (sk, spec_validation_counts(cps@[last as int],
                spec_interval_sums(rows@, sk, rows.len() as int))));
            assert forall|i: int| 0 <= i < k + 1 implies ((#[trigger] out@[i]).0@, out@[i].1@) == spec_out[i] by {
                if i < k {
                    assert(out@[i] == before[i]);
                }
            }
        }
        k = k + 1;
    }
    out
}

/// Every key of the checkpoints has a last row.
proof fn lemma_keys_have_rows(cps: Seq<CheckpointCounts>, k: Seq<char>)
    requires
        spec_checkpoint_keys(cps).contains(k),
    ensures
        spec_last_checkpoint(cps, k, cps.len() as int) is Some,
    decreases cps.len(),
{
    if cps.len() > 0 {
        let d = cps.drop_last();
        if spec_checkpoint_key(cps.last()) != k {
            assert(spec_checkpoint_keys(d).contains(k));
            lemma_keys_have_rows(d, k);
            lemma_last_checkpoint_prefix(cps, k, d.len() as int);
        }
    }
}

/// The last row among the first `n` of a prefix is the same as of the
/// whole.
proof fn lemma_last_checkpoint_prefix(cps: Seq<CheckpointCounts>, k: Seq<char>, n: int)
    requires
        0 <= n < cps.len(),
        n == cps.len() - 1,
    ensures
        spec_last_checkpoint(cps.drop_last(), k, n) == spec_last_checkpoint(cps, k, n),
    decreases n,
{
    lemma_last_checkpoint_same(cps.drop_last(), cps, k, n);
}

/// Two sequences that agree on their first `n` rows have the same last row
/// among them.
proof fn lemma_last_checkpoint_same(a: Seq<CheckpointCounts>, b: Seq<CheckpointCounts>, k: Seq<char>, n: int)
    requires
        0 <= n <= a.len(),
        n <= b.len(),
        forall|i: int| 0 <= i < n ==> a[i] == b[i],
    ensures
        spec_last_checkpoint(a, k, n) == spec_last_checkpoint(b, k, n),
    decreases n,
{
    if n > 0 {
        assert(a[n - 1] == b[n - 1]);
        lemma_last_checkpoint_same(a, b, k, n - 1);
    }
}

} // verus!
