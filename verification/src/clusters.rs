use vstd::prelude::*;
use crate::files::{checkpoint_markout, file_name_start, spec_checkpoint_markout, spec_file_name_start};
use crate::pool_metrics::{spec_unsigned_abs, unsigned_abs, CheckpointRow};
use crate::pools::{
    get_cluster_name, interval_range_label, interval_ranges, spec_cluster_name, spec_range_label,
    spec_range_labels, spec_range_starts,
};
use crate::pool_metrics::{spec_markout_or_brontes, spec_total_key};
use crate::ranking::{lemma_rank_desc_map, rank_desc, spec_rank_desc, RankKey};
use crate::running::{
    assoc_put, spec_assoc_put, spec_assoc_view, spec_sat_add, spec_text_lt, IntervalRow,
};

verus! {

/// The number of non-zero buckets a checkpoint counts.
pub const NON_ZERO_BUCKETS: usize = 7;

/// One non-zero bucket count of one cluster and markout time.
pub struct ClusterBucketRow {
    pub cluster_name: String,
    pub markout_time: String,
    /// The bucket, counted from the smallest non-zero bucket.
    pub bucket: usize,
    pub count: u64,
}

impl View for ClusterBucketRow {
    /// Cluster, markout time, bucket and count.
    type V = (Seq<char>, Seq<char>, int, u64);

    open spec fn view(&self) -> Self::V {
        (self.cluster_name@, self.markout_time@, self.bucket as int, self.count)
    }
}

/// The views of a sequence of cluster bucket rows.
pub open spec fn spec_bucket_rows_view(v: Seq<ClusterBucketRow>) -> Seq<(Seq<char>, Seq<char>, int, u64)> {
    v.map_values(|t: ClusterBucketRow| t@)
}

/// Groups of counts keyed by cluster and markout time.
pub open spec fn spec_hist_find(
    g: Seq<((Seq<char>, Seq<char>), Seq<u64>)>,
    key: (Seq<char>, Seq<char>),
    i: int,
) -> Option<int>
    decreases g.len() - i,
{
    if i < 0 || i >= g.len() {
        None
    } else if g[i].0 == key {
        Some(i)
    } else {
        spec_hist_find(g, key, i + 1)
    }
}

/// The counts `a` with the counts `b` added, each saturating.
pub open spec fn spec_add_counts(a: Seq<u64>, b: Seq<u64>) -> Seq<u64> {
    Seq::new(a.len(), |i: int| spec_sat_add(a[i], b[i]))
}

/// The groups with counts `vals` added to the group of `key`, a new group
/// last.
pub open spec fn spec_hist_add(
    g: Seq<((Seq<char>, Seq<char>), Seq<u64>)>,
    key: (Seq<char>, Seq<char>),
    vals: Seq<u64>,
) -> Seq<((Seq<char>, Seq<char>), Seq<u64>)> {
    match spec_hist_find(g, key, 0) {
        Some(j) => g.update(j, (key, spec_add_counts(g[j].1, vals))),
        None => g.push((key, vals)),
    }
}

/// The bucket counts of the checkpoint rows summed, saturating, by cluster
/// and markout time, groups in the order of their first row; rows of pools
/// outside every cluster are left out. `None` when a row's file names no
/// markout time.
pub open spec fn spec_hist_groups(rows: Seq<CheckpointRow>) -> Option<Seq<((Seq<char>, Seq<char>), Seq<u64>)>>
    decreases rows.len(),
{
    if rows.len() == 0 {
        Some(Seq::empty())
    } else {
        match spec_hist_groups(rows.drop_last()) {
            None => None,
            Some(prev) => {
                let r = rows.last();
                match spec_checkpoint_markout(r.file_path@) {
                    None => None,
                    Some(m) => match spec_cluster_name(r.pair_address@) {
                        None => Some(prev),
                        Some(c) => Some(spec_hist_add(prev, (c, m), r.non_zero_buckets@)),
                    },
                }
            },
        }
    }
}

/// The rows of one group: its positive counts, smallest bucket first.
pub open spec fn spec_group_bucket_rows(key: (Seq<char>, Seq<char>), vals: Seq<u64>) -> Seq<(Seq<char>, Seq<char>, int, u64)>
    decreases vals.len(),
{
    if vals.len() == 0 {
        Seq::empty()
    } else {
        let prev = spec_group_bucket_rows(key, vals.drop_last());
        if vals.last() > 0 {
            prev.push((key.0, key.1, vals.len() - 1, vals.last()))
        } else {
            prev
        }
    }
}

/// The rows of all groups, group by group.
pub open spec fn spec_hist_rows(g: Seq<((Seq<char>, Seq<char>), Seq<u64>)>) -> Seq<(Seq<char>, Seq<char>, int, u64)>
    decreases g.len(),
{
    if g.len() == 0 {
        Seq::empty()
    } else {
        spec_hist_rows(g.drop_last()) + spec_group_bucket_rows(g.last().0, g.last().1)
    }
}

/// The precomputed cluster histograms of the checkpoint rows: the positive
/// bucket counts of each cluster and markout time (see `spec_hist_groups`);
/// `None` when a file names no markout time.
pub open spec fn spec_cluster_histogram_rows(rows: Seq<CheckpointRow>) -> Option<Seq<(Seq<char>, Seq<char>, int, u64)>> {
    match spec_hist_groups(rows) {
        None => None,
        Some(g) => Some(spec_hist_rows(g)),
    }
}

/// The saturating sum of bucket `b` over the checkpoint rows of cluster `c`
/// whose files name markout time `m`.
pub open spec fn spec_cluster_bucket_sum(rows: Seq<CheckpointRow>, c: Seq<char>, m: Seq<char>, b: int) -> u64
    decreases rows.len(),
{
    if rows.len() == 0 {
        0
    } else {
        let prev = spec_cluster_bucket_sum(rows.drop_last(), c, m, b);
        let r = rows.last();
        if spec_checkpoint_markout(r.file_path@) == Some(m) && spec_cluster_name(r.pair_address@) == Some(c) {
            spec_sat_add(prev, r.non_zero_buckets@[b])
        } else {
            prev
        }
    }
}

/// Whether some checkpoint row is of cluster `c` and names markout time
/// `m`.
pub open spec fn spec_cluster_seen(rows: Seq<CheckpointRow>, c: Seq<char>, m: Seq<char>) -> bool {
    exists|i: int| 0 <= i < rows.len() && spec_checkpoint_markout((#[trigger] rows[i]).file_path@) == Some(m)
        && spec_cluster_name(rows[i].pair_address@) == Some(c)
}

/// Whether some group of key `(c, m)` counts `n > 0` in bucket `b`.
pub open spec fn spec_group_counts(g: Seq<((Seq<char>, Seq<char>), Seq<u64>)>, x: (Seq<char>, Seq<char>, int, u64)) -> bool {
    exists|j: int| 0 <= j < g.len() && (#[trigger] g[j]).0 == (x.0, x.1) && 0 <= x.2 < g[j].1.len()
        && g[j].1[x.2] == x.3 && x.3 > 0
}

/// A group's rows are its positive counts.
proof fn lemma_group_bucket_rows(key: (Seq<char>, Seq<char>), vals: Seq<u64>, x: (Seq<char>, Seq<char>, int, u64))
    ensures
        spec_group_bucket_rows(key, vals).contains(x) <==> (x.0, x.1) == key && 0 <= x.2 < vals.len()
            && vals[x.2] == x.3 && x.3 > 0,
    decreases vals.len(),
{
    if vals.len() > 0 {
        let d = vals.drop_last();
        lemma_group_bucket_rows(key, d, x);
        let prev = spec_group_bucket_rows(key, d);
        if vals.last() > 0 {
            let y = (key.0, key.1, vals.len() - 1, vals.last());
            assert(prev.push(y).contains(x) <==> prev.contains(x) || x == y) by {
                if prev.push(y).contains(x) {
                    let k = choose|k: int| 0 <= k < prev.push(y).len() && prev.push(y)[k] == x;
                    if k < prev.len() { assert(prev[k] == x); }
                }
                if prev.contains(x) {
                    let k = choose|k: int| 0 <= k < prev.len() && prev[k] == x;
                    assert(prev.push(y)[k] == x);
                }
                if x == y {
                    assert(prev.push(y)[prev.len() as int] == x);
                }
            }
        }
        if 0 <= x.2 < d.len() {
            assert(vals[x.2] == d[x.2]);
        }
    }
}

/// The precomputed cluster histogram rows are exactly the positive counts
/// of the groups: a row `(c, m, b, n)` is written exactly when a group of
/// cluster `c` and markout time `m` counts `n > 0` in bucket `b`.
pub proof fn lemma_hist_rows_counts(g: Seq<((Seq<char>, Seq<char>), Seq<u64>)>, x: (Seq<char>, Seq<char>, int, u64))
    ensures
        spec_hist_rows(g).contains(x) <==> spec_group_counts(g, x),
    decreases g.len(),
{
    if g.len() > 0 {
        let d = g.drop_last();
        lemma_hist_rows_counts(d, x);
        lemma_group_bucket_rows(g.last().0, g.last().1, x);
        let a = spec_hist_rows(d);
        let b = spec_group_bucket_rows(g.last().0, g.last().1);
        assert((a + b).contains(x) <==> a.contains(x) || b.contains(x)) by {
            if (a + b).contains(x) {
                let k = choose|k: int| 0 <= k < (a + b).len() && (a + b)[k] == x;
                if k < a.len() { assert(a[k] == x); } else { assert(b[k - a.len()] == x); }
            }
            if a.contains(x) {
                let k = choose|k: int| 0 <= k < a.len() && a[k] == x;
                assert((a + b)[k] == x);
            }
            if b.contains(x) {
                let k = choose|k: int| 0 <= k < b.len() && b[k] == x;
                assert((a + b)[k + a.len()] == x);
            }
        }
        if spec_group_counts(d, x) {
            let j = choose|j: int| 0 <= j < d.len() && (#[trigger] d[j]).0 == (x.0, x.1) && 0 <= x.2 < d[j].1.len()
                && d[j].1[x.2] == x.3 && x.3 > 0;
            assert(g[j] == d[j]);
        }
        if spec_group_counts(g, x) {
            let j = choose|j: int| 0 <= j < g.len() && (#[trigger] g[j]).0 == (x.0, x.1) && 0 <= x.2 < g[j].1.len()
                && g[j].1[x.2] == x.3 && x.3 > 0;
            if j < d.len() {
                assert(d[j] == g[j]);
            } else {
                assert(g[j] == g.last());
            }
        }
    }
}

/// Whether some group has key `(c, m)`.
pub open spec fn spec_has_group(g: Seq<((Seq<char>, Seq<char>), Seq<u64>)>, c: Seq<char>, m: Seq<char>) -> bool {
    exists|j: int| 0 <= j < g.len() && (#[trigger] g[j]).0 == (c, m)
}

/// What the first search for a key finds.
proof fn lemma_hist_find(g: Seq<((Seq<char>, Seq<char>), Seq<u64>)>, key: (Seq<char>, Seq<char>), i: int)
    requires
        0 <= i,
    ensures
        match spec_hist_find(g, key, i) {
            Some(j) => i <= j < g.len() && g[j].0 == key && forall|k: int| i <= k < j ==> g[k].0 != key,
            None => forall|k: int| i <= k < g.len() ==> g[k].0 != key,
        },
    decreases g.len() - i,
{
    if i < g.len() && g[i].0 != key {
        lemma_hist_find(g, key, i + 1);
    }
}

/// No row of a cluster and markout time gives a zero sum.
proof fn lemma_bucket_sum_unseen(rows: Seq<CheckpointRow>, c: Seq<char>, m: Seq<char>, b: int)
    requires
        !spec_cluster_seen(rows, c, m),
    ensures
        spec_cluster_bucket_sum(rows, c, m, b) == 0,
    decreases rows.len(),
{
    if rows.len() > 0 {
        let d = rows.drop_last();
        assert(!spec_cluster_seen(d, c, m)) by {
            if spec_cluster_seen(d, c, m) {
                let i = choose|i: int| 0 <= i < d.len() && spec_checkpoint_markout((#[trigger] d[i]).file_path@) == Some(m)
                    && spec_cluster_name(d[i].pair_address@) == Some(c);
                assert(rows[i] == d[i]);
            }
        }
        lemma_bucket_sum_unseen(d, c, m, b);
        assert(rows[rows.len() - 1] == rows.last());
    }
}

/// The cluster histogram groups, summed: with every row holding seven
/// counts, the groups have distinct keys, a group exists for a cluster and
/// markout time exactly when some row is of them, and each group's count
/// of bucket `b` is the saturating sum of bucket `b` over those rows.
#[verifier::rlimit(40)]
pub proof fn lemma_hist_groups_sum(rows: Seq<CheckpointRow>)
    requires
        forall|i: int| 0 <= i < rows.len() ==> (#[trigger] rows[i]).non_zero_buckets.len() == NON_ZERO_BUCKETS,
    ensures
        spec_hist_groups(rows) matches Some(g) ==> forall|i: int, j: int| 0 <= i < j < g.len()
            ==> (#[trigger] g[i]).0 != (#[trigger] g[j]).0,
        spec_hist_groups(rows) matches Some(g) ==> forall|c: Seq<char>, m: Seq<char>| #[trigger] spec_cluster_seen(rows, c, m)
            <==> spec_has_group(g, c, m),
        spec_hist_groups(rows) matches Some(g) ==> forall|j: int| 0 <= j < g.len()
            ==> (#[trigger] g[j]).1.len() == NON_ZERO_BUCKETS,
        spec_hist_groups(rows) matches Some(g) ==> forall|j: int, b: int| 0 <= j < g.len() && 0 <= b < NON_ZERO_BUCKETS
            ==> #[trigger] g[j].1[b] == spec_cluster_bucket_sum(rows, g[j].0.0, g[j].0.1, b),
    decreases rows.len(),
{
    if rows.len() > 0 {
        let d = rows.drop_last();
        assert forall|i: int| 0 <= i < d.len() implies (#[trigger] d[i]).non_zero_buckets.len() == NON_ZERO_BUCKETS by {
            assert(d[i] == rows[i]);
        }
        lemma_hist_groups_sum(d);
        let r = rows.last();
        let n = rows.len() - 1;
        assert(rows[n] == r);
        match spec_hist_groups(d) {
            None => {},
            Some(prev) => {
                match spec_checkpoint_markout(r.file_path@) {
                    None => {},
                    Some(m) => {
                        assert forall|c2: Seq<char>, m2: Seq<char>| spec_cluster_seen(d, c2, m2) implies
                            #[trigger] spec_cluster_seen(rows, c2, m2) by {
                            let i = choose|i: int| 0 <= i < d.len() && spec_checkpoint_markout((#[trigger] d[i]).file_path@) == Some(m2)
                                && spec_cluster_name(d[i].pair_address@) == Some(c2);
                            assert(rows[i] == d[i]);
                        }
                        assert forall|c2: Seq<char>, m2: Seq<char>| #[trigger] spec_cluster_seen(rows, c2, m2) implies
                            spec_cluster_seen(d, c2, m2) || (spec_cluster_name(r.pair_address@) == Some(c2) && m == m2) by {
                            let i = choose|i: int| 0 <= i < rows.len() && spec_checkpoint_markout((#[trigger] rows[i]).file_path@) == Some(m2)
                                && spec_cluster_name(rows[i].pair_address@) == Some(c2);
                            if i < n {
                                assert(rows[i] == d[i]);
                            }
                        }
                        match spec_cluster_name(r.pair_address@) {
                            None => {
                                assert forall|c2: Seq<char>, m2: Seq<char>| #[trigger] spec_cluster_seen(rows, c2, m2)
                                    <==> spec_has_group(prev, c2, m2) by {
                                    assert(spec_cluster_seen(d, c2, m2) <==> spec_has_group(prev, c2, m2));
                                }
                                assert(spec_hist_groups(rows) == Some(prev));
                                assert forall|j: int, b: int| 0 <= j < prev.len() && 0 <= b < NON_ZERO_BUCKETS
                                    implies #[trigger] prev[j].1[b] == spec_cluster_bucket_sum(rows, prev[j].0.0, prev[j].0.1, b) by {
                                    assert(spec_cluster_bucket_sum(rows, prev[j].0.0, prev[j].0.1, b)
                                        == spec_cluster_bucket_sum(d, prev[j].0.0, prev[j].0.1, b));
                                }
                            },
                            Some(c) => {
                                let key = (c, m);
                                let g = spec_hist_add(prev, key, r.non_zero_buckets@);
                                lemma_hist_find(prev, key, 0);
                                assert(spec_hist_groups(rows) == Some(g));
                                assert(spec_cluster_seen(rows, c, m));
                                match spec_hist_find(prev, key, 0) {
                                    Some(jf) => {
                                        assert forall|i: int, j: int| 0 <= i < j < g.len() implies (#[trigger] g[i]).0 != (#[trigger] g[j]).0 by {
                                            assert(g[i].0 == prev[i].0 && g[j].0 == prev[j].0);
                                        }
                                        assert forall|j: int| 0 <= j < g.len() implies (#[trigger] g[j]).1.len() == NON_ZERO_BUCKETS by {
                                            if j != jf { assert(g[j] == prev[j]); }
                                        }
                                        assert forall|j: int, b: int| 0 <= j < g.len() && 0 <= b < NON_ZERO_BUCKETS
                                            implies #[trigger] g[j].1[b] == spec_cluster_bucket_sum(rows, g[j].0.0, g[j].0.1, b) by {
                                            if j == jf {
                                                assert(prev[j].1[b] == spec_cluster_bucket_sum(d, c, m, b));
                                                assert(prev[j].1.len() == NON_ZERO_BUCKETS);
                                                assert(g[j].1 == spec_add_counts(prev[j].1, r.non_zero_buckets@));
                                                assert(g[j].1[b] == spec_sat_add(prev[j].1[b], r.non_zero_buckets@[b]));
                                                assert(spec_cluster_bucket_sum(rows, c, m, b)
                                                    == spec_sat_add(spec_cluster_bucket_sum(d, c, m, b), r.non_zero_buckets@[b]));
                                            } else {
                                                assert(g[j] == prev[j]);
                                                assert(prev[j].0 != key);
                                                assert(spec_cluster_bucket_sum(rows, prev[j].0.0, prev[j].0.1, b)
                                                    == spec_cluster_bucket_sum(d, prev[j].0.0, prev[j].0.1, b));
                                            }
                                        }
                                        assert forall|c2: Seq<char>, m2: Seq<char>| #[trigger] spec_cluster_seen(rows, c2, m2)
                                            <==> spec_has_group(g, c2, m2) by {
                                            if spec_cluster_seen(rows, c2, m2) && !spec_cluster_seen(d, c2, m2) {
                                                assert(g[jf].0 == (c2, m2));
                                            }
                                            if exists|j: int| 0 <= j < g.len() && (#[trigger] g[j]).0 == (c2, m2) {
                                                let j = choose|j: int| 0 <= j < g.len() && (#[trigger] g[j]).0 == (c2, m2);
                                                assert(prev[j].0 == g[j].0);
                                            }
                                            if spec_cluster_seen(d, c2, m2) {
                                                let j = choose|j: int| 0 <= j < prev.len() && (#[trigger] prev[j]).0 == (c2, m2);
                                                assert(g[j].0 == prev[j].0);
                                            }
                                        }
                                    },
                                    None => {
                                        assert forall|i: int, j: int| 0 <= i < j < g.len() implies (#[trigger] g[i]).0 != (#[trigger] g[j]).0 by {
                                            if j < prev.len() {
                                                assert(g[i] == prev[i] && g[j] == prev[j]);
                                            } else {
                                                assert(g[i] == prev[i]);
                                                assert(g[j].0 == key);
                                            }
                                        }
                                        assert forall|j: int| 0 <= j < g.len() implies (#[trigger] g[j]).1.len() == NON_ZERO_BUCKETS by {
                                            if j < prev.len() { assert(g[j] == prev[j]); }
                                        }
                                        assert(!spec_cluster_seen(d, c, m)) by {
                                            if spec_cluster_seen(d, c, m) {
                                                let j = choose|j: int| 0 <= j < prev.len() && (#[trigger] prev[j]).0 == (c, m);
                                            }
                                        }
                                        assert forall|j: int, b: int| 0 <= j < g.len() && 0 <= b < NON_ZERO_BUCKETS
                                            implies #[trigger] g[j].1[b] == spec_cluster_bucket_sum(rows, g[j].0.0, g[j].0.1, b) by {
                                            if j == prev.len() {
                                                lemma_bucket_sum_unseen(d, c, m, b);
                                                assert(g[j] == (key, r.non_zero_buckets@));
                                                assert(spec_cluster_bucket_sum(rows, c, m, b)
                                                    == spec_sat_add(spec_cluster_bucket_sum(d, c, m, b), r.non_zero_buckets@[b]));
                                            } else {
                                                assert(g[j] == prev[j]);
                                                assert(prev[j].0 != key);
                                                assert(spec_cluster_bucket_sum(rows, prev[j].0.0, prev[j].0.1, b)
                                                    == spec_cluster_bucket_sum(d, prev[j].0.0, prev[j].0.1, b));
                                            }
                                        }
                                        assert forall|c2: Seq<char>, m2: Seq<char>| #[trigger] spec_cluster_seen(rows, c2, m2)
                                            <==> spec_has_group(g, c2, m2) by {
                                            if spec_cluster_seen(rows, c2, m2) && !spec_cluster_seen(d, c2, m2) {
                                                assert(g[prev.len() as int].0 == (c2, m2));
                                            }
                                            if exists|j: int| 0 <= j < g.len() && (#[trigger] g[j]).0 == (c2, m2) {
                                                let j = choose|j: int| 0 <= j < g.len() && (#[trigger] g[j]).0 == (c2, m2);
                                                if j < prev.len() {
                                                    assert(prev[j].0 == g[j].0);
                                                }
                                            }
                                            if spec_cluster_seen(d, c2, m2) {
                                                let j = choose|j: int| 0 <= j < prev.len() && (#[trigger] prev[j]).0 == (c2, m2);
                                                assert(g[j].0 == prev[j].0);
                                            }
                                        }
                                    },
                                }
                            },
                        }
                    },
                }
            },
        }
    }
}

/// The views of groups of counts.
pub open spec fn spec_hist_view(g: Seq<(String, String, Vec<u64>)>) -> Seq<((Seq<char>, Seq<char>), Seq<u64>)> {
    g.map_values(|e: (String, String, Vec<u64>)| ((e.0@, e.1@), e.2@))
}

/// Adds counts to the group of a cluster and markout time (see
/// `spec_hist_add`).
fn hist_add(g: &mut Vec<(String, String, Vec<u64>)>, cluster: String, markout: String, vals: &Vec<u64>)
    requires
        vals.len() == NON_ZERO_BUCKETS,
        forall|k: int| 0 <= k < old(g).len() ==> (#[trigger] old(g)@[k]).2.len() == NON_ZERO_BUCKETS,
    ensures
        spec_hist_view(final(g)@) == spec_hist_add(spec_hist_view(old(g)@), (cluster@, markout@), vals@),
        forall|k: int| 0 <= k < final(g).len() ==> (#[trigger] final(g)@[k]).2.len() == NON_ZERO_BUCKETS,
{
    let ghost before = spec_hist_view(g@);
    let ghost key = (cluster@, markout@);
    let mut j: usize = 0;
    while j < g.len()
        invariant
            j <= g.len(),
            before == spec_hist_view(g@),
            spec_hist_view(old(g)@) == before,
            old(g)@ == g@,
            key == (cluster@, markout@),
            vals.len() == NON_ZERO_BUCKETS,
            forall|k: int| 0 <= k < g.len() ==> (#[trigger] g@[k]).2.len() == NON_ZERO_BUCKETS,
            spec_hist_find(before, key, 0) == spec_hist_find(before, key, j as int),
        decreases g.len() - j,
    {
        assert(before[j as int] == ((g@[j as int].0@, g@[j as int].1@), g@[j as int].2@));
        if g[j].0 == cluster && g[j].1 == markout {
            proof {
                assert(spec_hist_find(before, key, j as int) == Some(j as int));
            }
            let ghost old_counts = g@[j as int].2@;
            let mut k: usize = 0;
            while k < NON_ZERO_BUCKETS
                invariant
                    k <= NON_ZERO_BUCKETS,
                    j < g.len(),
                    vals.len() == NON_ZERO_BUCKETS,
                    g@[j as int].2.len() == NON_ZERO_BUCKETS,
                    old_counts.len() == NON_ZERO_BUCKETS,
                    forall|q: int| 0 <= q < g.len() && q != j ==> g@[q] == old(g)@[q],
                    g@[j as int].0 == old(g)@[j as int].0,
                    g@[j as int].1 == old(g)@[j as int].1,
                    forall|q: int| 0 <= q < k ==> g@[j as int].2@[q] == spec_sat_add(old_counts[q], vals@[q]),
                    forall|q: int| k <= q < NON_ZERO_BUCKETS ==> g@[j as int].2@[q] == old_counts[q],
                    g.len() == old(g).len(),
                decreases NON_ZERO_BUCKETS - k,
            {
                let v = g[j].2[k].saturating_add(vals[k]);
                g[j].2.set(k, v);
                k = k + 1;
            }
            proof {
                assert(g@[j as int].2@ =~= spec_add_counts(old_counts, vals@));
                assert(spec_hist_view(g@) =~= before.update(j as int, (key, spec_add_counts(before[j as int].1, vals@))));
            }
            return;
        }
        j = j + 1;
    }
    let mut copy: Vec<u64> = Vec::new();
    let mut k: usize = 0;
    while k < vals.len()
        invariant
            k <= vals.len(),
            copy@ == vals@.take(k as int),
        decreases vals.len() - k,
    {
        copy.push(vals[k]);
        assert(vals@.take(k + 1) =~= vals@.take(k as int).push(vals@[k as int]));
        k = k + 1;
    }
    assert(vals@.take(vals.len() as int) =~= vals@);
    g.push((cluster, markout, copy));
    proof {
        assert(spec_hist_view(g@) =~= before.push((key, vals@)));
    }
}

/// Once a prefix of the rows fails, so do all the rows.
proof fn lemma_hist_fail(rows: Seq<CheckpointRow>, i: int)
    requires
        0 <= i < rows.len(),
        spec_hist_groups(rows.take(i + 1)) is None,
    ensures
        spec_hist_groups(rows) is None,
    decreases rows.len(),
{
    if i + 1 < rows.len() {
        assert(rows.drop_last().take(i + 1) =~= rows.take(i + 1));
        lemma_hist_fail(rows.drop_last(), i);
    } else {
        assert(rows.take(i + 1) =~= rows);
    }
}

/// The precomputed cluster histograms of the checkpoint rows (see
/// `spec_cluster_histogram_rows`).
pub fn cluster_histogram_rows(rows: &Vec<CheckpointRow>) -> (r: Option<Vec<ClusterBucketRow>>)
    requires
        forall|i: int| 0 <= i < rows.len() ==> (#[trigger] rows@[i]).non_zero_buckets.len() == NON_ZERO_BUCKETS,
    ensures
        match r {
            Some(v) => spec_cluster_histogram_rows(rows@) == Some(spec_bucket_rows_view(v@)),
            None => spec_cluster_histogram_rows(rows@) is None,
        },
{
    let mut groups: Vec<(String, String, Vec<u64>)> = Vec::new();
    let mut i: usize = 0;
    while i < rows.len()
        invariant
            i <= rows.len(),
            forall|k: int| 0 <= k < rows.len() ==> (#[trigger] rows@[k]).non_zero_buckets.len() == NON_ZERO_BUCKETS,
            forall|k: int| 0 <= k < groups.len() ==> (#[trigger] groups@[k]).2.len() == NON_ZERO_BUCKETS,
            spec_hist_groups(rows@.take(i as int)) == Some(spec_hist_view(groups@)),
        decreases rows.len() - i,
    {
        let r = &rows[i];
        proof {
            assert(rows@.take(i + 1).drop_last() =~= rows@.take(i as int));
            assert(rows@.take(i + 1).last() == rows@[i as int]);
        }
        let m = match checkpoint_markout(r.file_path.as_str()) {
            None => {
                proof {
                    lemma_hist_fail(rows@, i as int);
                }
                return None;
            },
            Some(m) => m,
        };
        match get_cluster_name(r.pair_address.as_str()) {
            None => {},
            Some(c) => {
                hist_add(&mut groups, String::from_str(c), m, &r.non_zero_buckets);
            },
        }
        i = i + 1;
    }
    assert(rows@.take(rows.len() as int) =~= rows@);
    let ghost gv = spec_hist_view(groups@);
    let mut out: Vec<ClusterBucketRow> = Vec::new();
    let mut k: usize = 0;
    while k < groups.len()
        invariant
            k <= groups.len(),
            gv == spec_hist_view(groups@),
            spec_bucket_rows_view(out@) == spec_hist_rows(gv.take(k as int)),
        decreases groups.len() - k,
    {
        let (c, m, vals) = (&groups[k].0, &groups[k].1, &groups[k].2);
        let ghost base = spec_bucket_rows_view(out@);
        let ghost key = (c@, m@);
        assert(gv[k as int] == (key, vals@));
        let mut b: usize = 0;
        while b < vals.len()
            invariant
                b <= vals.len(),
                key == (c@, m@),
                spec_bucket_rows_view(out@) == base + spec_group_bucket_rows(key, vals@.take(b as int)),
            decreases vals.len() - b,
        {
            let ghost mid = spec_bucket_rows_view(out@);
            proof {
                assert(vals@.take(b + 1).drop_last() =~= vals@.take(b as int));
                assert(vals@.take(b + 1).last() == vals@[b as int]);
            }
            if vals[b] > 0 {
                let row = ClusterBucketRow { cluster_name: c.clone(), markout_time: m.clone(), bucket: b, count: vals[b] };
                out.push(row);
                proof {
                    assert(spec_bucket_rows_view(out@) =~= mid.push(row@));
                    assert(base + spec_group_bucket_rows(key, vals@.take(b + 1))
                        =~= (base + spec_group_bucket_rows(key, vals@.take(b as int))).push(row@));
                }
            }
            b = b + 1;
        }
        proof {
            assert(vals@.take(vals.len() as int) =~= vals@);
            assert(gv.take(k + 1).drop_last() =~= gv.take(k as int));
            assert(gv.take(k + 1).last() == gv[k as int]);
        }
        k = k + 1;
    }
    assert(gv.take(groups.len() as int) =~= gv);
    Some(out)
}

/// One row of the precomputed monthly cluster totals.
pub struct MonthlyClusterRow {
    pub time_range: String,
    pub cluster_name: String,
    pub markout_time: String,
    pub total_lvr_cents: u64,
}

impl View for MonthlyClusterRow {
    /// Time range, cluster, markout time and total.
    type V = (Seq<char>, Seq<char>, Seq<char>, u64);

    open spec fn view(&self) -> Self::V {
        (self.time_range@, self.cluster_name@, self.markout_time@, self.total_lvr_cents)
    }
}

/// The views of a sequence of monthly cluster rows.
pub open spec fn spec_monthly_rows_view(v: Seq<MonthlyClusterRow>) -> Seq<(Seq<char>, Seq<char>, Seq<char>, u64)> {
    v.map_values(|t: MonthlyClusterRow| t@)
}

/// The first index, from `i` on, of the total of `key`.
pub open spec fn spec_monthly_find(
    g: Seq<((u64, Seq<char>, Seq<char>), u64)>,
    key: (u64, Seq<char>, Seq<char>),
    i: int,
) -> Option<int>
    decreases g.len() - i,
{
    if i < 0 || i >= g.len() {
        None
    } else if g[i].0 == key {
        Some(i)
    } else {
        spec_monthly_find(g, key, i + 1)
    }
}

/// The totals with `v` added, saturating, to the total of `key`, a new
/// total last.
pub open spec fn spec_monthly_add(
    g: Seq<((u64, Seq<char>, Seq<char>), u64)>,
    key: (u64, Seq<char>, Seq<char>),
    v: u64,
) -> Seq<((u64, Seq<char>, Seq<char>), u64)> {
    match spec_monthly_find(g, key, 0) {
        Some(j) => g.update(j, (key, spec_sat_add(g[j].1, v))),
        None => g.push((key, v)),
    }
}

/// The LVR of the interval rows summed, saturating, by the start block
/// their file names, cluster and markout time, keys in the order of their
/// first row. Rows of files whose start begins no month, rows without a
/// non-zero block and rows of pools outside every cluster are left out; a
/// row without a total counts zero. `None` when a file names no start.
pub open spec fn spec_monthly_groups(rows: Seq<IntervalRow>) -> Option<Seq<((u64, Seq<char>, Seq<char>), u64)>>
    decreases rows.len(),
{
    if rows.len() == 0 {
        Some(Seq::empty())
    } else {
        match spec_monthly_groups(rows.drop_last()) {
            None => None,
            Some(prev) => {
                let r = rows.last();
                match spec_file_name_start(r.file_path@) {
                    None => None,
                    Some(st) => {
                        if spec_range_label(st) is None || r.non_zero_count == 0 {
                            Some(prev)
                        } else {
                            match spec_cluster_name(r.pair_address@) {
                                None => Some(prev),
                                Some(c) => Some(spec_monthly_add(prev, (st, c, r.markout_time@),
                                    match r.total_lvr_cents { Some(t) => t, None => 0 })),
                            }
                        }
                    },
                }
            },
        }
    }
}

/// The month label, cluster, markout time and total of each monthly total.
pub open spec fn spec_monthly_output(g: Seq<((u64, Seq<char>, Seq<char>), u64)>) -> Seq<(Seq<char>, Seq<char>, Seq<char>, u64)> {
    g.map_values(|e: ((u64, Seq<char>, Seq<char>), u64)| (spec_range_label(e.0.0).unwrap(), e.0.1, e.0.2, e.1))
}

/// The precomputed monthly cluster totals of the interval rows (see
/// `spec_monthly_groups`); `None` when a file names no start.
pub open spec fn spec_monthly_cluster_rows(rows: Seq<IntervalRow>) -> Option<Seq<(Seq<char>, Seq<char>, Seq<char>, u64)>> {
    match spec_monthly_groups(rows) {
        None => None,
        Some(g) => Some(spec_monthly_output(g)),
    }
}

/// The views of monthly totals.
pub open spec fn spec_monthly_view(g: Seq<(u64, String, String, u64)>) -> Seq<((u64, Seq<char>, Seq<char>), u64)> {
    g.map_values(|e: (u64, String, String, u64)| ((e.0, e.1@, e.2@), e.3))
}

/// Adds `v` to the total of a start, cluster and markout time (see
/// `spec_monthly_add`).
fn monthly_add(g: &mut Vec<(u64, String, String, u64)>, st: u64, cluster: String, markout: String, v: u64)
    ensures
        spec_monthly_view(final(g)@) == spec_monthly_add(spec_monthly_view(old(g)@), (st, cluster@, markout@), v),
{
    let ghost before = spec_monthly_view(g@);
    let ghost key = (st, cluster@, markout@);
    let mut j: usize = 0;
    while j < g.len()
        invariant
            j <= g.len(),
            before == spec_monthly_view(g@),
            old(g)@ == g@,
            key == (st, cluster@, markout@),
            spec_monthly_find(before, key, 0) == spec_monthly_find(before, key, j as int),
        decreases g.len() - j,
    {
        assert(before[j as int] == ((g@[j as int].0, g@[j as int].1@, g@[j as int].2@), g@[j as int].3));
        if g[j].0 == st && g[j].1 == cluster && g[j].2 == markout {
            proof {
                assert(spec_monthly_find(before, key, j as int) == Some(j as int));
            }
            let t = g[j].3.saturating_add(v);
            g[j].3 = t;
            proof {
                assert(spec_monthly_view(g@) =~= before.update(j as int, (key, spec_sat_add(before[j as int].1, v))));
            }
            return;
        }
        j = j + 1;
    }
    g.push((st, cluster, markout, v));
    proof {
        assert(spec_monthly_view(g@) =~= before.push((key, v)));
    }
}

/// Once a prefix of the rows fails, so do all the rows.
proof fn lemma_monthly_fail(rows: Seq<IntervalRow>, i: int)
    requires
        0 <= i < rows.len(),
        spec_monthly_groups(rows.take(i + 1)) is None,
    ensures
        spec_monthly_groups(rows) is None,
    decreases rows.len(),
{
    if i + 1 < rows.len() {
        assert(rows.drop_last().take(i + 1) =~= rows.take(i + 1));
        lemma_monthly_fail(rows.drop_last(), i);
    } else {
        assert(rows.take(i + 1) =~= rows);
    }
}

/// Every key of the monthly totals has a month label.
proof fn lemma_monthly_labels(rows: Seq<IntervalRow>)
    ensures
        spec_monthly_groups(rows) matches Some(g)
            ==> forall|k: int| 0 <= k < g.len() ==> spec_range_label((#[trigger] g[k]).0.0) is Some,
    decreases rows.len(),
{
    if rows.len() > 0 {
        lemma_monthly_labels(rows.drop_last());
        match spec_monthly_groups(rows.drop_last()) {
            None => {},
            Some(prev) => {
                let r = rows.last();
                match spec_file_name_start(r.file_path@) {
                    None => {},
                    Some(st) => {
                        if !(spec_range_label(st) is None || r.non_zero_count == 0) {
                            match spec_cluster_name(r.pair_address@) {
                                None => {},
                                Some(c) => {
                                    let key = (st, c, r.markout_time@);
                                    match spec_monthly_find(prev, key, 0) {
                                        Some(j) => {
                                            lemma_monthly_found(prev, key, 0, j);
                                        },
                                        None => {},
                                    }
                                },
                            }
                        }
                    },
                }
            },
        }
    }
}

/// A found total holds its key and lies in the list.
proof fn lemma_monthly_found(g: Seq<((u64, Seq<char>, Seq<char>), u64)>, key: (u64, Seq<char>, Seq<char>), i: int, j: int)
    requires
        spec_monthly_find(g, key, i) == Some(j),
    ensures
        i <= j < g.len(),
        g[j].0 == key,
    decreases g.len() - i,
{
    if i >= 0 && i < g.len() && g[i].0 != key {
        lemma_monthly_found(g, key, i + 1, j);
    }
}

/// The precomputed monthly cluster totals of the interval rows (see
/// `spec_monthly_cluster_rows`).
pub fn monthly_cluster_rows(rows: &Vec<IntervalRow>) -> (r: Option<Vec<MonthlyClusterRow>>)
    ensures
        match r {
            Some(v) => spec_monthly_cluster_rows(rows@) == Some(spec_monthly_rows_view(v@)),
            None => spec_monthly_cluster_rows(rows@) is None,
        },
{
    let mut groups: Vec<(u64, String, String, u64)> = Vec::new();
    let mut i: usize = 0;
    while i < rows.len()
        invariant
            i <= rows.len(),
            spec_monthly_groups(rows@.take(i as int)) == Some(spec_monthly_view(groups@)),
        decreases rows.len() - i,
    {
        let r = &rows[i];
        proof {
            assert(rows@.take(i + 1).drop_last() =~= rows@.take(i as int));
            assert(rows@.take(i + 1).last() == rows@[i as int]);
        }
        let st = match file_name_start(r.file_path.as_str()) {
            None => {
                proof {
                    lemma_monthly_fail(rows@, i as int);
                }
                return None;
            },
            Some(st) => st,
        };
        if interval_range_label(st).is_some() && r.non_zero_count != 0 {
            match get_cluster_name(r.pair_address.as_str()) {
                None => {},
                Some(c) => {
                    let t = match r.total_lvr_cents {
                        Some(t) => t,
                        None => 0,
                    };
                    monthly_add(&mut groups, st, String::from_str(c), r.markout_time.clone(), t);
                },
            }
        }
        i = i + 1;
    }
    assert(rows@.take(rows.len() as int) =~= rows@);
    let ghost gv = spec_monthly_view(groups@);
    proof {
        lemma_monthly_labels(rows@);
    }
    let mut out: Vec<MonthlyClusterRow> = Vec::new();
    let mut k: usize = 0;
    while k < groups.len()
        invariant
            k <= groups.len(),
            gv == spec_monthly_view(groups@),
            spec_monthly_groups(rows@) == Some(gv),
            forall|q: int| 0 <= q < gv.len() ==> spec_range_label((#[trigger] gv[q]).0.0) is Some,
            spec_monthly_rows_view(out@) == spec_monthly_output(gv.take(k as int)),
        decreases groups.len() - k,
    {
        let g = &groups[k];
        let ghost before = spec_monthly_rows_view(out@);
        assert(gv[k as int] == ((g.0, g.1@, g.2@), g.3));
        let label = match interval_range_label(g.0) {
            Some(l) => String::from_str(l),
            None => String::new(),
        };
        let row = MonthlyClusterRow {
            time_range: label,
            cluster_name: g.1.clone(),
            markout_time: g.2.clone(),
            total_lvr_cents: g.3,
        };
        out.push(row);
        proof {
            assert(gv.take(k + 1) =~= gv.take(k as int).push(gv[k as int]));
            assert(spec_monthly_output(gv.take(k + 1)) =~= spec_monthly_output(gv.take(k as int)).push(row@));
            assert(spec_monthly_rows_view(out@) =~= before.push(row@));
        }
        k = k + 1;
    }
    assert(gv.take(groups.len() as int) =~= gv);
    Some(out)
}

/// The markout time whose cluster shares a request asks for.
pub struct ClusterQuery {
    pub markout_time: Option<String>,
}

/// The LVR total of one cluster.
pub struct ClusterTotal {
    pub name: String,
    pub total_lvr_cents: u64,
}

/// The cluster totals answering a request, largest first, and their sum.
pub struct ClusterPieResponse {
    pub clusters: Vec<ClusterTotal>,
    pub total_lvr_cents: u64,
}

/// One row of the precomputed cluster totals.
pub struct ClusterTotalRow {
    pub cluster_name: String,
    pub markout_time: String,
    pub total_lvr_cents: u64,
}

impl View for ClusterTotal {
    /// Cluster and total.
    type V = (Seq<char>, u64);

    open spec fn view(&self) -> Self::V {
        (self.name@, self.total_lvr_cents)
    }
}

impl RankKey for ClusterTotal {
    open spec fn spec_rank(&self) -> u64 {
        self.total_lvr_cents
    }

    fn rank(&self) -> (r: u64) {
        self.total_lvr_cents
    }
}

/// The views of a sequence of cluster totals.
pub open spec fn spec_cluster_totals_view(v: Seq<ClusterTotal>) -> Seq<(Seq<char>, u64)> {
    v.map_values(|t: ClusterTotal| t@)
}

/// The totals of the precomputed cluster rows of a markout time, in row
/// order.
pub open spec fn spec_cluster_rows_of(rows: Seq<ClusterTotalRow>, markout: Seq<char>) -> Seq<(Seq<char>, u64)>
    decreases rows.len(),
{
    if rows.len() == 0 {
        Seq::empty()
    } else {
        let prev = spec_cluster_rows_of(rows.drop_last(), markout);
        let r = rows.last();
        if r.markout_time@ == markout {
            prev.push((r.cluster_name@, r.total_lvr_cents))
        } else {
            prev
        }
    }
}

/// The saturating sum of the totals.
pub open spec fn spec_sat_total(s: Seq<(Seq<char>, u64)>) -> u64
    decreases s.len(),
{
    if s.len() == 0 {
        0
    } else {
        spec_sat_add(spec_sat_total(s.drop_last()), s.last().1)
    }
}

/// The key by which cluster totals are ranked.
pub open spec fn spec_cluster_key(v: (Seq<char>, u64)) -> u64 {
    v.1
}

/// The cluster shares of a markout time (`brontes` unless the request
/// names one), read from the precomputed rows: the rows of that markout
/// time, largest total first, ties in row order, and the saturating sum of
/// their totals.
pub fn get_cluster_proportion(query: &ClusterQuery, rows: &Vec<ClusterTotalRow>) -> (r: ClusterPieResponse)
    ensures
        spec_cluster_totals_view(r.clusters@) == spec_rank_desc(
            spec_cluster_rows_of(rows@, spec_markout_or_brontes(query.markout_time)),
            |x: (Seq<char>, u64)| spec_cluster_key(x),
        ),
        r.total_lvr_cents == spec_sat_total(spec_cluster_rows_of(rows@, spec_markout_or_brontes(query.markout_time))),
{
    let markout = match &query.markout_time {
        Some(m) => m.clone(),
        None => String::from_str("brontes"),
    };
    let ghost m = markout@;
    let mut out: Vec<ClusterTotal> = Vec::new();
    let mut total: u64 = 0;
    let mut i: usize = 0;
    while i < rows.len()
        invariant
            i <= rows.len(),
            markout@ == m,
            m == spec_markout_or_brontes(query.markout_time),
            spec_cluster_totals_view(out@) == spec_cluster_rows_of(rows@.take(i as int), m),
            total == spec_sat_total(spec_cluster_rows_of(rows@.take(i as int), m)),
        decreases rows.len() - i,
    {
        let r = &rows[i];
        let ghost before = spec_cluster_totals_view(out@);
        proof {
            assert(rows@.take(i + 1).drop_last() =~= rows@.take(i as int));
            assert(rows@.take(i + 1).last() == rows@[i as int]);
        }
        if r.markout_time == markout {
            total = total.saturating_add(r.total_lvr_cents);
            let t = ClusterTotal { name: r.cluster_name.clone(), total_lvr_cents: r.total_lvr_cents };
            out.push(t);
            proof {
                assert(spec_cluster_totals_view(out@) =~= before.push(t@));
                assert(spec_cluster_rows_of(rows@.take(i + 1), m) == before.push(t@));
                assert(spec_cluster_rows_of(rows@.take(i + 1), m).drop_last() =~= before);
            }
        }
        i = i + 1;
    }
    assert(rows@.take(rows.len() as int) =~= rows@);
    let ghost unranked = out@;
    let ranked = rank_desc(out);
    proof {
        let kt = |t: ClusterTotal| t.spec_rank();
        let f = |t: ClusterTotal| t@;
        let kv = |x: (Seq<char>, u64)| spec_cluster_key(x);
        assert forall|a: ClusterTotal| #[trigger] kv(f(a)) == kt(a) by {}
        lemma_rank_desc_map(unranked, kt, f, kv);
    }
    ClusterPieResponse { clusters: ranked, total_lvr_cents: total }
}

/// The saturating sum of counts, left to right.
pub open spec fn spec_sat_sum(s: Seq<u64>) -> u64
    decreases s.len(),
{
    if s.len() == 0 {
        0
    } else {
        spec_sat_add(spec_sat_sum(s.drop_last()), s.last())
    }
}

/// The saturating sum of counts (see `spec_sat_sum`).
fn sat_sum(v: &Vec<u64>) -> (r: u64)
    ensures
        r == spec_sat_sum(v@),
{
    let mut acc: u64 = 0;
    let mut i: usize = 0;
    while i < v.len()
        invariant
            i <= v.len(),
            acc == spec_sat_sum(v@.take(i as int)),
        decreases v.len() - i,
    {
        assert(v@.take(i + 1).drop_last() =~= v@.take(i as int));
        assert(v@.take(i + 1).last() == v@[i as int]);
        acc = acc.saturating_add(v[i]);
        i = i + 1;
    }
    assert(v@.take(v.len() as int) =~= v@);
    acc
}

/// How many blocks of one cluster and markout time were counted, and how
/// many of them were non-zero.
pub struct ClusterActivityRow {
    pub cluster_name: String,
    pub markout_time: String,
    pub total_observations: u64,
    pub non_zero_observations: u64,
}

impl View for ClusterActivityRow {
    /// Cluster, markout time, blocks and non-zero blocks.
    type V = (Seq<char>, Seq<char>, u64, u64);

    open spec fn view(&self) -> Self::V {
        (self.cluster_name@, self.markout_time@, self.total_observations, self.non_zero_observations)
    }
}

/// The views of a sequence of cluster activity rows.
pub open spec fn spec_activity_view(v: Seq<ClusterActivityRow>) -> Seq<(Seq<char>, Seq<char>, u64, u64)> {
    v.map_values(|t: ClusterActivityRow| t@)
}

/// The first index, from `i` on, of the counts of a cluster and markout
/// time.
pub open spec fn spec_activity_find(g: Seq<(Seq<char>, Seq<char>, u64, u64)>, c: Seq<char>, m: Seq<char>, i: int) -> Option<int>
    decreases g.len() - i,
{
    if i < 0 || i >= g.len() {
        None
    } else if g[i].0 == c && g[i].1 == m {
        Some(i)
    } else {
        spec_activity_find(g, c, m, i + 1)
    }
}

/// The counts with `total` blocks, `non_zero` of them non-zero, added,
/// saturating, to those of a cluster and markout time, new counts last.
pub open spec fn spec_activity_add(g: Seq<(Seq<char>, Seq<char>, u64, u64)>, c: Seq<char>, m: Seq<char>, total: u64, non_zero: u64) -> Seq<(Seq<char>, Seq<char>, u64, u64)> {
    match spec_activity_find(g, c, m, 0) {
        Some(j) => g.update(j, (c, m, spec_sat_add(g[j].2, total), spec_sat_add(g[j].3, non_zero))),
        None => g.push((c, m, total, non_zero)),
    }
}

/// Whether a checkpoint row of a cluster has a block count that fits in 64
/// bits.
pub open spec fn spec_activity_fits(r: CheckpointRow) -> bool {
    (spec_checkpoint_markout(r.file_path@) is Some && spec_cluster_name(r.pair_address@) is Some)
        ==> r.total_bucket_0 + spec_sat_sum(r.non_zero_buckets@) <= u64::MAX
}

/// The block counts of the checkpoint rows by cluster and markout time, in
/// the order of their first row: each row adds its zero blocks plus its
/// non-zero blocks (their saturating sum) to the blocks, and the latter to
/// the non-zero blocks, saturating. Rows of pools outside every cluster
/// are left out; `None` when a file names no markout time.
pub open spec fn spec_cluster_activity(rows: Seq<CheckpointRow>) -> Option<Seq<(Seq<char>, Seq<char>, u64, u64)>>
    decreases rows.len(),
{
    if rows.len() == 0 {
        Some(Seq::empty())
    } else {
        match spec_cluster_activity(rows.drop_last()) {
            None => None,
            Some(prev) => {
                let r = rows.last();
                match spec_checkpoint_markout(r.file_path@) {
                    None => None,
                    Some(m) => match spec_cluster_name(r.pair_address@) {
                        None => Some(prev),
                        Some(c) => {
                            let nz = spec_sat_sum(r.non_zero_buckets@);
                            Some(spec_activity_add(prev, c, m, (r.total_bucket_0 + nz) as u64, nz))
                        },
                    },
                }
            },
        }
    }
}

/// Once a prefix of the rows fails, so do all the rows.
proof fn lemma_activity_fail(rows: Seq<CheckpointRow>, i: int)
    requires
        0 <= i < rows.len(),
        spec_cluster_activity(rows.take(i + 1)) is None,
    ensures
        spec_cluster_activity(rows) is None,
    decreases rows.len(),
{
    if i + 1 < rows.len() {
        assert(rows.drop_last().take(i + 1) =~= rows.take(i + 1));
        lemma_activity_fail(rows.drop_last(), i);
    } else {
        assert(rows.take(i + 1) =~= rows);
    }
}

/// The block counts of the checkpoint rows by cluster and markout time
/// (see `spec_cluster_activity`).
pub fn cluster_activity_rows(rows: &Vec<CheckpointRow>) -> (r: Option<Vec<ClusterActivityRow>>)
    requires
        forall|i: int| 0 <= i < rows.len() ==> spec_activity_fits(#[trigger] rows@[i]),
    ensures
        match r {
            Some(v) => spec_cluster_activity(rows@) == Some(spec_activity_view(v@)),
            None => spec_cluster_activity(rows@) is None,
        },
{
    let mut out: Vec<ClusterActivityRow> = Vec::new();
    let mut i: usize = 0;
    while i < rows.len()
        invariant
            i <= rows.len(),
            forall|k: int| 0 <= k < rows.len() ==> spec_activity_fits(#[trigger] rows@[k]),
            spec_cluster_activity(rows@.take(i as int)) == Some(spec_activity_view(out@)),
        decreases rows.len() - i,
    {
        let r = &rows[i];
        proof {
            assert(rows@.take(i + 1).drop_last() =~= rows@.take(i as int));
            assert(rows@.take(i + 1).last() == rows@[i as int]);
            assert(spec_activity_fits(rows@[i as int]));
        }
        let m = match checkpoint_markout(r.file_path.as_str()) {
            None => {
                proof {
                    lemma_activity_fail(rows@, i as int);
                }
                return None;
            },
            Some(m) => m,
        };
        match get_cluster_name(r.pair_address.as_str()) {
            None => {},
            Some(c) => {
                let nz = sat_sum(&r.non_zero_buckets);
                let total = r.total_bucket_0 + nz;
                let cluster = String::from_str(c);
                let ghost before = spec_activity_view(out@);
                let mut j: usize = 0;
                let mut found = false;
                while j < out.len() && !found
                    invariant
                        j <= out.len(),
                        before == spec_activity_view(out@),
                        !found ==> spec_activity_find(before, cluster@, m@, 0) == spec_activity_find(before, cluster@, m@, j as int),
                        found ==> j < out.len() && spec_activity_find(before, cluster@, m@, 0) == Some(j as int),
                        found ==> out@[j as int].cluster_name@ == cluster@ && out@[j as int].markout_time@ == m@,
                    decreases out.len() - j + (if found { 0int } else { 1int }),
                {
                    assert(before[j as int] == out@[j as int]@);
                    if out[j].cluster_name == cluster && out[j].markout_time == m {
                        assert(spec_activity_find(before, cluster@, m@, j as int) == Some(j as int));
                        found = true;
                    } else {
                        j = j + 1;
                    }
                }
                if found {
                    let t = out[j].total_observations.saturating_add(total);
                    let n = out[j].non_zero_observations.saturating_add(nz);
                    out[j].total_observations = t;
                    out[j].non_zero_observations = n;
                    proof {
                        assert(spec_activity_view(out@) =~= before.update(j as int, (cluster@, m@, t, n)));
                    }
                } else {
                    let row = ClusterActivityRow {
                        cluster_name: cluster,
                        markout_time: m,
                        total_observations: total,
                        non_zero_observations: nz,
                    };
                    out.push(row);
                    proof {
                        assert(spec_activity_view(out@) =~= before.push(row@));
                    }
                }
            },
        }
        i = i + 1;
    }
    assert(rows@.take(rows.len() as int) =~= rows@);
    Some(out)
}

impl View for ClusterTotalRow {
    /// Cluster, markout time and total.
    type V = (Seq<char>, Seq<char>, u64);

    open spec fn view(&self) -> Self::V {
        (self.cluster_name@, self.markout_time@, self.total_lvr_cents)
    }
}

/// The views of a sequence of precomputed cluster total rows.
pub open spec fn spec_cluster_total_rows_view(v: Seq<ClusterTotalRow>) -> Seq<(Seq<char>, Seq<char>, u64)> {
    v.map_values(|t: ClusterTotalRow| t@)
}

/// The first index, from `i` on, of the total of a cluster and markout time.
pub open spec fn spec_cluster_total_find(g: Seq<(Seq<char>, Seq<char>, u64)>, c: Seq<char>, m: Seq<char>, i: int) -> Option<int>
    decreases g.len() - i,
{
    if i < 0 || i >= g.len() {
        None
    } else if g[i].0 == c && g[i].1 == m {
        Some(i)
    } else {
        spec_cluster_total_find(g, c, m, i + 1)
    }
}

/// `amount` added, saturating, to the total of a cluster and markout time,
/// a new total last.
pub open spec fn spec_cluster_total_add(g: Seq<(Seq<char>, Seq<char>, u64)>, c: Seq<char>, m: Seq<char>, amount: u64) -> Seq<(Seq<char>, Seq<char>, u64)> {
    match spec_cluster_total_find(g, c, m, 0) {
        Some(j) => g.update(j, (c, m, spec_sat_add(g[j].2, amount))),
        None => g.push((c, m, amount)),
    }
}

/// The LVR totals of the checkpoint rows by cluster and markout time, in
/// the order of their first row: each row of a pool in a cluster adds the
/// magnitude of its running total, saturating. Rows of pools outside every
/// cluster are left out; `None` when a file names no markout time.
pub open spec fn spec_cluster_total_rows(rows: Seq<CheckpointRow>) -> Option<Seq<(Seq<char>, Seq<char>, u64)>>
    decreases rows.len(),
{
    if rows.len() == 0 {
        Some(Seq::empty())
    } else {
        match spec_cluster_total_rows(rows.drop_last()) {
            None => None,
            Some(prev) => {
                let r = rows.last();
                match spec_checkpoint_markout(r.file_path@) {
                    None => None,
                    Some(m) => match spec_cluster_name(r.pair_address@) {
                        None => Some(prev),
                        Some(c) => Some(spec_cluster_total_add(prev, c, m, spec_unsigned_abs(r.running_total))),
                    },
                }
            },
        }
    }
}

/// Once a prefix of the rows fails, so do all the rows.
proof fn lemma_cluster_totals_fail(rows: Seq<CheckpointRow>, i: int)
    requires
        0 <= i < rows.len(),
        spec_cluster_total_rows(rows.take(i + 1)) is None,
    ensures
        spec_cluster_total_rows(rows) is None,
    decreases rows.len(),
{
    if i + 1 < rows.len() {
        assert(rows.drop_last().take(i + 1) =~= rows.take(i + 1));
        lemma_cluster_totals_fail(rows.drop_last(), i);
    } else {
        assert(rows.take(i + 1) =~= rows);
    }
}

/// The LVR totals of the checkpoint rows by cluster and markout time (see
/// `spec_cluster_total_rows`).
pub fn cluster_total_rows(rows: &Vec<CheckpointRow>) -> (r: Option<Vec<ClusterTotalRow>>)
    ensures
        match r {
            Some(v) => spec_cluster_total_rows(rows@) == Some(spec_cluster_total_rows_view(v@)),
            None => spec_cluster_total_rows(rows@) is None,
        },
{
    let mut out: Vec<ClusterTotalRow> = Vec::new();
    let mut i: usize = 0;
    while i < rows.len()
        invariant
            i <= rows.len(),
            spec_cluster_total_rows(rows@.take(i as int)) == Some(spec_cluster_total_rows_view(out@)),
        decreases rows.len() - i,
    {
        let r = &rows[i];
        proof {
            assert(rows@.take(i + 1).drop_last() =~= rows@.take(i as int));
            assert(rows@.take(i + 1).last() == rows@[i as int]);
        }
        let m = match checkpoint_markout(r.file_path.as_str()) {
            None => {
                proof {
                    lemma_cluster_totals_fail(rows@, i as int);
                }
                return None;
            },
            Some(m) => m,
        };
        match get_cluster_name(r.pair_address.as_str()) {
            None => {},
            Some(c) => {
                let amount = unsigned_abs(r.running_total);
                let cluster = String::from_str(c);
                let ghost before = spec_cluster_total_rows_view(out@);
                let mut j: usize = 0;
                let mut found = false;
                while j < out.len() && !found
                    invariant
                        j <= out.len(),
                        before == spec_cluster_total_rows_view(out@),
                        !found ==> spec_cluster_total_find(before, cluster@, m@, 0) == spec_cluster_total_find(before, cluster@, m@, j as int),
                        found ==> j < out.len() && spec_cluster_total_find(before, cluster@, m@, 0) == Some(j as int),
                        found ==> out@[j as int].cluster_name@ == cluster@ && out@[j as int].markout_time@ == m@,
                    decreases out.len() - j + (if found { 0int } else { 1int }),
                {
                    assert(before[j as int] == out@[j as int]@);
                    if out[j].cluster_name == cluster && out[j].markout_time == m {
                        assert(spec_cluster_total_find(before, cluster@, m@, j as int) == Some(j as int));
                        found = true;
                    } else {
                        j = j + 1;
                    }
                }
                if found {
                    let t = out[j].total_lvr_cents.saturating_add(amount);
                    out[j].total_lvr_cents = t;
                    proof {
                        assert(spec_cluster_total_rows_view(out@) =~= before.update(j as int, (cluster@, m@, t)));
                    }
                } else {
                    let row = ClusterTotalRow { cluster_name: cluster, markout_time: m, total_lvr_cents: amount };
                    out.push(row);
                    proof {
                        assert(spec_cluster_total_rows_view(out@) =~= before.push(row@));
                    }
                }
            },
        }
        i = i + 1;
    }
    assert(rows@.take(rows.len() as int) =~= rows@);
    Some(out)
}

/// The markout time whose monthly cluster totals a request asks for.
pub struct MonthlyClusterQuery {
    pub markout_time: Option<String>,
}

/// The cluster totals of one month.
pub struct MonthlyData {
    pub time_range: String,
    /// Each cluster with its total, in the order of their first row.
    pub cluster_totals: Vec<(String, u64)>,
    pub total_lvr_cents: u64,
}

/// The monthly cluster totals answering a request, months in order, and
/// the clusters that occur, sorted.
pub struct ClusterMonthlyResponse {
    pub monthly_data: Vec<MonthlyData>,
    pub clusters: Vec<String>,
}

/// The first block of the month with label `label`, zero when no month has
/// it.
pub open spec fn spec_range_block(label: Seq<char>) -> u64 {
    spec_range_block_from(label, 0)
}

/// The first block of the first month, from index `i` on, with label
/// `label`, zero when none has it.
pub open spec fn spec_range_block_from(label: Seq<char>, i: int) -> u64
    decreases spec_range_labels().len() - i,
{
    if i < 0 || i >= spec_range_labels().len() {
        0
    } else if spec_range_labels()[i] == label {
        spec_range_starts()[i]
    } else {
        spec_range_block_from(label, i + 1)
    }
}

/// The first block of the month with label `label` (see
/// `spec_range_block`).
fn range_block(label: &String) -> (r: u64)
    ensures
        r == spec_range_block(label@),
{
    let table = interval_ranges();
    let mut i: usize = 0;
    while i < table.len()
        invariant
            i <= table.len(),
            table.len() == spec_range_starts().len(),
            spec_range_starts().len() == spec_range_labels().len(),
            forall|q: int| 0 <= q < table.len() ==> (#[trigger] table@[q]).0 == spec_range_starts()[q],
            forall|q: int| 0 <= q < table.len() ==> (#[trigger] table@[q]).1@ == spec_range_labels()[q],
            spec_range_block(label@) == spec_range_block_from(label@, i as int),
        decreases table.len() - i,
    {
        let (b, l) = table[i];
        if crate::text::eq_str(l, label.as_str()) {
            return b;
        }
        i = i + 1;
    }
    0
}

impl View for MonthlyData {
    /// Time range, cluster totals and total.
    type V = (Seq<char>, Seq<(Seq<char>, u64)>, u64);

    open spec fn view(&self) -> Self::V {
        (self.time_range@, spec_assoc_view(self.cluster_totals@), self.total_lvr_cents)
    }
}

impl RankKey for MonthlyData {
    open spec fn spec_rank(&self) -> u64 {
        (u64::MAX - spec_range_block(self.time_range@)) as u64
    }

    fn rank(&self) -> (r: u64) {
        u64::MAX - range_block(&self.time_range)
    }
}

/// The views of a sequence of monthly totals.
pub open spec fn spec_monthly_data_view(v: Seq<MonthlyData>) -> Seq<(Seq<char>, Seq<(Seq<char>, u64)>, u64)> {
    v.map_values(|t: MonthlyData| t@)
}

/// The first index, from `i` on, of the month with label `label`.
pub open spec fn spec_month_find(g: Seq<(Seq<char>, Seq<(Seq<char>, u64)>, u64)>, label: Seq<char>, i: int) -> Option<int>
    decreases g.len() - i,
{
    if i < 0 || i >= g.len() {
        None
    } else if g[i].0 == label {
        Some(i)
    } else {
        spec_month_find(g, label, i + 1)
    }
}

/// Where a sorted insertion puts text `x`: just after the last element
/// that does not come after it.
pub open spec fn spec_name_slot(s: Seq<Seq<char>>, x: Seq<char>) -> int
    decreases s.len(),
{
    if s.len() == 0 {
        0
    } else if !spec_text_lt(x, s.last()) {
        s.len() as int
    } else {
        spec_name_slot(s.drop_last(), x)
    }
}

/// The names with `x` inserted in order, unless it is there already.
pub open spec fn spec_name_insert(s: Seq<Seq<char>>, x: Seq<char>) -> Seq<Seq<char>> {
    if s.contains(x) {
        s
    } else {
        s.insert(spec_name_slot(s, x), x)
    }
}

/// The monthly totals and the sorted clusters of the precomputed rows of a
/// markout time: for each month, in the order of its first row, each
/// cluster's total (a later row replacing an earlier one) and the
/// saturating sum of the rows' totals; and each cluster once, in text
/// order.
pub open spec fn spec_monthly_scan(rows: Seq<MonthlyClusterRow>, markout: Seq<char>) -> (Seq<(Seq<char>, Seq<(Seq<char>, u64)>, u64)>, Seq<Seq<char>>)
    decreases rows.len(),
{
    if rows.len() == 0 {
        (Seq::empty(), Seq::empty())
    } else {
        let prev = spec_monthly_scan(rows.drop_last(), markout);
        let r = rows.last();
        if r.markout_time@ != markout {
            prev
        } else {
            let names = spec_name_insert(prev.1, r.cluster_name@);
            let months = match spec_month_find(prev.0, r.time_range@, 0) {
                Some(j) => prev.0.update(j, (
                    r.time_range@,
                    spec_assoc_put(prev.0[j].1, r.cluster_name@, r.total_lvr_cents),
                    spec_sat_add(prev.0[j].2, r.total_lvr_cents),
                )),
                None => prev.0.push((r.time_range@, seq![(r.cluster_name@, r.total_lvr_cents)], r.total_lvr_cents)),
            };
            (months, names)
        }
    }
}

/// The key by which months are ordered: the later the month's first
/// block, the lower.
pub open spec fn spec_month_key(v: (Seq<char>, Seq<(Seq<char>, u64)>, u64)) -> u64 {
    (u64::MAX - spec_range_block(v.0)) as u64
}

/// The monthly cluster totals of a markout time (`brontes` unless the
/// request names one), read from the precomputed rows: the months of
/// `spec_monthly_scan` ordered by their first block (unknown months first),
/// ties in the order of their first row, and the sorted clusters.
pub open spec fn spec_get_monthly_cluster_totals(q: MonthlyClusterQuery, rows: Seq<MonthlyClusterRow>) -> (Seq<(Seq<char>, Seq<(Seq<char>, u64)>, u64)>, Seq<Seq<char>>) {
    let scan = spec_monthly_scan(rows, spec_markout_or_brontes(q.markout_time));
    (spec_rank_desc(scan.0, |v: (Seq<char>, Seq<(Seq<char>, u64)>, u64)| spec_month_key(v)), scan.1)
}

/// Inserts a name in order unless it is there (see `spec_name_insert`).
fn name_insert(names: &mut Vec<String>, x: &String)
    ensures
        final(names)@.map_values(|s: String| s@) == spec_name_insert(old(names)@.map_values(|s: String| s@), x@),
{
    let ghost before = names@.map_values(|s: String| s@);
    let mut k: usize = 0;
    while k < names.len()
        invariant
            k <= names.len(),
            before == names@.map_values(|s: String| s@),
            forall|q: int| 0 <= q < k ==> before[q] != x@,
        decreases names.len() - k,
    {
        assert(before[k as int] == names@[k as int]@);
        if names[k] == *x {
            assert(before.contains(x@));
            return;
        }
        k = k + 1;
    }
    assert(!before.contains(x@));
    let mut j = names.len();
    let mut moving = true;
    assert(before.take(j as int) =~= before);
    while moving && j > 0
        invariant
            j <= names.len(),
            before == names@.map_values(|s: String| s@),
            spec_name_slot(before, x@) == spec_name_slot(before.take(j as int), x@),
            !moving ==> j > 0 && !spec_text_lt(x@, before[j - 1]),
        decreases j + (if moving { 1int } else { 0int }),
    {
        assert(before[j - 1] == names@[j - 1]@);
        if crate::running::text_lt(x.as_str(), names[j - 1].as_str()) {
            assert(before.take(j as int).drop_last() =~= before.take(j - 1));
            j = j - 1;
        } else {
            moving = false;
        }
    }
    proof {
        if j > 0 {
            assert(before.take(j as int).last() == before[j - 1]);
        }
        assert(spec_name_slot(before, x@) == j);
    }
    names.insert(j, x.clone());
    proof {
        assert(names@.map_values(|s: String| s@) =~= before.insert(j as int, x@));
    }
}

/// The monthly cluster totals of a markout time read from the precomputed
/// rows (see `spec_get_monthly_cluster_totals`).
pub fn get_monthly_cluster_totals(query: &MonthlyClusterQuery, rows: &Vec<MonthlyClusterRow>) -> (r: ClusterMonthlyResponse)
    ensures
        (spec_monthly_data_view(r.monthly_data@), r.clusters@.map_values(|s: String| s@))
            == spec_get_monthly_cluster_totals(*query, rows@),
{
    let markout = match &query.markout_time {
        Some(m) => m.clone(),
        None => String::from_str("brontes"),
    };
    let ghost m = markout@;
    let mut months: Vec<MonthlyData> = Vec::new();
    let mut names: Vec<String> = Vec::new();
    let mut i: usize = 0;
    while i < rows.len()
        invariant
            i <= rows.len(),
            markout@ == m,
            m == spec_markout_or_brontes(query.markout_time),
            (spec_monthly_data_view(months@), names@.map_values(|s: String| s@))
                == spec_monthly_scan(rows@.take(i as int), m),
        decreases rows.len() - i,
    {
        let r = &rows[i];
        proof {
            assert(rows@.take(i + 1).drop_last() =~= rows@.take(i as int));
            assert(rows@.take(i + 1).last() == rows@[i as int]);
        }
        if r.markout_time == markout {
            name_insert(&mut names, &r.cluster_name);
            let ghost before = spec_monthly_data_view(months@);
            let mut j: usize = 0;
            let mut found = false;
            while j < months.len() && !found
                invariant
                    j <= months.len(),
                    before == spec_monthly_data_view(months@),
                    !found ==> spec_month_find(before, r.time_range@, 0) == spec_month_find(before, r.time_range@, j as int),
                    found ==> j < months.len() && spec_month_find(before, r.time_range@, 0) == Some(j as int),
                    found ==> months@[j as int].time_range@ == r.time_range@,
                decreases months.len() - j + (if found { 0int } else { 1int }),
            {
                assert(before[j as int] == months@[j as int]@);
                if months[j].time_range == r.time_range {
                    assert(spec_month_find(before, r.time_range@, j as int) == Some(j as int));
                    found = true;
                } else {
                    j = j + 1;
                }
            }
            if found {
                let t = months[j].total_lvr_cents.saturating_add(r.total_lvr_cents);
                assoc_put(&mut months[j].cluster_totals, r.cluster_name.clone(), r.total_lvr_cents);
                months[j].total_lvr_cents = t;
                proof {
                    assert(spec_monthly_data_view(months@) =~= before.update(j as int, (
                        r.time_range@,
                        spec_assoc_put(before[j as int].1, r.cluster_name@, r.total_lvr_cents),
                        spec_sat_add(before[j as int].2, r.total_lvr_cents),
                    )));
                }
            } else {
                let mut totals: Vec<(String, u64)> = Vec::new();
                totals.push((r.cluster_name.clone(), r.total_lvr_cents));
                let d = MonthlyData {
                    time_range: r.time_range.clone(),
                    cluster_totals: totals,
                    total_lvr_cents: r.total_lvr_cents,
                };
                months.push(d);
                proof {
                    assert(spec_assoc_view(d.cluster_totals@) =~= seq![(r.cluster_name@, r.total_lvr_cents)]);
                    assert(spec_monthly_data_view(months@) =~= before.push(d@));
                }
            }
        }
        i = i + 1;
    }
    assert(rows@.take(rows.len() as int) =~= rows@);
    let ghost unranked = months@;
    let ranked = rank_desc(months);
    proof {
        let kt = |t: MonthlyData| t.spec_rank();
        let f = |t: MonthlyData| t@;
        let kv = |x: (Seq<char>, Seq<(Seq<char>, u64)>, u64)| spec_month_key(x);
        assert forall|a: MonthlyData| #[trigger] kv(f(a)) == kt(a) by {}
        lemma_rank_desc_map(unranked, kt, f, kv);
    }
    ClusterMonthlyResponse { monthly_data: ranked, clusters: names }
}

} // verus!
