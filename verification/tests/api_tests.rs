use backend::{
    cluster_histogram_rows, get_cluster_proportion, get_lvr_histogram, get_max_lvr,
    get_pool_medians, get_pool_totals, get_running_total, max_lvr_rows, monthly_cluster_rows,
    pool_metric_rows, select_max_lvr, select_pool_totals, ApiError, CheckpointRow, ClusterQuery,
    ClusterTotalRow, HistogramQuery, IntervalRow, MaxLVRQuery, MaxLVRRow, MedianLVRQuery,
    PoolMaxLVRQuery, PoolMetricsRow, PoolTotalsQuery, TimeRangeQuery,
};

const POOL_A: &str = "0x88e6a0c2ddd26feeb64f039a2c41296fcb3f5640";
const POOL_A_UPPER: &str = "0x88E6A0C2DDD26FEEB64F039A2C41296FCB3F5640";
const POOL_B: &str = "0x3416cf6c708da44db2624d63ea0aaef7113527c6";
const FILE: &str = "intervals/15537393_15753392.parquet";

fn interval_row(path: &str, id: u64, markout: &str, pair: &str, total: Option<u64>, non_zero: u64) -> IntervalRow {
    IntervalRow {
        file_path: path.to_string(),
        interval_id: id,
        markout_time: markout.to_string(),
        pair_address: pair.to_string(),
        total_lvr_cents: total,
        max_lvr_cents: 0,
        median_lvr_cents: 0,
        non_zero_count: non_zero,
    }
}

fn checkpoint_row(path: &str, pair: &str, running_total: i64, active: bool) -> CheckpointRow {
    CheckpointRow {
        file_path: path.to_string(),
        pair_address: pair.to_string(),
        running_total,
        max_lvr_value: 0,
        max_lvr_block: 0,
        total_bucket_0: 0,
        non_zero_buckets: vec![0, 0, 0, 0, 0, 0, 0],
        has_activity: active,
    }
}

fn sample_rows() -> Vec<IntervalRow> {
    vec![
        interval_row(FILE, 0, "0.0", POOL_A_UPPER, Some(100), 1),
        interval_row(FILE, 1, "0.0", POOL_A, Some(50), 1),
        interval_row(FILE, 0, "brontes", POOL_A, Some(7), 1),
        interval_row(FILE, 2, "0.0", POOL_A, Some(30), 0),
        interval_row(FILE, 1, "0.0", POOL_B, Some(20), 1),
        interval_row(FILE, 1, "0.0", "0xdeadbeef", Some(99), 1),
    ]
}

#[test]
fn running_total_aggregates_all_pools() {
    let query = TimeRangeQuery { start_block: None, end_block: None, markout_time: None, aggregate: Some(true), pool: None };
    let points = get_running_total(&query, &sample_rows()).unwrap();
    let got: Vec<(u64, String, u64)> =
        points.iter().map(|p| (p.block_number, p.markout.clone(), p.running_total_cents)).collect();
    assert_eq!(
        got,
        vec![
            (15537393, "0.0".to_string(), 100),
            (15537393, "brontes".to_string(), 7),
            (15544593, "0.0".to_string(), 170),
        ]
    );
    assert!(points.iter().all(|p| p.pool_name.is_none() && p.pool_address.is_none()));
}

#[test]
fn running_total_of_one_pool() {
    let query = TimeRangeQuery {
        start_block: None,
        end_block: None,
        markout_time: None,
        aggregate: None,
        pool: Some(POOL_A_UPPER.to_string()),
    };
    let points = get_running_total(&query, &sample_rows()).unwrap();
    assert_eq!(points.len(), 3);
    assert_eq!(points[0].block_number, 15537393);
    assert_eq!(points[0].markout, "0.0");
    assert_eq!(points[0].pool_name.as_deref(), Some("USDC-WETH-500"));
    assert_eq!(points[0].pool_address.as_deref(), Some(POOL_A));
    assert_eq!(points[0].running_total_cents, 100);
    assert_eq!(points[1].markout, "brontes");
    assert_eq!(points[1].running_total_cents, 7);
    assert_eq!(points[2].block_number, 15544593);
    assert_eq!(points[2].running_total_cents, 150);
}

#[test]
fn running_total_filters_markout_and_range() {
    let query = TimeRangeQuery {
        start_block: Some(15540000),
        end_block: None,
        markout_time: Some("0.0".to_string()),
        aggregate: Some(true),
        pool: None,
    };
    let points = get_running_total(&query, &sample_rows()).unwrap();
    assert_eq!(points.len(), 1);
    assert_eq!(points[0].block_number, 15544593);
    assert_eq!(points[0].running_total_cents, 70);
}

#[test]
fn running_total_skips_unchanged_points() {
    let rows = vec![interval_row(FILE, 0, "0.0", POOL_A, Some(100), 1), interval_row(FILE, 1, "0.0", POOL_A, Some(0), 1)];
    let query = TimeRangeQuery { start_block: None, end_block: None, markout_time: None, aggregate: Some(true), pool: None };
    let points = get_running_total(&query, &rows).unwrap();
    assert_eq!(points.len(), 1);
    assert_eq!(points[0].running_total_cents, 100);
}

#[test]
fn running_total_refuses_bad_pools() {
    let no_pool = TimeRangeQuery { start_block: None, end_block: None, markout_time: None, aggregate: None, pool: None };
    assert!(matches!(get_running_total(&no_pool, &sample_rows()), Err(ApiError::BadRequest)));
    let bad_pool = TimeRangeQuery {
        start_block: None,
        end_block: None,
        markout_time: None,
        aggregate: Some(false),
        pool: Some("0x1234".to_string()),
    };
    assert!(matches!(get_running_total(&bad_pool, &sample_rows()), Err(ApiError::BadRequest)));
}

#[test]
fn pool_totals_rank_active_pools() {
    let rows = vec![
        checkpoint_row(&format!("checkpoints/{}_brontes.parquet", POOL_A), POOL_A, -500, true),
        checkpoint_row(&format!("checkpoints/{}_brontes.parquet", POOL_B), POOL_B, 900, true),
        checkpoint_row(&format!("checkpoints/{}_brontes.parquet", POOL_B), POOL_B, 5000, false),
        checkpoint_row(&format!("checkpoints/{}_0.0.parquet", POOL_A), POOL_A, 7000, true),
    ];
    let r = get_pool_totals(&PoolTotalsQuery { markout_time: None }, &rows);
    let got: Vec<(String, String, u64)> =
        r.totals.iter().map(|t| (t.pool_name.clone(), t.pool_address.clone(), t.total_lvr_cents)).collect();
    assert_eq!(
        got,
        vec![
            ("USDC-USDT-100".to_string(), POOL_B.to_string(), 900),
            ("USDC-WETH-500".to_string(), POOL_A.to_string(), 500),
        ]
    );
    let r0 = get_pool_totals(&PoolTotalsQuery { markout_time: Some("0.0".to_string()) }, &rows);
    assert_eq!(r0.totals.len(), 1);
    assert_eq!(r0.totals[0].total_lvr_cents, 7000);
}

#[test]
fn pool_metric_rows_count_blocks() {
    let mut row = checkpoint_row(&format!("checkpoints/{}_brontes.parquet", POOL_A), POOL_A_UPPER, -42, true);
    row.total_bucket_0 = 10;
    row.non_zero_buckets = vec![1, 2, 3, 0, 0, 0, 0];
    let empty = checkpoint_row(&format!("checkpoints/{}_0.0.parquet", POOL_B), POOL_B, 0, false);
    let out = pool_metric_rows(&vec![row, empty]).unwrap();
    assert_eq!(out.len(), 1);
    assert_eq!(out[0].pool_address, POOL_A);
    assert_eq!(out[0].pool_name, "USDC-WETH-500");
    assert_eq!(out[0].markout_time, "brontes");
    assert_eq!(out[0].total_lvr_cents, 42);
    assert_eq!(out[0].non_zero_blocks, 6);
    assert_eq!(out[0].total_blocks, 16);

    let mut unnamed = checkpoint_row("checkpoints/nomarkout", POOL_A, 1, true);
    unnamed.total_bucket_0 = 1;
    assert!(pool_metric_rows(&vec![unnamed]).is_none());
}

#[test]
fn precomputed_pool_totals_filter_and_rank() {
    let row = |name: &str, markout: &str, total: u64, non_zero: u64| PoolMetricsRow {
        pool_address: format!("addr-{}", name),
        pool_name: name.to_string(),
        markout_time: markout.to_string(),
        total_lvr_cents: total,
        non_zero_blocks: non_zero,
        total_blocks: 10,
    };
    let rows = vec![row("a", "brontes", 5, 1), row("b", "brontes", 9, 1), row("c", "brontes", 50, 0), row("d", "0.0", 70, 3)];
    let r = select_pool_totals(&PoolTotalsQuery { markout_time: None }, &rows);
    let names: Vec<&str> = r.totals.iter().map(|t| t.pool_name.as_str()).collect();
    assert_eq!(names, vec!["b", "a"]);
}

#[test]
fn histogram_of_one_pool() {
    let mut row = checkpoint_row(&format!("checkpoints/{}_0.0.parquet", POOL_A), POOL_A, 0, true);
    row.non_zero_buckets = vec![1, 2, 3, 4, 5, 6, 7];
    let rows = vec![checkpoint_row(&format!("checkpoints/{}_0.5.parquet", POOL_A), POOL_A, 0, true), row];
    let q = HistogramQuery { pool_address: POOL_A_UPPER.to_string(), markout_time: "0.0".to_string() };
    let h = get_lvr_histogram(&q, &rows).unwrap();
    assert_eq!(h.pool_name, "USDC-WETH-500");
    assert_eq!(h.pool_address, POOL_A);
    assert_eq!(h.counts, vec![1, 2, 3, 4, 5, 6, 7]);
    assert_eq!(h.total_observations, 28);

    let missing = HistogramQuery { pool_address: POOL_A.to_string(), markout_time: "1.0".to_string() };
    assert!(matches!(get_lvr_histogram(&missing, &rows), Err(ApiError::NotFound)));
    let invalid = HistogramQuery { pool_address: "0xabc".to_string(), markout_time: "0.0".to_string() };
    assert!(matches!(get_lvr_histogram(&invalid, &rows), Err(ApiError::BadRequest)));
}

#[test]
fn pool_medians_take_the_middle() {
    let mut rows = Vec::new();
    for (pair, median) in [(POOL_A, 10u64), (POOL_B, 5), (POOL_A, 30), (POOL_A, 20), (POOL_B, 7), (POOL_B, 0)] {
        let mut r = interval_row(FILE, 0, "brontes", pair, Some(1), 1);
        r.median_lvr_cents = median;
        rows.push(r);
    }
    let mut other = interval_row(FILE, 0, "0.0", POOL_B, Some(1), 1);
    other.median_lvr_cents = 1000;
    rows.push(other);
    let r = get_pool_medians(&MedianLVRQuery { markout_time: None }, &rows);
    let got: Vec<(String, u64)> = r.medians.iter().map(|m| (m.pool_address.clone(), m.median_lvr_cents)).collect();
    assert_eq!(got, vec![(POOL_A.to_string(), 20), (POOL_B.to_string(), 6)]);
}

#[test]
fn pool_medians_of_large_values() {
    let mut rows = Vec::new();
    for median in [u64::MAX, u64::MAX - 2] {
        let mut r = interval_row(FILE, 0, "brontes", POOL_A, Some(1), 1);
        r.median_lvr_cents = median;
        rows.push(r);
    }
    let r = get_pool_medians(&MedianLVRQuery { markout_time: None }, &rows);
    assert_eq!(r.medians[0].median_lvr_cents, u64::MAX - 1);
}

#[test]
fn running_total_checked_refuses_first() {
    let q = TimeRangeQuery { start_block: None, end_block: None, markout_time: None, aggregate: None, pool: None };
    assert!(backend::query_refused(&q));
    assert!(matches!(backend::get_running_total_checked(&q, &sample_rows()), Some(Err(ApiError::BadRequest))));
    let agg = TimeRangeQuery { start_block: None, end_block: None, markout_time: None, aggregate: Some(true), pool: None };
    assert!(!backend::query_refused(&agg));
    let direct = get_running_total(&agg, &sample_rows()).unwrap();
    let checked = backend::get_running_total_checked(&agg, &sample_rows()).unwrap().unwrap();
    assert_eq!(direct.len(), checked.len());
    assert!(sample_rows().iter().all(|r| backend::row_fits(&agg, r) && backend::row_block_fits(r)));
    let far = format!("intervals/{}_{}.parquet", u64::MAX - 7200, u64::MAX);
    let huge = interval_row(&far, 5, "brontes", POOL_A, Some(3), 1);
    assert!(!backend::row_block_fits(&huge));
    let wide = TimeRangeQuery { start_block: Some(0), end_block: Some(u64::MAX), markout_time: None, aggregate: Some(true), pool: None };
    assert!(!backend::row_fits(&wide, &huge));
    assert!(backend::get_running_total_checked(&wide, &vec![huge]).is_none());
}

fn max_rows() -> Vec<CheckpointRow> {
    let mk = |markout: &str, pair: &str, value: u64, block: u64| {
        let mut r = checkpoint_row(&format!("checkpoints/{}_{}.parquet", pair, markout), pair, 0, true);
        r.max_lvr_value = value;
        r.max_lvr_block = block;
        r
    };
    vec![
        mk("0.0", POOL_A, 1000, 111),
        mk("0.5", POOL_A, 800, 112),
        mk("brontes", POOL_A, 900, 113),
        mk("brontes", POOL_B, 50, 114),
    ]
}

#[test]
fn max_lvr_rows_check_brontes_against_theory() {
    let out = max_lvr_rows(&max_rows()).unwrap();
    let got: Vec<(String, String, u64, u64)> =
        out.iter().map(|r| (r.pool_address.clone(), r.markout_time.clone(), r.block_number, r.max_lvr_cents)).collect();
    assert_eq!(
        got,
        vec![
            (POOL_A.to_string(), "0.0".to_string(), 111, 1000),
            (POOL_A.to_string(), "0.5".to_string(), 112, 800),
            (POOL_B.to_string(), "brontes".to_string(), 114, 50),
        ]
    );
    assert_eq!(out[0].pool_name, "USDC-WETH-500");
}

#[test]
fn max_lvr_of_one_pool() {
    let mut iv = vec![
        interval_row(FILE, 2, "brontes", POOL_A, Some(1), 1),
        interval_row(FILE, 3, "brontes", POOL_A, Some(1), 1),
        interval_row(FILE, 4, "brontes", POOL_A, Some(1), 1),
    ];
    iv[0].max_lvr_cents = 700;
    iv[1].max_lvr_cents = 850;
    iv[2].max_lvr_cents = 600;
    let q = PoolMaxLVRQuery { pool_address: POOL_A.to_string(), markout_time: "brontes".to_string() };
    let d = get_max_lvr(&q, &max_rows(), &iv).unwrap();
    assert_eq!(d.lvr_cents, 700);
    assert_eq!(d.block_number, 15537393 + 2 * 7200);
    assert_eq!(d.pool_name, "USDC-WETH-500");

    let q0 = PoolMaxLVRQuery { pool_address: POOL_A_UPPER.to_string(), markout_time: "0.0".to_string() };
    let d0 = get_max_lvr(&q0, &max_rows(), &iv).unwrap();
    assert_eq!((d0.block_number, d0.lvr_cents), (111, 1000));

    let q1 = PoolMaxLVRQuery { pool_address: POOL_A.to_string(), markout_time: "1.0".to_string() };
    assert!(matches!(get_max_lvr(&q1, &max_rows(), &iv), Err(ApiError::NotFound)));
    let qb = PoolMaxLVRQuery { pool_address: "0x0".to_string(), markout_time: "0.0".to_string() };
    assert!(matches!(get_max_lvr(&qb, &max_rows(), &iv), Err(ApiError::BadRequest)));
}

#[test]
fn precomputed_maxima_rank_by_value() {
    let row = |name: &str, markout: &str, value: u64| MaxLVRRow {
        pool_address: format!("addr-{}", name),
        pool_name: name.to_string(),
        markout_time: markout.to_string(),
        block_number: 1,
        max_lvr_cents: value,
    };
    let rows = vec![row("a", "0.0", 5), row("b", "0.0", 9), row("c", "1.0", 50), row("d", "0.0", 5)];
    let r = select_max_lvr(&MaxLVRQuery { markout_time: "0.0".to_string() }, &rows);
    let names: Vec<&str> = r.pools.iter().map(|t| t.pool_name.as_str()).collect();
    assert_eq!(names, vec!["b", "a", "d"]);
}

#[test]
fn cluster_histograms_sum_by_cluster() {
    let mut a1 = checkpoint_row(&format!("checkpoints/{}_0.0.parquet", POOL_A), POOL_A, 0, true);
    a1.non_zero_buckets = vec![1, 0, 2, 0, 0, 0, 0];
    let mut a2 = checkpoint_row(&format!("checkpoints/other/{}_0.0.parquet", POOL_A), POOL_A_UPPER, 0, true);
    a2.non_zero_buckets = vec![1, 1, 0, 0, 0, 0, 0];
    let mut b = checkpoint_row(&format!("checkpoints/{}_brontes.parquet", POOL_B), POOL_B, 0, true);
    b.non_zero_buckets = vec![0, 0, 0, 0, 0, 0, 3];
    let out = cluster_histogram_rows(&vec![a1, a2, b]).unwrap();
    let got: Vec<(String, String, usize, u64)> =
        out.iter().map(|r| (r.cluster_name.clone(), r.markout_time.clone(), r.bucket, r.count)).collect();
    assert_eq!(
        got,
        vec![
            ("USDC-WETH".to_string(), "0.0".to_string(), 0, 2),
            ("USDC-WETH".to_string(), "0.0".to_string(), 1, 1),
            ("USDC-WETH".to_string(), "0.0".to_string(), 2, 2),
            ("Stable Pairs".to_string(), "brontes".to_string(), 6, 3),
        ]
    );
}

#[test]
fn monthly_cluster_totals_by_month() {
    let month = "intervals/15537392_15753392.parquet";
    let rows = vec![
        interval_row(month, 0, "0.0", POOL_A, Some(100), 1),
        interval_row(month, 1, "0.0", POOL_A, Some(50), 1),
        interval_row(month, 1, "0.0", POOL_A, Some(70), 0),
        interval_row(FILE, 1, "0.0", POOL_A, Some(70), 1),
    ];
    let out = monthly_cluster_rows(&rows).unwrap();
    assert_eq!(out.len(), 1);
    assert_eq!(out[0].time_range, "Sep 15 - Oct 15, 2022");
    assert_eq!(out[0].cluster_name, "USDC-WETH");
    assert_eq!(out[0].markout_time, "0.0");
    assert_eq!(out[0].total_lvr_cents, 150);
    assert!(monthly_cluster_rows(&vec![interval_row("intervals/abc_def.parquet", 0, "0.0", POOL_A, Some(1), 1)]).is_none());
}

#[test]
fn cluster_proportion_ranks_and_sums() {
    let row = |name: &str, markout: &str, total: u64| ClusterTotalRow {
        cluster_name: name.to_string(),
        markout_time: markout.to_string(),
        total_lvr_cents: total,
    };
    let rows = vec![row("a", "brontes", 10), row("b", "brontes", 30), row("c", "0.0", 99)];
    let r = get_cluster_proportion(&ClusterQuery { markout_time: None }, &rows);
    let names: Vec<&str> = r.clusters.iter().map(|c| c.name.as_str()).collect();
    assert_eq!(names, vec!["b", "a"]);
    assert_eq!(r.total_lvr_cents, 40);
}
