use backend::{get_quartile_plot, QuartilePlotQuery, QuartileRow};
use backend::{
    band_snapshots, cluster_activity_rows, cluster_total_rows, get_monthly_cluster_totals,
    get_precomputed_running_total, histogram_rows, lvr_totals, quartile_groups, running_total_rows,
    validate_all, ApiError, CheckpointCounts, CheckpointRow, IntervalCounts, IntervalRow,
    MonthlyClusterQuery, MonthlyClusterRow, RunningTotalRow, TimeRangeQuery,
};

const POOL_A: &str = "0x88e6a0c2ddd26feeb64f039a2c41296fcb3f5640";
const POOL_A_UPPER: &str = "0x88E6A0C2DDD26FEEB64F039A2C41296FCB3F5640";
const POOL_B: &str = "0x3416cf6c708da44db2624d63ea0aaef7113527c6";
const FILE: &str = "intervals/15537393_15753392.parquet";

fn row(path: &str, id: u64, markout: &str, pair: &str, total: Option<u64>, non_zero: u64) -> IntervalRow {
    IntervalRow {
        file_path: path.to_string(),
        interval_id: id,
        markout_time: markout.to_string(),
        pair_address: pair.to_string(),
        total_lvr_cents: total,
        max_lvr_cents: 0,
        median_lvr_cents: 0,
        non_zero_count: non_zero,
    }
}

fn checkpoint(path: &str, pair: &str, zero: u64, buckets: Vec<u64>) -> CheckpointRow {
    CheckpointRow {
        file_path: path.to_string(),
        pair_address: pair.to_string(),
        running_total: 0,
        max_lvr_value: 0,
        max_lvr_block: 0,
        total_bucket_0: zero,
        non_zero_buckets: buckets,
        has_activity: true,
    }
}

#[test]
fn precomputed_running_totals_follow_blocks() {
    let rows = vec![
        row(FILE, 1, "0.0", POOL_A, Some(50), 1),
        row(FILE, 0, "0.0", POOL_A_UPPER, Some(100), 1),
        row(FILE, 0, "0.0", POOL_B, Some(20), 1),
        row(FILE, 2, "0.0", POOL_B, Some(20), 0),
    ];
    let out = running_total_rows(&rows);
    let got: Vec<(u64, String, String, u64)> = out
        .iter()
        .map(|r| (r.block_number, r.markout_time.clone(), r.pool_address.clone(), r.running_total_cents))
        .collect();
    assert_eq!(
        got,
        vec![
            (15537393, "0.0".to_string(), POOL_A.to_string(), 100),
            (15537393, "0.0".to_string(), POOL_B.to_string(), 20),
            (15544593, "0.0".to_string(), POOL_A.to_string(), 150),
        ]
    );
}

#[test]
fn precomputed_running_total_requests() {
    let aggregate = vec![
        (15544593u64, "0.0".to_string(), 170u64),
        (15537393, "brontes".to_string(), 7),
        (15537393, "0.0".to_string(), 100),
        (1, "0.0".to_string(), 5),
    ];
    let individual = vec![
        RunningTotalRow { block_number: 15544593, markout_time: "0.0".to_string(), pool_address: POOL_A_UPPER.to_string(), running_total_cents: 150 },
        RunningTotalRow { block_number: 15537393, markout_time: "0.0".to_string(), pool_address: POOL_A.to_string(), running_total_cents: 100 },
        RunningTotalRow { block_number: 15537393, markout_time: "0.0".to_string(), pool_address: POOL_B.to_string(), running_total_cents: 20 },
    ];
    let agg = TimeRangeQuery { start_block: None, end_block: None, markout_time: None, aggregate: Some(true), pool: None };
    let points = get_precomputed_running_total(&agg, &aggregate, &individual).unwrap();
    let got: Vec<(u64, String, u64)> = points.iter().map(|p| (p.block_number, p.markout.clone(), p.running_total_cents)).collect();
    assert_eq!(
        got,
        vec![
            (15537393, "0.0".to_string(), 100),
            (15537393, "brontes".to_string(), 7),
            (15544593, "0.0".to_string(), 170),
        ]
    );
    let one = TimeRangeQuery { start_block: None, end_block: None, markout_time: None, aggregate: None, pool: Some(POOL_A.to_string()) };
    let points = get_precomputed_running_total(&one, &aggregate, &individual).unwrap();
    assert_eq!(points.len(), 2);
    assert_eq!(points[0].running_total_cents, 100);
    assert_eq!(points[1].running_total_cents, 150);
    assert_eq!(points[1].pool_address.as_deref(), Some(POOL_A));
    assert_eq!(points[1].pool_name.as_deref(), Some("USDC-WETH-500"));
    let bad = TimeRangeQuery { start_block: None, end_block: None, markout_time: None, aggregate: Some(true), pool: Some("0xbad".to_string()) };
    assert!(matches!(get_precomputed_running_total(&bad, &aggregate, &individual), Err(ApiError::BadRequest)));
    let none = TimeRangeQuery { start_block: None, end_block: None, markout_time: None, aggregate: Some(false), pool: None };
    assert!(matches!(get_precomputed_running_total(&none, &aggregate, &individual), Err(ApiError::BadRequest)));
}

#[test]
fn realized_and_theoretical_totals() {
    let rows = vec![
        row(FILE, 0, "brontes", POOL_A, Some(10), 1),
        row(FILE, 0, "0.0", POOL_A, Some(20), 1),
        row(FILE, 0, "0.0", POOL_B, Some(5), 1),
        row(FILE, 0, "0.5", POOL_A, Some(0), 1),
        row(FILE, 0, "0.5", "0xbad", Some(99), 1),
    ];
    let t = lvr_totals(&rows);
    assert_eq!(t.realized, 10);
    assert_eq!(t.theoretical, vec![("0.0".to_string(), 25)]);
}

#[test]
fn precomputed_histograms_per_pool() {
    let rows = vec![
        checkpoint(&format!("checkpoints/{}_0.0.parquet", POOL_A), POOL_A, 0, vec![0, 3, 0, 0, 0, 0, 1]),
        checkpoint("checkpoints/0xbad_0.0.parquet", "0xbad", 0, vec![5, 5, 5, 5, 5, 5, 5]),
    ];
    let out = histogram_rows(&rows).unwrap();
    let got: Vec<(String, String, String, usize, u64)> = out
        .iter()
        .map(|r| (r.pool_address.clone(), r.pool_name.clone(), r.markout_time.clone(), r.bucket, r.count))
        .collect();
    assert_eq!(
        got,
        vec![
            (POOL_A.to_string(), "USDC-WETH-500".to_string(), "0.0".to_string(), 1, 3),
            (POOL_A.to_string(), "USDC-WETH-500".to_string(), "0.0".to_string(), 6, 1),
        ]
    );
}

#[test]
fn quartile_values_by_pool_and_markout() {
    let rows = vec![
        row(FILE, 0, "0.0", POOL_A, Some(30), 1),
        row(FILE, 1, "0.0", POOL_A_UPPER, Some(10), 1),
        row(FILE, 2, "0.0", POOL_A, Some(20), 1),
        row(FILE, 3, "0.0", POOL_A, Some(0), 1),
        row(FILE, 0, "brontes", POOL_B, Some(5), 1),
    ];
    let g = quartile_groups(&rows);
    assert_eq!(g.len(), 2);
    assert_eq!((g[0].pool_address.as_str(), g[0].markout_time.as_str()), (POOL_A, "0.0"));
    assert_eq!(g[0].pool_name, "USDC-WETH-500");
    assert_eq!(g[0].values, vec![10, 20, 30]);
    assert_eq!(g[1].values, vec![5]);
}

#[test]
fn band_snapshots_grow_with_the_file() {
    let rows = vec![
        row(FILE, 0, "0.0", POOL_A, Some(30), 1),
        row(FILE, 1, "0.0", POOL_A, Some(99), 0),
        row(FILE, 2, "0.5", POOL_A, Some(10), 1),
        row("intervals/1_2.parquet", 0, "0.0", POOL_A, Some(7), 1),
    ];
    let snaps = band_snapshots(&rows).unwrap();
    let got: Vec<(String, u64, Vec<u64>)> = snaps.iter().map(|s| (s.markout_time.clone(), s.block_number, s.values.clone())).collect();
    assert_eq!(
        got,
        vec![
            ("0.0".to_string(), 15537393, vec![30]),
            ("0.0".to_string(), 15537393, vec![30]),
            ("0.5".to_string(), 15537393, vec![10, 30]),
        ]
    );
    assert!(snaps.iter().all(|s| s.pool_address == POOL_A && s.pool_name == "USDC-WETH-500"));
    let bad = vec![row("intervals/x_y.parquet", 0, "0.0", POOL_A, Some(1), 1)];
    assert!(band_snapshots(&bad).is_none());
}

#[test]
fn cluster_activity_by_markout() {
    let path = format!("checkpoints/{}_0.0.parquet", POOL_A);
    let rows = vec![
        checkpoint(&path, POOL_A, 5, vec![1, 2, 0, 0, 0, 0, 0]),
        checkpoint(&path, POOL_A_UPPER, 1, vec![1, 0, 0, 0, 0, 0, 0]),
        checkpoint("checkpoints/0xbad_0.0.parquet", "0xbad", 9, vec![9, 0, 0, 0, 0, 0, 0]),
    ];
    let out = cluster_activity_rows(&rows).unwrap();
    assert_eq!(out.len(), 1);
    assert_eq!(out[0].cluster_name, "USDC-WETH");
    assert_eq!(out[0].markout_time, "0.0");
    assert_eq!(out[0].total_observations, 10);
    assert_eq!(out[0].non_zero_observations, 4);
    assert!(cluster_activity_rows(&vec![checkpoint("checkpoints/none", POOL_A, 0, vec![])]).is_none());
}

#[test]
fn monthly_cluster_totals_in_month_order() {
    let mk = |range: &str, cluster: &str, markout: &str, total: u64| MonthlyClusterRow {
        time_range: range.to_string(),
        cluster_name: cluster.to_string(),
        markout_time: markout.to_string(),
        total_lvr_cents: total,
    };
    let rows = vec![
        mk("Oct 15 - Nov 14, 2022", "USDC-WETH", "brontes", 10),
        mk("Sep 15 - Oct 15, 2022", "WBTC-WETH", "brontes", 5),
        mk("Oct 15 - Nov 14, 2022", "Stable Pairs", "brontes", 7),
        mk("Oct 15 - Nov 14, 2022", "USDC-WETH", "brontes", 3),
        mk("Sep 15 - Oct 15, 2022", "Altcoin-WETH", "0.0", 100),
    ];
    let r = get_monthly_cluster_totals(&MonthlyClusterQuery { markout_time: None }, &rows);
    assert_eq!(r.monthly_data.len(), 2);
    assert_eq!(r.monthly_data[0].time_range, "Sep 15 - Oct 15, 2022");
    assert_eq!(r.monthly_data[0].cluster_totals, vec![("WBTC-WETH".to_string(), 5)]);
    assert_eq!(r.monthly_data[0].total_lvr_cents, 5);
    assert_eq!(r.monthly_data[1].time_range, "Oct 15 - Nov 14, 2022");
    assert_eq!(
        r.monthly_data[1].cluster_totals,
        vec![("USDC-WETH".to_string(), 3), ("Stable Pairs".to_string(), 7)]
    );
    assert_eq!(r.monthly_data[1].total_lvr_cents, 20);
    assert_eq!(r.clusters, vec!["Stable Pairs".to_string(), "USDC-WETH".to_string(), "WBTC-WETH".to_string()]);
}

#[test]
fn validation_compares_checkpoints_with_intervals() {
    let cps = vec![CheckpointCounts {
        pair_address: POOL_A.to_string(),
        markout_time: "0.0".to_string(),
        running_total: 100,
        buckets: vec![2, 1, 1, 0, 0, 0, 0],
        exact_samples: 2,
    }];
    let iv = |pair: &str, total: u64, count: u64, non_zero: u64| IntervalCounts {
        pair_address: pair.to_string(),
        markout_time: "0.0".to_string(),
        total_lvr_cents: total,
        total_count: count,
        non_zero_count: non_zero,
    };
    let rows = vec![iv(POOL_A, 60, 3, 2), iv(POOL_A, 40, 1, 0), iv(POOL_B, 5, 1, 1)];
    let out = validate_all(&cps, &rows);
    assert_eq!(out.len(), 1);
    assert_eq!(out[0].0, format!("{}_0.0", POOL_A));
    let v = &out[0].1;
    assert_eq!((v.checkpoint_total, v.intervals_total, v.difference), (100, 100, 0));
    assert_eq!((v.checkpoint_zero_count, v.checkpoint_total_count), (2, 4));
    assert_eq!((v.interval_zero_count, v.interval_total_count), (2, 4));
    assert_eq!((v.tdigest_samples, v.non_zero_samples, v.bucket_sum_non_zero), (2, 2, 2));
    assert!(v.sample_count_match && v.non_zero_counts_consistent);

    let short = vec![iv(POOL_A, 30, 3, 1)];
    let out = validate_all(&cps, &short);
    assert_eq!(out[0].1.difference, 70);
    assert!(!out[0].1.sample_count_match);
}

#[test]
fn quartile_plot_of_one_pool() {
    let mk = |pool: &str, markout: &str, p25: u64| QuartileRow {
        pool_address: pool.to_string(),
        pool_name: "name".to_string(),
        markout_time: markout.to_string(),
        percentile_25_cents: p25,
        median_cents: p25 + 1,
        percentile_75_cents: p25 + 2,
    };
    let rows = vec![mk(POOL_A, "0.0", 1), mk(POOL_A_UPPER, "brontes", 10), mk(POOL_A, "brontes", 20)];
    let q = QuartilePlotQuery { pool_address: POOL_A.to_string(), markout_time: None };
    let r = get_quartile_plot(&q, &rows).unwrap();
    assert_eq!(r.markout_time, "brontes");
    assert_eq!(r.pool_address, POOL_A);
    assert_eq!((r.percentile_25_cents, r.median_cents, r.percentile_75_cents), (10, 11, 12));
    let missing = QuartilePlotQuery { pool_address: POOL_B.to_string(), markout_time: None };
    assert!(matches!(get_quartile_plot(&missing, &rows), Err(ApiError::NotFound)));
    let invalid = QuartilePlotQuery { pool_address: "0x2".to_string(), markout_time: None };
    assert!(matches!(get_quartile_plot(&invalid, &rows), Err(ApiError::BadRequest)));
}

#[test]
fn total_lvr_at_the_latest_block() {
    let rows = vec![
        (10u64, "0.5".to_string(), 5u64),
        (30, "0.0".to_string(), 7),
        (20, "0.5".to_string(), 9),
        (40, "Brontes".to_string(), 1000),
        (30, "-1.0".to_string(), 3),
        (10, "0.0".to_string(), 2),
    ];
    let totals = backend::get_total_lvr(&rows);
    assert_eq!(
        totals,
        vec![("-1.0".to_string(), 3), ("0.0".to_string(), 7), ("0.5".to_string(), 9)]
    );
}

fn with_total(path: &str, pair: &str, total: i64) -> CheckpointRow {
    let mut r = checkpoint(path, pair, 0, vec![]);
    r.running_total = total;
    r
}

#[test]
fn cluster_totals_by_markout() {
    let path = format!("checkpoints/{}_0.0.parquet", POOL_A);
    let brontes = format!("checkpoints/{}_brontes.parquet", POOL_A);
    let partial = cluster_total_rows(&vec![
        with_total(&path, POOL_A, 250),
        with_total(&path, POOL_A_UPPER, -50),
        with_total(&brontes, POOL_A, 7),
        with_total("checkpoints/0xbad_0.0.parquet", "0xbad", 1000),
    ])
    .unwrap();
    assert_eq!(partial.len(), 2);
    assert_eq!(partial[0].cluster_name, "USDC-WETH");
    assert_eq!(partial[0].markout_time, "0.0");
    assert_eq!(partial[0].total_lvr_cents, 300);
    assert_eq!(partial[1].markout_time, "brontes");
    assert_eq!(partial[1].total_lvr_cents, 7);
    let saturated = cluster_total_rows(&vec![
        with_total(&path, POOL_A, 300),
        with_total(&path, POOL_A, i64::MAX),
        with_total(&path, POOL_A, i64::MIN),
    ])
    .unwrap();
    assert_eq!(saturated[0].total_lvr_cents, u64::MAX);
    assert!(cluster_total_rows(&vec![checkpoint("checkpoints/none", POOL_A, 0, vec![])]).is_none());
}
