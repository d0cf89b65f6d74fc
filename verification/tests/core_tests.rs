use backend::{process_interval_totals, IntervalAPIData, IntervalTotal};
use backend::{
    bucket_index, calculate_block_number, checkpoint_markout, checkpoint_pool, chunk_bounds,
    chunk_retry_delay, compute_block_stats, effective_range, get_cluster_name, get_deployment_block,
    get_pool_name, get_valid_pools, interval_file_range, interval_file_start, is_valid_pool,
    pool_detail_values, total_chunks, write_retry_delay, AuroraConfig, BatchCursor, BatchStep,
    DatabaseConfig, EnvVars, Error, PEPE_DEPLOYMENT_V3,
};

const POOL_A: &str = "0x88e6a0c2ddd26feeb64f039a2c41296fcb3f5640";

#[test]
fn block_number_of_the_final_file() {
    let path = "intervals/19857392_20000000.parquet";
    assert_eq!(calculate_block_number(0, 19, path), 19857392 + 19 * 7200 + 5808);
    assert_eq!(calculate_block_number(0, 18, path), 19857392 + 18 * 7200);
    assert_eq!(calculate_block_number(100, 2, "somewhere/else.parquet"), 100 + 2 * 7200);
}

#[test]
fn interval_file_names() {
    assert_eq!(interval_file_start("intervals/15537393_15753392.parquet"), Some(15537393));
    assert_eq!(interval_file_start("checkpoints/x.parquet"), None);
    assert_eq!(interval_file_range("a/b/15537393_15753392.parquet"), Some((Some(15537393), Some(15753392))));
    assert_eq!(interval_file_range("a/b/15537393.parquet"), None);
    assert_eq!(interval_file_range("a/b/x_15753392.parquet"), Some((None, Some(15753392))));
}

#[test]
fn checkpoint_file_names() {
    assert_eq!(checkpoint_markout("checkpoints/0xabc_-0.5.parquet"), Some("-0.5".to_string()));
    assert_eq!(checkpoint_markout("checkpoints/0xabc_brontes"), None);
    assert_eq!(checkpoint_pool("checkpoints/0xABC_0.0.parquet"), "0xabc");
}

#[test]
fn pool_tables() {
    assert_eq!(get_pool_name(POOL_A), "USDC-WETH-500");
    assert_eq!(get_pool_name("0x435664008f38b0650fbc1c9fc971d0a3bc2f1e47"), "USDe-USDT-100");
    assert_eq!(get_pool_name("0xzzz"), "0xzzz");
    assert!(is_valid_pool("0x88E6A0C2DDD26FEEB64F039A2C41296FCB3F5640"));
    assert!(!is_valid_pool("0x1"));
    assert_eq!(get_valid_pools().len(), 22);
    assert_eq!(get_cluster_name(POOL_A), Some("USDC-WETH"));
    assert_eq!(get_cluster_name("0x3416cf6c708da44db2624d63ea0aaef7113527c6"), Some("Stable Pairs"));
    assert_eq!(get_cluster_name("0x1"), None);
    assert_eq!(get_deployment_block("0x11950D141ECB863F01007ADD7D1A342041227B58"), PEPE_DEPLOYMENT_V3);
    assert_eq!(get_deployment_block(POOL_A), 0);
}

#[test]
fn chunks_cover_the_range() {
    assert_eq!(total_chunks(0, 432001), 3);
    assert_eq!(chunk_bounds(0, 432001, 0), (0, 216000));
    assert_eq!(chunk_bounds(0, 432001, 2), (432000, 432001));
    assert_eq!(effective_range(100, 200, 150), Some((150, 200)));
    assert_eq!(effective_range(100, 200, 250), None);
    assert_eq!(effective_range(100, 200, 0), Some((100, 200)));
}

#[test]
fn block_stats_of_values() {
    let vals = vec![0, 5, 2000, 5, 0];
    let s = compute_block_stats(&vals, 10);
    assert_eq!(s.blocks, 5);
    assert_eq!(s.running_total, 2010);
    assert_eq!(s.max_lvr, 2000);
    assert_eq!(s.max_lvr_block, 12);
    assert_eq!(s.buckets, vec![2, 2, 1, 0, 0, 0, 0]);
    assert_eq!(s.non_zero_values, vec![5, 2000, 5]);
    assert_eq!(bucket_index(1000001), 6);
}

#[test]
fn retry_delays() {
    assert_eq!(chunk_retry_delay(3, 20), Some(15));
    assert_eq!(chunk_retry_delay(20, 20), None);
    assert_eq!(write_retry_delay(0, 3), Some((1, 2)));
    assert_eq!(write_retry_delay(1, 3), Some((2, 4)));
    assert_eq!(write_retry_delay(2, 3), None);
}

#[test]
fn batches_walk_the_chunk() {
    let mut c = BatchCursor::new(0, 10000);
    assert_eq!(c.next_batch(), BatchStep::Request { start: 0, end: 7200 });
    c.batch_succeeded(7200);
    assert_eq!(c.next_batch(), BatchStep::Request { start: 7200, end: 10000 });
    c.batch_succeeded(10000);
    assert_eq!(c.next_batch(), BatchStep::Finished);
    assert!(!c.gives_up(3));
}

#[test]
fn detail_values_of_a_pool() {
    let details = r#"[["USDC-WETH-500","12.5"],["WBTC-WETH-500","3"],["USDC-WETH-500","7"],["bad"]]"#;
    assert_eq!(pool_detail_values(details, "USDC-WETH-500"), Some(vec!["12.5".to_string(), "7".to_string()]));
    assert_eq!(pool_detail_values(details, "none"), Some(vec![]));
    assert_eq!(pool_detail_values("not json", "USDC-WETH-500"), None);
}

fn env(pairs: &[(&str, &str)]) -> EnvVars {
    EnvVars { entries: pairs.iter().map(|(k, v)| (k.to_string(), v.to_string())).collect() }
}

#[test]
fn configuration_from_the_environment() {
    let e = env(&[("AURORA_PORT", "6543"), ("AURORA_USER", "me"), ("RUNNING_LOCALLY", "true")]);
    let a = AuroraConfig::from_env(&e).unwrap();
    assert_eq!(a.port, 6543);
    assert_eq!(a.user, "me");
    assert_eq!(a.gcp_host, "dummy_gcp_host");
    assert_eq!(a.connection_timeout, 30);
    assert_eq!(a.get_host_for_environment(&e), "dummy_public_host");
    let bad = env(&[("BRONTES_PORT", "70000")]);
    match DatabaseConfig::new(&bad) {
        Err(Error::Config(m)) => assert_eq!(m, "Invalid BRONTES_PORT format"),
        _ => panic!("expected a configuration error"),
    }
    let ok = DatabaseConfig::new(&env(&[])).unwrap();
    assert_eq!(ok.aurora.port, 5432);
    assert_eq!(ok.brontes.port, 5432);
}

#[test]
fn database_configuration_carries_every_setting() {
    let e = env(&[
        ("AURORA_GCP_HOST", "gcp"),
        ("AURORA_PUBLIC_HOST", "public"),
        ("AURORA_USER", "reader"),
        ("AURORA_PASSWORD", "secret"),
        ("AURORA_DATABASE", "lvr"),
        ("AURORA_TIMEOUT", "12"),
        ("BRONTES_HOST", "clickhouse"),
        ("BRONTES_PORT", "8123"),
        ("BRONTES_USER", "analyst"),
        ("BRONTES_PASSWORD", "hidden"),
        ("BRONTES_RETRY_INTERVAL", "not a number"),
    ]);
    let c = DatabaseConfig::new(&e).unwrap();
    assert_eq!(c.aurora.gcp_host, "gcp");
    assert_eq!(c.aurora.public_host, "public");
    assert_eq!(c.aurora.user, "reader");
    assert_eq!(c.aurora.password, "secret");
    assert_eq!(c.aurora.database, "lvr");
    assert_eq!(c.aurora.connection_timeout, 12);
    assert_eq!(c.aurora.retry_interval, 5);
    assert_eq!(c.brontes.host, "clickhouse");
    assert_eq!(c.brontes.port, 8123);
    assert_eq!(c.brontes.user, "analyst");
    assert_eq!(c.brontes.password, "hidden");
    assert_eq!(c.brontes.connection_timeout, 30);
    assert_eq!(c.brontes.retry_interval, 5);
    let bad = env(&[("AURORA_PORT", "x"), ("BRONTES_PORT", "y")]);
    match DatabaseConfig::new(&bad) {
        Err(Error::Config(m)) => assert_eq!(m, "Invalid AURORA_PORT format"),
        _ => panic!("expected a configuration error"),
    }
}

#[test]
fn block_numbers_fit_exactly() {
    let last = "intervals/19857392_20000000.parquet";
    assert!(backend::block_number_fits(0, 19, last));
    assert_eq!(backend::calculate_block_number(0, 19, last), 19857392 + 19 * 7200 + 5808);
    assert_eq!(backend::calculate_block_number(0, 18, last), 19857392 + 18 * 7200);
    let far = format!("intervals/{}_{}.parquet", u64::MAX - 7200, u64::MAX);
    assert!(backend::block_number_fits(0, 1, &far));
    assert!(!backend::block_number_fits(0, 2, &far));
    assert!(backend::block_number_fits(u64::MAX, 0, "no file name"));
    assert!(!backend::block_number_fits(u64::MAX, 1, "no file name"));
}

#[test]
fn brontes_updates_cover_every_pool_and_block() {
    let records = vec![
        backend::LVRAnalysis {
            pool_address: "0x88E6A0C2DDD26FEEB64F039A2C41296FCB3F5640".to_string(),
            block_number: 11,
            lvr_cents: 250,
        },
        backend::LVRAnalysis { pool_address: "0xother".to_string(), block_number: 10, lvr_cents: 9 },
        backend::LVRAnalysis {
            pool_address: "0x88e6a0c2ddd26feeb64f039a2c41296fcb3f5640".to_string(),
            block_number: 40,
            lvr_cents: 5,
        },
    ];
    let updates = backend::brontes_updates(&records, 10, 13);
    let pools = backend::get_valid_pools();
    assert_eq!(updates.len(), pools.len());
    for (u, p) in updates.iter().zip(pools.iter()) {
        assert_eq!(&u.pool_address, p);
        assert_eq!(u.markout_time, backend::MarkoutTime::Brontes);
        assert_eq!(u.data.len(), 3);
        let blocks: Vec<u64> = u.data.iter().map(|d| d.block_number).collect();
        assert_eq!(blocks, vec![10, 11, 12]);
    }
    let values: Vec<u64> = updates[0].data.iter().map(|d| d.lvr_cents).collect();
    assert_eq!(values, vec![0, 250, 0]);
    assert!(updates[1].data.iter().all(|d| d.lvr_cents == 0));
}

#[test]
fn checkpoint_buckets_grow_by_the_chunk() {
    let pool = "0x88e6a0c2ddd26feeb64f039a2c41296fcb3f5640".to_string();
    let data = vec![
        backend::UnifiedLVRData { block_number: 100, lvr_cents: 0, source: backend::DataSource::Aurora },
        backend::UnifiedLVRData { block_number: 101, lvr_cents: 500, source: backend::DataSource::Aurora },
        backend::UnifiedLVRData { block_number: 103, lvr_cents: 2_000_000, source: backend::DataSource::Aurora },
    ];
    let mut set = backend::CheckpointSet::new();
    let (i, _) = set.update_checkpoint(&pool, backend::MarkoutTime::Zero, &data, 100, 105).unwrap();
    let c = &set.checkpoints[i];
    let total = c.total_bucket_0 + c.total_bucket_0_10 + c.total_bucket_10_100 + c.total_bucket_100_500
        + c.total_bucket_500_1000 + c.total_bucket_1000_10000 + c.total_bucket_10000_plus;
    assert_eq!(total, 5);
    assert_eq!(c.total_bucket_0, 3);
    assert_eq!(c.running_total, 2_000_500);
    assert_eq!(c.last_updated_block, 104);
}

#[test]
fn running_total_as_unsigned() {
    let mut c = backend::Checkpoint::new("0xabc".to_string(), backend::MarkoutTime::Brontes);
    c.running_total = 1234;
    assert_eq!(c.running_total_u64(), Some(1234));
    c.running_total = -1;
    assert_eq!(c.running_total_u64(), None);
}

#[test]
fn pools_are_matched_lowercased() {
    assert!(backend::is_valid_pool("0x88E6A0C2DDD26FEEB64F039A2C41296FCB3F5640"));
    assert!(!backend::is_valid_pool("0x88E6A0C2DDD26FEEB64F039A2C41296FCB3F564"));
}

#[test]
fn interval_path_start_is_read_back() {
    let path = format!("intervals/{}_{}.parquet", 15537393u64, 15753392u64);
    assert_eq!(interval_file_start(&path), Some(15537393));
    assert_eq!(calculate_block_number(7, 3, &path), 15537393 + 3 * 7200);
    assert_eq!(calculate_block_number(999, 3, &path), 15537393 + 3 * 7200);
}

#[test]
fn running_points_are_group_prefix_sums() {
    let total = |start: u64, id: u64, markout: &str, pool: Option<&str>, cents: u64| IntervalTotal {
        file_start: start,
        interval_id: id,
        markout: markout.to_string(),
        pool_address: pool.map(|p| p.to_string()),
        data: IntervalAPIData { total: cents, file_path: "intervals/1000_2000.parquet".to_string() },
    };
    // out of order on input, two markouts, one total outside the range
    let totals = vec![
        total(1000, 2, "brontes", Some(POOL_A), 30),
        total(1000, 0, "brontes", Some(POOL_A), 10),
        total(1000, 1, "0.0", Some(POOL_A), 5),
        total(1000, 1, "brontes", Some(POOL_A), 20),
        total(1000, 9, "brontes", Some(POOL_A), 70),
    ];
    let points = process_interval_totals(totals, 1000, 1000 + 3 * 7200, false);
    let brontes: Vec<(u64, u64)> = points
        .iter()
        .filter(|p| p.markout == "brontes")
        .map(|p| (p.block_number, p.running_total_cents))
        .collect();
    assert_eq!(brontes, vec![(1000, 10), (1000 + 7200, 30), (1000 + 14400, 60)]);
    let other: Vec<(u64, u64)> = points
        .iter()
        .filter(|p| p.markout == "0.0")
        .map(|p| (p.block_number, p.running_total_cents))
        .collect();
    assert_eq!(other, vec![(1000 + 7200, 5)]);
    assert!(points.iter().all(|p| p.pool_name.is_some() && p.pool_address.is_some()));
}

#[test]
fn interval_rows_count_each_block_once() {
    // blocks 7000..7400 counted from 0: the tail of day 0 and the head of day 1
    let vals: Vec<u64> = (0..400u64).map(|i| if i % 3 == 0 { 0 } else { i }).collect();
    let rows = backend::interval_rows(&vals, 0, 7000, 7400, &"0xabc".to_string(), backend::MarkoutTime::Zero);
    assert_eq!(rows.len(), 2);
    assert_eq!((rows[0].interval_id, rows[0].total_count), (0, 200));
    assert_eq!((rows[1].interval_id, rows[1].total_count), (1, 200));
    assert_eq!(rows.iter().map(|r| r.total_count).sum::<u64>(), 400);
    assert_eq!(rows[0].total_lvr_cents, vals[..200].iter().sum::<u64>());
    assert_eq!(rows[1].max_lvr_cents, 398);
}
