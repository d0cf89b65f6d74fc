use backend::{
    get_non_zero_proportion, get_percentile_band, ApiError, BandRow, NonZeroProportionQuery,
    NonZeroRow, PercentileBandQuery,
};

const POOL_A: &str = "0x88e6a0c2ddd26feeb64f039a2c41296fcb3f5640";
const POOL_A_UPPER: &str = "0x88E6A0C2DDD26FEEB64F039A2C41296FCB3F5640";
const POOL_B: &str = "0x3416cf6c708da44db2624d63ea0aaef7113527c6";

fn band(pool: &str, name: &str, markout: &str, block: u64, median: u64) -> BandRow {
    BandRow {
        pool_address: pool.to_string(),
        pool_name: name.to_string(),
        markout_time: markout.to_string(),
        block_number: block,
        percentile_25_cents: median / 2,
        median_cents: median,
        percentile_75_cents: median * 2,
    }
}

fn band_query(pool: Option<&str>, markout: Option<&str>, start: Option<u64>, end: Option<u64>) -> PercentileBandQuery {
    PercentileBandQuery {
        start_block: start,
        end_block: end,
        pool_address: pool.map(|p| p.to_string()),
        markout_time: markout.map(|m| m.to_string()),
    }
}

#[test]
fn percentile_band_sorted_by_block() {
    let rows = vec![
        band(POOL_A_UPPER, "", "brontes", 16_000_000, 30),
        band(POOL_A, "USDC-WETH 0.05%", "brontes", 15_600_000, 10),
        band(POOL_A, "other", "brontes", 16_000_000, 40),
        band(POOL_A, "x", "0.0", 15_700_000, 99),
        band(POOL_B, "y", "brontes", 15_700_000, 99),
        band(POOL_A, "z", "brontes", 15_000_000, 99),
    ];
    let r = get_percentile_band(&band_query(None, None, None, None), &rows).unwrap();
    assert_eq!(r.pool_address, POOL_A);
    assert_eq!(r.markout_time, "brontes");
    assert_eq!(r.pool_name, "USDC-WETH 0.05%");
    let blocks: Vec<u64> = r.data_points.iter().map(|p| p.block_number).collect();
    assert_eq!(blocks, vec![15_600_000, 16_000_000, 16_000_000]);
    let medians: Vec<u64> = r.data_points.iter().map(|p| p.median_cents).collect();
    assert_eq!(medians, vec![10, 30, 40]);
    assert_eq!(r.data_points[0].percentile_25_cents, 5);
    assert_eq!(r.data_points[0].percentile_75_cents, 20);
}

#[test]
fn percentile_band_filters_and_refusals() {
    let rows = vec![
        band(POOL_B, "USDC-WETH 0.01%", "0.0", 15_700_000, 7),
        band(POOL_B, "USDC-WETH 0.01%", "0.0", 15_900_000, 8),
    ];
    let r = get_percentile_band(&band_query(Some(POOL_B), Some("0.0"), Some(15_800_000), None), &rows).unwrap();
    assert_eq!(r.data_points.len(), 1);
    assert_eq!(r.data_points[0].median_cents, 8);
    let r = get_percentile_band(&band_query(Some(POOL_B), Some("0.0"), None, Some(15_700_000)), &rows).unwrap();
    assert_eq!(r.data_points.len(), 1);
    assert_eq!(r.data_points[0].median_cents, 7);
    assert_eq!(
        get_percentile_band(&band_query(Some("0xbad"), None, None, None), &rows).err(),
        Some(ApiError::BadRequest)
    );
    assert_eq!(
        get_percentile_band(&band_query(Some(POOL_B), Some("brontes"), None, None), &rows).err(),
        Some(ApiError::NotFound)
    );
}

fn activity(pool: &str, name: &str, markout: &str, non_zero: u64, total: u64) -> NonZeroRow {
    NonZeroRow {
        pool_address: pool.to_string(),
        pool_name: name.to_string(),
        markout_time: markout.to_string(),
        non_zero_blocks: non_zero,
        total_blocks: total,
    }
}

#[test]
fn non_zero_proportion_lookup() {
    let rows = vec![
        activity(POOL_A, "a", "0.0", 1, 10),
        activity(POOL_A_UPPER, "b", "brontes", 3, 12),
        activity(POOL_A, "c", "brontes", 5, 20),
    ];
    let q = NonZeroProportionQuery { pool_address: POOL_A_UPPER.to_string(), markout_time: "brontes".to_string() };
    let r = get_non_zero_proportion(&q, &rows).unwrap();
    assert_eq!(r.row, 1);
    assert_eq!(r.pool_name, "b");
    assert_eq!(r.pool_address, POOL_A);
    assert_eq!(r.non_zero_blocks, 3);
    assert_eq!(r.total_blocks, 12);
    let missing = NonZeroProportionQuery { pool_address: POOL_B.to_string(), markout_time: "0.0".to_string() };
    assert_eq!(get_non_zero_proportion(&missing, &rows).err(), Some(ApiError::NotFound));
    let bad = NonZeroProportionQuery { pool_address: "0xbad".to_string(), markout_time: "0.0".to_string() };
    assert_eq!(get_non_zero_proportion(&bad, &rows).err(), Some(ApiError::BadRequest));
}
