//! Verified core of the LVR data pipeline: block accounting, interval
//! summaries, checkpoints, pool tables, file names, configuration and the
//! decisions that drive fetching and writing.

mod blocks;
mod clusters;
mod compress;
mod config;
mod details;
mod error;
mod files;
mod group_sums;
mod markout;
mod max_lvr;
mod models;
mod pool_metrics;
mod pools;
mod processor;
mod queries;
mod ranking;
mod retry;
mod running;
mod selection;
mod text;
mod validation;

pub use blocks::{
    block_values, bucket_index, compute_block_stats, interval_rows, lemma_interval_ids, lemma_interval_rows_blocks, lemma_bucket_ranges, lemma_max_and_positives, lemma_bucket_count_values, lemma_parts_partition,
    lemma_rows_agree_with_stats, BlockStats, BLOCKS_PER_DAY,
};
pub use clusters::{
    cluster_activity_rows, cluster_histogram_rows, lemma_hist_groups_sum, lemma_hist_rows_counts, cluster_total_rows, get_cluster_proportion,
    get_monthly_cluster_totals, monthly_cluster_rows, ClusterActivityRow, ClusterBucketRow,
    ClusterMonthlyResponse, ClusterPieResponse, ClusterQuery, ClusterTotal, ClusterTotalRow,
    MonthlyClusterQuery, MonthlyClusterRow, MonthlyData, NON_ZERO_BUCKETS,
};
pub use compress::{lemma_initial_scaling_bounds, AdaptStep, AdaptiveParameters};
pub use config::{AuroraConfig, BrontesConfig, DatabaseConfig, DatabaseConnectionConfig, EnvVars};
pub use details::pool_detail_values;
pub use error::Error;
pub use files::{
    block_number_fits, calculate_block_number, lemma_block_number_increasing, lemma_interval_path_start, checkpoint_markout, checkpoint_pool, file_name_start, interval_block,
    interval_file_range, interval_file_start, path_ends_with, FINAL_INTERVAL_FILE,
    FINAL_PARTIAL_BLOCKS,
};
pub use group_sums::{
    lemma_collect_sums_selected, lemma_file_skipped_only_outside, lemma_selected_in_range, lemma_running_point_sums, lemma_running_points_cover,
};
pub use markout::{
    lemma_half_seconds_round_trip, lemma_labels_distinct, markout_times, DataSource, MarkoutTime,
};
pub use max_lvr::{
    get_max_lvr, lemma_assoc_min, lemma_interval_best_first, lemma_interval_best_is_max, lemma_max_rows_law, max_lvr_rows, select_max_lvr, MaxLVRPoolData, MaxLVRQuery, MaxLVRResponse,
    MaxLVRRow, PoolMaxLVRQuery,
};
pub use models::{
    Checkpoint, CheckpointUpdate, ClusterBlockActivity, IntervalData, LVRAnalysis, LVRDetails,
    MaxLVRData, UnifiedLVRData,
};
pub use pool_metrics::{
    band_snapshots, get_lvr_histogram, get_pool_medians, get_pool_totals, get_quartile_plot,
    histogram_rows, lemma_median_middle, lemma_pool_medians_ranked, lemma_pool_metric_rows_law, lemma_pool_totals_ranked, lemma_sorted_values, pool_metric_rows, quartile_groups, select_pool_totals, unsigned_abs,
    BandSnapshot, CheckpointRow, HistogramCounts, HistogramQuery, MedianLVRQuery,
    MedianLVRResponse, PoolBucketRow, PoolMedianLVR, PoolMetricsRow, PoolTotal, PoolTotalsQuery,
    PoolTotalsResponse, QuartileGroup, QuartilePlotQuery, QuartilePlotResponse, QuartileRow,
};
pub use pools::{
    cluster_table, get_cluster_name, get_deployment_block, get_pool_name, get_valid_pools,
    interval_range_label, interval_ranges, is_valid_pool, pool_table, CHECKPOINT_UPDATE_INTERVAL,
    MERGE_BLOCK, PEPE_DEPLOYMENT_V2, PEPE_DEPLOYMENT_V3, USDE_USDT_DEPLOYMENT,
    WETH_USDT_100_DEPLOYMENT,
};
pub use processor::{
    apply_block_stats, brontes_block_series, brontes_updates, lemma_brontes_updates_unique, calculate_interval_metrics, chunk_bounds,
    effective_range, lemma_bucket_counts_cover, lemma_checkpoint_chunk_update, lemma_checkpoint_tracks_interval_rows, lemma_chunks_tile, total_chunks,
    writes_interval_file, CheckpointSet, BLOCKS_PER_CHUNK, INTERVALS_PER_FILE,
};
pub use queries::{
    AggregatedStats, ClusterHistogramQuery, ClusterNonZeroQuery, DistributionQuery, HealthResponse,
    NonZeroProportionQuery, PercentileBandQuery,
};
pub use ranking::{lemma_rank_desc_sorted, rank_desc, RankKey};
pub use retry::{
    chunk_retry_delay, lemma_batches_progress, write_retry_delay, BatchCursor, BatchStep,
    FETCH_BATCH_SIZE, MAX_CHUNK_ATTEMPTS,
};
pub use running::{
    collect_interval_totals, get_precomputed_running_total, get_running_total,
    get_running_total_checked, lemma_poolless_totals_ignored, lemma_process_in_range, lemma_process_ordered, query_refused, row_block_fits, row_fits, get_total_lvr,
    lemma_running_total_ordered, lemma_running_totals_never_fall, lvr_totals, process_interval_totals,
    read_aggregate_running_totals, read_individual_running_totals, running_total_rows, ApiError,
    IntervalAPIData, IntervalRow, IntervalTotal, LVRRatioQuery, LVRTotals, RunningTotal,
    RunningTotalRow, TimeRangeQuery, DEFAULT_END_BLOCK,
};
pub use selection::{
    get_non_zero_proportion, get_percentile_band, lemma_percentile_band_ordered, BandRow, NonZeroProportion, NonZeroRow,
    PercentileBandResponse, PercentileDataPoint,
};

pub use validation::{lemma_validation_counts, lemma_validation_flags, validate_all, CheckpointCounts, IntervalCounts, ValidationCounts};
