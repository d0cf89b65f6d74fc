use vstd::prelude::*;

verus! {

/// The answer to a health check.
pub struct HealthResponse {
    pub status: &'static str,
    pub version: &'static str,
    pub timestamp: String,
}

/// The pool and markout time whose share of non-zero blocks a request asks
/// for.
pub struct NonZeroProportionQuery {
    pub pool_address: String,
    pub markout_time: String,
}

/// The block range, pool and markout time whose percentile bands a request
/// asks for.
pub struct PercentileBandQuery {
    pub start_block: Option<u64>,
    pub end_block: Option<u64>,
    pub pool_address: Option<String>,
    pub markout_time: Option<String>,
}

/// Quartiles of a set of values, in cents, and how many values there were.
pub struct AggregatedStats {
    pub percentile_25: u64,
    pub median: u64,
    pub percentile_75: u64,
    pub count: u64,
}

/// The markout time whose cluster histograms a request asks for.
pub struct ClusterHistogramQuery {
    pub markout_time: Option<String>,
}

/// The markout time whose cluster activity a request asks for.
pub struct ClusterNonZeroQuery {
    pub markout_time: Option<String>,
}

/// The pool and markout time whose distribution a request asks for.
pub struct DistributionQuery {
    pub pool_address: String,
    pub markout_time: String,
}

} // verus!
