//! Settings of the RPC retry backoff policy.
use vstd::prelude::*;

verus! {

/// Default average cost of a single RPC request in provider compute units
/// (`eth_getBlockByNumber` ≈ 16 CU, `eth_getStorageAt` ≈ 17 CU on Alchemy).
pub const DEFAULT_AVG_COMPUTE_UNIT_COST: u64 = 17;

/// Configuration for the RPC retry backoff policy.
#[derive(Debug, Clone)]
pub struct RpcRetryConfig {
    /// The maximum number of retries for a request.
    pub max_retry: u32,
    /// The initial backoff delay in milliseconds.
    pub backoff_ms: u64,
    /// Client-side compute-unit budget per second, shared by all RPC URLs.
    ///
    /// Only engages as extra wait time on retries (e.g. after a 429), so it
    /// should reflect what the *slowest* configured provider allows:
    /// roughly `compute_units_per_second / avg_compute_unit_cost` requests per second.
    pub compute_units_per_second: u64,
    /// Estimated average compute-unit cost of a request; only used to pace retries
    /// after rate-limit errors. Raise it for log/receipt-heavy workloads.
    pub avg_compute_unit_cost: u64,
}

impl Default for RpcRetryConfig {
    fn default() -> (c: Self)
        ensures
            c.max_retry == 10,
            c.backoff_ms == 1000,
            c.compute_units_per_second == 1000,
            c.avg_compute_unit_cost == DEFAULT_AVG_COMPUTE_UNIT_COST,
    {
        Self {
            max_retry: 10,
            backoff_ms: 1000,
            compute_units_per_second: 1000,
            avg_compute_unit_cost: DEFAULT_AVG_COMPUTE_UNIT_COST,
        }
    }
}

pub open spec fn or_default<T>(given: Option<T>, default: T) -> T {
    match given {
        Some(v) => v,
        None => default,
    }
}

impl RpcRetryConfig {
    /// The configuration read from settings in which any field may be missing: each given
    /// field takes the given value, each missing one its default.
    pub fn with_overrides(
        max_retry: Option<u32>,
        backoff_ms: Option<u64>,
        compute_units_per_second: Option<u64>,
        avg_compute_unit_cost: Option<u64>,
    ) -> (c: Self)
        ensures
            c.max_retry == or_default(max_retry, 10u32),
            c.backoff_ms == or_default(backoff_ms, 1000u64),
            c.compute_units_per_second == or_default(compute_units_per_second, 1000u64),
            c.avg_compute_unit_cost == or_default(avg_compute_unit_cost, DEFAULT_AVG_COMPUTE_UNIT_COST),
            max_retry matches Some(v) ==> c.max_retry == v,
            max_retry is None ==> c.max_retry == 10,
            backoff_ms matches Some(v) ==> c.backoff_ms == v,
            backoff_ms is None ==> c.backoff_ms == 1000,
            compute_units_per_second matches Some(v) ==> c.compute_units_per_second == v,
            compute_units_per_second is None ==> c.compute_units_per_second == 1000,
            avg_compute_unit_cost matches Some(v) ==> c.avg_compute_unit_cost == v,
            avg_compute_unit_cost is None ==> c.avg_compute_unit_cost == 17,
    {
        let mut c = Self::default();
        if let Some(v) = max_retry {
            c.max_retry = v;
        }
        if let Some(v) = backoff_ms {
            c.backoff_ms = v;
        }
        if let Some(v) = compute_units_per_second {
            c.compute_units_per_second = v;
        }
        if let Some(v) = avg_compute_unit_cost {
            c.avg_compute_unit_cost = v;
        }
        c
    }
}

} // verus!
