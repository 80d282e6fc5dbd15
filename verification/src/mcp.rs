//! The tools that an agent can call, and the gateway call behind each.

use vstd::prelude::*;
use crate::query::{GatewayCall, TemporalQuery};

verus! {

/// Which routes to list.
#[derive(Debug, Clone)]
pub struct ListRoutesParams {
    /// Filter by HTTP method (GET, POST, etc.)
    pub method: Option<String>,
    /// Filter by path prefix
    pub path_prefix: Option<String>,
}

/// Which route to show.
#[derive(Debug, Clone)]
pub struct GetRouteParams {
    /// Route pattern to look up
    pub pattern: String,
}

/// Which circuit breakers to list.
#[derive(Debug, Clone)]
pub struct ListCircuitBreakersParams {
    /// Filter by state: Open, Closed, or HalfOpen
    pub state: Option<String>,
}

/// Which rate limiters to list.
#[derive(Debug, Clone)]
pub struct ListRateLimitersParams {
    /// Filter by route pattern
    pub route: Option<String>,
}

/// What to diagnose.
#[derive(Debug, Clone)]
pub struct DiagnoseParams {
    /// Symptom to diagnose (e.g., "high-latency", "circuit-breaker-cascade")
    pub symptom: String,
    /// Filter by route pattern
    pub route: Option<String>,
    /// Filter by backend address
    pub backend: Option<String>,
    /// Include temporal evidence from the last N seconds
    pub since_seconds: Option<u64>,
}

/// Which backend to drain.
#[derive(Debug, Clone)]
pub struct DrainBackendParams {
    /// Backend address to drain (e.g., "10.0.1.5:8080")
    pub backend: String,
    /// Drain timeout in seconds (default: 30)
    pub timeout: Option<u64>,
}

/// Which backend to serve again.
#[derive(Debug, Clone)]
pub struct UndrainBackendParams {
    /// Backend address to undrain
    pub backend: String,
}

/// Which backend to quarantine.
#[derive(Debug, Clone)]
pub struct QuarantineBackendParams {
    /// Backend address to quarantine
    pub backend: String,
    /// Quarantine TTL in seconds
    pub ttl_secs: u64,
}

/// Which metrics to show.
#[derive(Debug, Clone)]
pub struct MetricsSnapshotParams {
    /// Filter by metric name
    pub metric: Option<String>,
}

/// Which part of the history to show.
#[derive(Debug, Clone)]
pub struct TemporalParams {
    /// Include history from the last N seconds
    pub since_seconds: Option<u64>,
    /// Include events at or after this sequence
    pub from_sequence: Option<u64>,
    /// Include events at or before this sequence
    pub to_sequence: Option<u64>,
}

/// The part of the history that parameters name.
pub fn temporal_query(params: TemporalParams) -> (r: TemporalQuery)
    ensures
        r == (TemporalQuery {
            since_seconds: params.since_seconds,
            from_sequence: params.from_sequence,
            to_sequence: params.to_sequence,
        }),
{
    TemporalQuery {
        since_seconds: params.since_seconds,
        from_sequence: params.from_sequence,
        to_sequence: params.to_sequence,
    }
}

/// Gateway health overview.
pub fn rauta_status() -> (r: GatewayCall)
    ensures
        r == GatewayCall::Snapshot,
{
    GatewayCall::Snapshot
}

/// All configured routes.
pub fn rauta_list_routes(params: ListRoutesParams) -> (r: GatewayCall)
    ensures
        r == (GatewayCall::ListRoutes {
            method_filter: params.method,
            path_prefix: params.path_prefix,
        }),
{
    GatewayCall::ListRoutes {
        method_filter: params.method,
        path_prefix: params.path_prefix,
    }
}

/// A single route.
pub fn rauta_get_route(params: GetRouteParams) -> (r: GatewayCall)
    ensures
        r == (GatewayCall::GetRoute { pattern: params.pattern }),
{
    GatewayCall::GetRoute { pattern: params.pattern }
}

/// Circuit breaker states.
pub fn rauta_list_circuit_breakers(params: ListCircuitBreakersParams) -> (r: GatewayCall)
    ensures
        r == (GatewayCall::ListCircuitBreakers { state_filter: params.state }),
{
    GatewayCall::ListCircuitBreakers { state_filter: params.state }
}

/// Rate limiter states.
pub fn rauta_list_rate_limiters(params: ListRateLimitersParams) -> (r: GatewayCall)
    ensures
        r == (GatewayCall::ListRateLimiters { route_filter: params.route }),
{
    GatewayCall::ListRateLimiters { route_filter: params.route }
}

/// Diagnoses of a symptom.
pub fn rauta_diagnose(params: DiagnoseParams) -> (r: GatewayCall)
    ensures
        r == (GatewayCall::DiagnoseSince {
            symptom: params.symptom,
            route_filter: params.route,
            backend_filter: params.backend,
            since_seconds: params.since_seconds,
        }),
{
    GatewayCall::DiagnoseSince {
        symptom: params.symptom,
        route_filter: params.route,
        backend_filter: params.backend,
        since_seconds: params.since_seconds,
    }
}

/// Recent events and snapshots.
pub fn rauta_timeline(params: TemporalParams) -> (r: GatewayCall)
    ensures
        r == (GatewayCall::Timeline {
            query: TemporalQuery {
                since_seconds: params.since_seconds,
                from_sequence: params.from_sequence,
                to_sequence: params.to_sequence,
            },
        }),
{
    GatewayCall::Timeline { query: temporal_query(params) }
}

/// What changed over a part of the history.
pub fn rauta_diff(params: TemporalParams) -> (r: GatewayCall)
    ensures
        r == (GatewayCall::Diff {
            query: TemporalQuery {
                since_seconds: params.since_seconds,
                from_sequence: params.from_sequence,
                to_sequence: params.to_sequence,
            },
        }),
{
    GatewayCall::Diff { query: temporal_query(params) }
}

/// Route cache statistics.
pub fn rauta_cache_stats() -> (r: GatewayCall)
    ensures
        r == GatewayCall::CacheStats,
{
    GatewayCall::CacheStats
}

/// Active listeners.
pub fn rauta_list_listeners() -> (r: GatewayCall)
    ensures
        r == GatewayCall::ListListeners,
{
    GatewayCall::ListListeners
}

/// Metrics.
pub fn rauta_metrics_snapshot(params: MetricsSnapshotParams) -> (r: GatewayCall)
    ensures
        r == (GatewayCall::MetricsSnapshot { metric_filter: params.metric }),
{
    GatewayCall::MetricsSnapshot { metric_filter: params.metric }
}

/// Drains a backend.
pub fn rauta_drain_backend(params: DrainBackendParams) -> (r: GatewayCall)
    ensures
        r == (GatewayCall::DrainBackend {
            backend: params.backend,
            timeout_secs: params.timeout,
        }),
{
    GatewayCall::DrainBackend {
        backend: params.backend,
        timeout_secs: params.timeout,
    }
}

/// Serves a backend again.
pub fn rauta_undrain_backend(params: UndrainBackendParams) -> (r: GatewayCall)
    ensures
        r == (GatewayCall::UndrainBackend { backend: params.backend }),
{
    GatewayCall::UndrainBackend { backend: params.backend }
}

/// Quarantines a backend for a time.
pub fn rauta_quarantine_backend(params: QuarantineBackendParams) -> (r: GatewayCall)
    ensures
        r == (GatewayCall::QuarantineBackend {
            backend: params.backend,
            ttl_secs: params.ttl_secs,
        }),
{
    GatewayCall::QuarantineBackend {
        backend: params.backend,
        ttl_secs: params.ttl_secs,
    }
}

} // verus!
