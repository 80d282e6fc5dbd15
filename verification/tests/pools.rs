use rauta::backend::Backend;
use rauta::http1_pool::{Http1Pool, Http1PoolConfig, PoolStats};
use rauta::http2_pool::{
    BackendConnectionPools, ConnectOutcome, ConnectionState, HealthState, Http2Connection,
    Http2Pool, PoolChoice, PoolError,
};
use rauta::time::SECOND;

const NOW: u64 = 1_000 * SECOND;

fn backend() -> Backend {
    Backend::new(0x7F000001, 9001, 100)
}

fn pool() -> Http2Pool<u32> {
    Http2Pool::new(backend(), 0, NOW)
}

fn addr(port: u16) -> String {
    format!("10.0.0.1:{}", port)
}

/// A connection that can be told apart.
#[derive(Debug, PartialEq)]
struct MockSender {
    id: u64,
}

#[test]
fn a_pool_without_room_queues() {
    let mut pools: BackendConnectionPools<u32> = BackendConnectionPools::new(0);
    let pool = pools.get_or_create_pool(backend(), NOW);

    // Set max_connections to 0 to force queueing
    pool.max_connections = 0;

    // Try to get connection (should queue)
    let result = pool.get_connection(vec![], NOW);
    assert!(matches!(result, Err(PoolError::NoCapacity)), "Wrong error");
    assert_eq!(pool.metrics.requests_queued, 1);
}

#[test]
fn test_max_concurrent_streams_configured() {
    let mut pools: BackendConnectionPools<u32> = BackendConnectionPools::new(0);
    let pool = pools.get_or_create_pool(backend(), NOW);
    assert_eq!(pool.max_streams_per_conn, 500, "Wrong stream limit");
}

#[test]
fn test_round_robin_connection_selection() {
    let mut pools: BackendConnectionPools<u32> = BackendConnectionPools::new(0);
    let pool = pools.get_or_create_pool(backend(), NOW);
    assert!(pool.max_connections >= 2, "Need >= 2 connections");
    assert_eq!(pool.next_conn_index, 0, "Wrong initial index");
}

#[test]
fn test_hpack_header_table_size() {
    let mut pools: BackendConnectionPools<u32> = BackendConnectionPools::new(0);
    let pool = pools.get_or_create_pool(backend(), NOW);
    assert_eq!(pool.header_table_size, 8192, "Wrong HPACK table size");
}

#[test]
fn test_pool_size_increased_to_8_connections() {
    let mut pools: BackendConnectionPools<u32> = BackendConnectionPools::new(0);
    let pool = pools.get_or_create_pool(backend(), NOW);
    assert_eq!(
        pool.max_connections, 8,
        "Pool should have 8 connections for higher concurrency"
    );
}

#[test]
fn ready_connections_take_turns() {
    let mut pool = pool();
    for sender in 0..3 {
        assert_eq!(pool.create_connection(ConnectOutcome::Connected(sender), NOW), Ok(()));
    }
    assert_eq!(pool.metrics.connections_created, 3);
    let mut turns = Vec::new();
    for _ in 0..4 {
        match pool.get_connection(vec![true, true, true], NOW + 1) {
            Ok(PoolChoice::Use(i)) => turns.push(i),
            _ => panic!("should use a connection"),
        }
    }
    assert_eq!(turns, vec![0, 1, 2, 0]);
    assert_eq!(pool.connections[0].last_used, NOW + 1);
    assert!(matches!(
        pool.get_connection(vec![true, false, true], NOW + 1),
        Ok(PoolChoice::Use(2))
    ));
    assert!(matches!(
        pool.get_connection(vec![false, false, false], NOW + 1),
        Ok(PoolChoice::Open)
    ));
}

#[test]
fn failed_connections_are_dropped() {
    let mut pool = pool();
    pool.add_connection(1, NOW);
    pool.add_connection(2, NOW);
    pool.connections[0].state = ConnectionState::Failed;
    assert!(matches!(
        pool.get_connection(vec![true, true], NOW),
        Ok(PoolChoice::Use(0))
    ));
    assert_eq!(pool.connections.len(), 1);
    assert_eq!(pool.connections[0].sender, 2);
}

#[test]
fn failures_degrade_and_then_shut_a_pool() {
    let mut pool = pool();
    for _ in 0..4 {
        pool.record_failure();
    }
    assert_eq!(pool.health_state, HealthState::Healthy);
    pool.record_failure();
    assert_eq!(pool.health_state, HealthState::Degraded);
    assert_eq!(pool.max_connections, 4);
    for _ in 0..5 {
        pool.record_failure();
    }
    assert_eq!(pool.health_state, HealthState::Unhealthy);
    assert_eq!(pool.metrics.connections_failed, 10);
    assert!(matches!(
        pool.get_connection(vec![], NOW + 30 * SECOND),
        Err(PoolError::CircuitBreakerOpen)
    ));
    assert!(matches!(
        pool.get_connection(vec![], NOW + 30 * SECOND + 1),
        Ok(PoolChoice::Open)
    ));
    assert_eq!(pool.health_state, HealthState::Degraded);
    pool.record_success(NOW + 31 * SECOND);
    assert_eq!(pool.health_state, HealthState::Healthy);
    assert_eq!(pool.consecutive_failures, 0);
}

#[test]
fn failed_attempts_say_why() {
    let mut pool = pool();
    let e = pool.create_connection(ConnectOutcome::TimedOut, NOW).unwrap_err();
    assert_eq!(e.message(), "Connection failed: Connection timeout after 5s");
    let e = pool
        .create_connection(ConnectOutcome::Refused("no route".to_string()), NOW)
        .unwrap_err();
    assert_eq!(e.message(), "Connection failed: no route");
    let e = pool
        .create_connection(ConnectOutcome::HandshakeFailed("goaway".to_string()), NOW)
        .unwrap_err();
    assert_eq!(e.message(), "HTTP/2 handshake failed: goaway");
    assert_eq!(pool.consecutive_failures, 3);
    assert_eq!(PoolError::CircuitBreakerOpen.message(), "Circuit breaker is open");
    assert_eq!(PoolError::NoCapacity.message(), "No connections have capacity");
    assert_eq!(PoolError::QueueTimeout.message(), "Queue timeout");
}

#[test]
fn pools_are_filled_upfront_once() {
    let mut pools: BackendConnectionPools<u32> = BackendConnectionPools::default();
    assert!(!pools.needs_prewarm(backend()));
    let pool = pools.get_or_create_pool(backend(), NOW);
    assert!(pool.prewarm(0, false));
    assert!(pool.prewarm(7, false));
    assert!(!pool.prewarm(8, false));
    assert!(!pool.prewarm(3, true));
    assert!(pools.needs_prewarm(backend()));
    pools.get_or_create_pool(backend(), NOW).add_connection(1, NOW);
    assert!(!pools.needs_prewarm(backend()));
    // the weight of a backend does not matter
    let same = Backend::new(backend().ipv4, backend().port, 1);
    assert_eq!(pools.get_or_create_pool(same, NOW).connections.len(), 1);
}

#[test]
fn old_or_busy_connections_are_closed() {
    let conn = |state: ConnectionState, total_requests: u64| Http2Connection {
        sender: (),
        active_streams: 0,
        max_streams: 100,
        total_requests,
        state,
        created_at: NOW,
        last_used: NOW,
        consecutive_errors: 0,
        last_error: None,
    };
    assert!(!conn(ConnectionState::Active, 10_000).should_close(true, NOW + 3600 * SECOND));
    assert!(conn(ConnectionState::Active, 10_001).should_close(true, NOW));
    assert!(conn(ConnectionState::Active, 0).should_close(true, NOW + 3600 * SECOND + 1));
    assert!(conn(ConnectionState::Active, 0).should_close(false, NOW));
    assert!(conn(ConnectionState::Failed, 0).should_close(true, NOW));
}

#[test]
fn test_pool_creation_with_default_config() {
    let pool: Http1Pool<MockSender> = Http1Pool::new();
    assert_eq!(pool.config().max_idle_per_backend, 16);
    assert_eq!(pool.config().idle_timeout, 60 * SECOND);
}

#[test]
fn test_pool_creation_with_custom_config() {
    let config = Http1PoolConfig { max_idle_per_backend: 8, idle_timeout: 30 * SECOND };
    let pool: Http1Pool<MockSender> = Http1Pool::with_config(config);
    assert_eq!(pool.config().max_idle_per_backend, 8);
    assert_eq!(pool.config().idle_timeout, 30 * SECOND);
}

#[test]
fn test_empty_pool_stats() {
    let pool: Http1Pool<MockSender> = Http1Pool::new();
    let stats = pool.stats(&addr(8080));
    assert_eq!(stats, PoolStats { idle_connections: 0, max_idle: 16 });
}

#[test]
fn test_total_idle_empty() {
    let pool: Http1Pool<MockSender> = Http1Pool::new();
    assert_eq!(pool.total_idle(), 0);
}

#[test]
fn test_pool_get_returns_none_when_empty() {
    let mut pool: Http1Pool<MockSender> = Http1Pool::new();
    let conn = pool.try_get(&addr(8080), NOW);
    assert!(conn.is_none(), "Empty pool should return None");
}

#[test]
fn test_pool_put_and_get() {
    let mut pool: Http1Pool<MockSender> = Http1Pool::new();
    pool.put(&addr(8080), MockSender { id: 1 }, NOW);

    // Stats should show 1 idle
    assert_eq!(pool.stats(&addr(8080)).idle_connections, 1);

    // Get should return the connection
    let conn = pool.try_get(&addr(8080), NOW);
    assert!(conn.is_some(), "Pool should return connection");

    // Stats should show 0 idle after get
    assert_eq!(pool.stats(&addr(8080)).idle_connections, 0);
}

#[test]
fn test_pool_respects_max_idle() {
    let config = Http1PoolConfig { max_idle_per_backend: 2, idle_timeout: 60 * SECOND };
    let mut pool: Http1Pool<MockSender> = Http1Pool::with_config(config);

    // Put 3 connections, only 2 should be kept
    pool.put(&addr(8080), MockSender { id: 1 }, NOW);
    pool.put(&addr(8080), MockSender { id: 2 }, NOW);
    pool.put(&addr(8080), MockSender { id: 3 }, NOW);

    let stats = pool.stats(&addr(8080));
    assert_eq!(stats.idle_connections, 2, "Pool should cap at max_idle");
}

#[test]
fn test_pool_per_backend_isolation() {
    let mut pool: Http1Pool<MockSender> = Http1Pool::new();
    pool.put(&addr(8080), MockSender { id: 1 }, NOW);
    pool.put(&addr(8080), MockSender { id: 2 }, NOW);
    pool.put(&addr(8081), MockSender { id: 3 }, NOW);

    assert_eq!(pool.stats(&addr(8080)).idle_connections, 2);
    assert_eq!(pool.stats(&addr(8081)).idle_connections, 1);
    assert_eq!(pool.total_idle(), 3);
}

#[test]
fn test_pool_returns_same_connection() {
    let mut pool: Http1Pool<MockSender> = Http1Pool::new();
    pool.put(&addr(8080), MockSender { id: 42 }, NOW);
    let returned = pool.try_get(&addr(8080), NOW).expect("Should get connection");
    assert_eq!(returned.id, 42, "Should return same connection");
}

#[test]
fn idle_connections_grow_stale() {
    let mut pool: Http1Pool<MockSender> = Http1Pool::default();
    pool.put(&addr(8080), MockSender { id: 1 }, NOW);
    assert!(pool.try_get(&addr(8080), NOW + 60 * SECOND + 1).is_none());
    pool.put(&addr(8080), MockSender { id: 2 }, NOW);
    assert!(pool.try_get(&addr(8080), NOW + 59 * SECOND).is_some());
}
