//! Pools of HTTP/2 connections: which connection serves the next request, when a new one is
//! opened, and when a failing backend is left alone.

use vstd::prelude::*;
use vstd::string::*;
use crate::address::Address;
use crate::backend::{address_of, Backend};
use crate::table::{lemma_updated_map, Table, TableKey};
use crate::time::{elapsed, time_since, SECOND};

verus! {

/// The failures in a row that degrade a pool.
pub const DEGRADED_FAILURES: u32 = 5;

/// The failures in a row that shut a pool.
pub const UNHEALTHY_FAILURES: u32 = 10;

/// How long a shut pool waits since its last success before it is tried again.
pub const RECOVERY_SECONDS: u64 = 30;

/// How long opening a connection may take.
pub const CONNECT_TIMEOUT_SECONDS: u64 = 5;

/// Why a pool gives no connection.
#[derive(Debug, Clone, PartialEq, Eq)]
pub enum PoolError {
    CircuitBreakerOpen,
    ConnectionFailed(String),
    HandshakeFailed(String),
    NoCapacity,
    QueueTimeout,
}

impl PoolError {
    /// The text of an error.
    pub open spec fn text(&self) -> Seq<char> {
        match *self {
            PoolError::CircuitBreakerOpen => "Circuit breaker is open"@,
            PoolError::ConnectionFailed(why) => "Connection failed: "@ + why@,
            PoolError::HandshakeFailed(why) => "HTTP/2 handshake failed: "@ + why@,
            PoolError::NoCapacity => "No connections have capacity"@,
            PoolError::QueueTimeout => "Queue timeout"@,
        }
    }

    /// Writes the text of an error.
    pub fn message(&self) -> (r: String)
        ensures
            r@ == self.text(),
    {
        match self {
            PoolError::CircuitBreakerOpen => "Circuit breaker is open".to_owned(),
            PoolError::ConnectionFailed(why) => {
                let mut s = "Connection failed: ".to_owned();
                s.append(why.as_str());
                s
            },
            PoolError::HandshakeFailed(why) => {
                let mut s = "HTTP/2 handshake failed: ".to_owned();
                s.append(why.as_str());
                s
            },
            PoolError::NoCapacity => "No connections have capacity".to_owned(),
            PoolError::QueueTimeout => "Queue timeout".to_owned(),
        }
    }
}

/// The state of a connection.
#[derive(Debug, Clone, Copy, PartialEq, Eq, Structural)]
pub enum ConnectionState {
    /// Takes requests
    Active,
    /// Finishes its requests and takes no new ones
    Draining,
    /// Broken
    Failed,
}

/// The state of a pool.
#[derive(Debug, Clone, Copy, PartialEq, Eq, Structural)]
pub enum HealthState {
    /// All is well
    Healthy,
    /// After some failures, with fewer connections
    Degraded,
    /// After many failures, shut
    Unhealthy,
}

/// A connection, with the sender of the HTTP client that uses the pool.
pub struct Http2Connection<S> {
    pub sender: S,
    /// Requests under way
    pub active_streams: u32,
    /// The most requests at a time
    pub max_streams: u32,
    pub total_requests: u64,
    pub state: ConnectionState,
    pub created_at: u64,
    pub last_used: u64,
    pub consecutive_errors: u32,
    pub last_error: Option<u64>,
}

impl<S> Http2Connection<S> {
    /// Whether a connection should be closed: broken, over an hour old, used over ten thousand
    /// times, or not ready any more.
    pub fn should_close(&self, ready: bool, now: u64) -> (r: bool)
        ensures
            r == (self.state == ConnectionState::Failed || elapsed(self.created_at, now) > 3600
                * SECOND || self.total_requests > 10_000 || !ready),
    {
        self.state == ConnectionState::Failed || time_since(self.created_at, now) > 3600 * SECOND
            || self.total_requests > 10_000 || !ready
    }
}

/// What a pool has counted.
#[derive(Debug, Clone, Copy, PartialEq, Eq, Structural)]
pub struct PoolMetrics {
    pub requests_total: u64,
    pub requests_queued: u64,
    pub connections_created: u64,
    pub connections_failed: u64,
}

/// What a pool decided on a request for a connection.
#[derive(Debug, Clone, Copy, PartialEq, Eq, Structural)]
pub enum PoolChoice {
    /// Use the connection at this position
    Use(usize),
    /// Open a new connection and hand it to the pool
    Open,
}

/// How an attempt to open a connection ended.
pub enum ConnectOutcome<S> {
    /// The backend did not answer in time
    TimedOut,
    /// The backend could not be reached, and why
    Refused(String),
    /// The backend did not take up the protocol, and why
    HandshakeFailed(String),
    Connected(S),
}

/// The connections of a pool to one backend.
pub struct Http2Pool<S> {
    pub backend: Backend,
    pub worker_id: usize,
    pub connections: Vec<Http2Connection<S>>,
    pub max_connections: usize,
    pub max_streams_per_conn: u32,
    pub next_conn_index: usize,
    pub header_table_size: u32,
    pub health_state: HealthState,
    pub consecutive_failures: u32,
    pub last_success: u64,
    pub metrics: PoolMetrics,
}

/// The connections that are not broken, in order.
pub open spec fn unbroken<S>(connections: Seq<Http2Connection<S>>) -> Seq<Http2Connection<S>>
    decreases connections.len(),
{
    if connections.len() == 0 {
        Seq::empty()
    } else {
        let rest = unbroken(connections.drop_last());
        if connections.last().state == ConnectionState::Failed {
            rest
        } else {
            rest.push(connections.last())
        }
    }
}

/// The readiness of the connections that are not broken, in order.
pub open spec fn unbroken_ready<S>(
    connections: Seq<Http2Connection<S>>,
    ready: Seq<bool>,
) -> Seq<bool>
    decreases connections.len(),
{
    if connections.len() == 0 {
        Seq::empty()
    } else {
        let rest = unbroken_ready(connections.drop_last(), ready.drop_last());
        if connections.last().state == ConnectionState::Failed {
            rest
        } else {
            rest.push(ready.last())
        }
    }
}

/// Whether the connection that is `k` after a start takes a request.
pub open spec fn takes<S>(
    connections: Seq<Http2Connection<S>>,
    ready: Seq<bool>,
    start: int,
    k: int,
) -> bool {
    let i = (start + k) % connections.len() as int;
    connections[i].state == ConnectionState::Active && ready[i]
}

/// The position of the first connection that takes a request, going round from a start.
pub open spec fn next_taker<S>(
    connections: Seq<Http2Connection<S>>,
    ready: Seq<bool>,
    start: int,
    k: int,
) -> Option<int>
    decreases connections.len() - k,
{
    if k >= connections.len() {
        None
    } else if takes(connections, ready, start, k) {
        Some((start + k) % connections.len() as int)
    } else {
        next_taker(connections, ready, start, k + 1)
    }
}

impl<S> Http2Pool<S> {
    /// Whether a pool is new: empty and healthy, with room for eight connections of five hundred
    /// streams each.
    pub open spec fn is_new(&self, backend: Backend, worker_id: usize, now: u64) -> bool {
        &&& self.backend == backend
        &&& self.worker_id == worker_id
        &&& self.connections@ == Seq::<Http2Connection<S>>::empty()
        &&& self.max_connections == 8
        &&& self.max_streams_per_conn == 500
        &&& self.next_conn_index == 0
        &&& self.header_table_size == 8192
        &&& self.health_state == HealthState::Healthy
        &&& self.consecutive_failures == 0
        &&& self.last_success == now
        &&& self.metrics == (PoolMetrics {
            requests_total: 0, requests_queued: 0,
            connections_created: 0,
            connections_failed: 0,
        })
    }

    /// An empty pool.
    pub fn new(backend: Backend, worker_id: usize, now: u64) -> (r: Self)
        ensures
            r.is_new(backend, worker_id, now),
    {
        Http2Pool {
            backend,
            worker_id,
            connections: Vec::new(),
            max_connections: 8,
            max_streams_per_conn: 500,
            next_conn_index: 0,
            header_table_size: 8192,
            health_state: HealthState::Healthy,
            consecutive_failures: 0,
            last_success: now,
            metrics: PoolMetrics {
                requests_total: 0, requests_queued: 0,
                connections_created: 0,
                connections_failed: 0,
            },
        }
    }

    /// Whether a shut pool stays shut at an instant.
    pub open spec fn stays_shut(&self, now: u64) -> bool {
        self.health_state == HealthState::Unhealthy && elapsed(self.last_success, now)
            <= RECOVERY_SECONDS * SECOND
    }

    /// The connection that a request gets: a shut pool that is not due for another try gives none;
    /// otherwise broken connections go, the next one round that is active and ready is used, a new
    /// one is opened below the limit, and else there is no capacity.
    pub fn get_connection(&mut self, ready: Vec<bool>, now: u64) -> (r: Result<PoolChoice, PoolError>)
        requires
            ready@.len() == old(self).connections@.len(),
            old(self).metrics.requests_queued < u64::MAX,
        ensures
            final(self).backend == old(self).backend,
            final(self).worker_id == old(self).worker_id,
            final(self).max_connections == old(self).max_connections,
            final(self).max_streams_per_conn == old(self).max_streams_per_conn,
            final(self).header_table_size == old(self).header_table_size,
            final(self).last_success == old(self).last_success,
            final(self).metrics.connections_created == old(self).metrics.connections_created,
            final(self).metrics.connections_failed == old(self).metrics.connections_failed,
            old(self).stays_shut(now) ==> {
                &&& r == Err::<PoolChoice, PoolError>(PoolError::CircuitBreakerOpen)
                &&& *final(self) == *old(self)
            },
            !old(self).stays_shut(now) ==> {
                let kept = unbroken(old(self).connections@);
                let kept_ready = unbroken_ready(old(self).connections@, ready@);
                let recovers = old(self).health_state == HealthState::Unhealthy;
                &&& final(self).health_state == if recovers {
                    HealthState::Degraded
                } else {
                    old(self).health_state
                }
                &&& final(self).consecutive_failures == if recovers {
                    0
                } else {
                    old(self).consecutive_failures
                }
                &&& match next_taker(kept, kept_ready, old(self).next_conn_index as int, 0) {
                    Some(i) => {
                        &&& r == Ok::<PoolChoice, PoolError>(PoolChoice::Use(i as usize))
                        &&& 0 <= i < kept.len()
                        &&& final(self).next_conn_index == (i + 1) % kept.len() as int
                        &&& final(self).connections@ == kept.update(
                            i,
                            Http2Connection { last_used: now, ..kept[i] },
                        )
                        &&& final(self).metrics == old(self).metrics
                    },
                    None => {
                        &&& final(self).connections@ == kept
                        &&& final(self).next_conn_index == old(self).next_conn_index
                        &&& if kept.len() < old(self).max_connections {
                            r == Ok::<PoolChoice, PoolError>(PoolChoice::Open) && final(self).metrics == old(self).metrics
                        } else {
                            &&& r == Err::<PoolChoice, PoolError>(PoolError::NoCapacity)
                            &&& final(self).metrics == (PoolMetrics {
                                requests_queued: (old(self).metrics.requests_queued + 1) as u64,
                                ..old(self).metrics
                            })
                        }
                    },
                }
            },
    {
        if self.health_state == HealthState::Unhealthy {
            if time_since(self.last_success, now) > RECOVERY_SECONDS * SECOND {
                self.health_state = HealthState::Degraded;
                self.consecutive_failures = 0;
            } else {
                return Err(PoolError::CircuitBreakerOpen);
            }
        }
        let kept_ready = self.drop_broken(ready);
        let n: usize = self.connections.len();
        if n > 0 {
            let start: usize = self.next_conn_index % n;
            let mut k: usize = 0;
            assert(next_taker(self.connections@, kept_ready@, self.next_conn_index as int, 0)
                == next_taker(
                unbroken(old(self).connections@),
                unbroken_ready(old(self).connections@, ready@),
                old(self).next_conn_index as int,
                0,
            ));
            while k < n
                invariant
                    n == self.connections@.len(),
                    n > 0,
                    k <= n,
                    kept_ready@.len() == n,
                    start == self.next_conn_index as int % n as int,
                    self.connections@ == unbroken(old(self).connections@),
                    kept_ready@ == unbroken_ready(old(self).connections@, ready@),
                    self.next_conn_index == old(self).next_conn_index,
                    self.backend == old(self).backend,
                    self.worker_id == old(self).worker_id,
                    self.max_connections == old(self).max_connections,
                    self.max_streams_per_conn == old(self).max_streams_per_conn,
                    self.header_table_size == old(self).header_table_size,
                    self.last_success == old(self).last_success,
                    self.metrics == old(self).metrics,
                    !old(self).stays_shut(now),
                    self.health_state == if old(self).health_state == HealthState::Unhealthy {
                        HealthState::Degraded
                    } else {
                        old(self).health_state
                    },
                    self.consecutive_failures == if old(self).health_state
                        == HealthState::Unhealthy {
                        0
                    } else {
                        old(self).consecutive_failures
                    },
                    next_taker(self.connections@, kept_ready@, self.next_conn_index as int, k as int)
                        == next_taker(
                        self.connections@,
                        kept_ready@,
                        self.next_conn_index as int,
                        0,
                    ),
                decreases n - k,
            {
                let i: usize = if k < n - start {
                    start + k
                } else {
                    k - (n - start)
                };
                proof {
                    lemma_round(self.next_conn_index as int, k as int, n as int);
                    assert(i == (self.next_conn_index as int + k as int) % (n as int));
                }
                if self.connections[i].state == ConnectionState::Active && kept_ready[i] {
                    self.connections[i].last_used = now;
                    self.next_conn_index = if i + 1 == n {
                        0
                    } else {
                        i + 1
                    };
                    proof {
                        vstd::arithmetic::div_mod::lemma_mod_self_0(n as int);
                        if i + 1 < n {
                            vstd::arithmetic::div_mod::lemma_small_mod((i + 1) as nat, n as nat);
                        }
                        assert(self.connections@ =~= unbroken(old(self).connections@).update(
                            i as int,
                            Http2Connection {
                                last_used: now,
                                ..unbroken(old(self).connections@)[i as int]
                            },
                        ));
                    }
                    return Ok(PoolChoice::Use(i));
                }
                k += 1;
            }
        }
        if self.connections.len() < self.max_connections {
            Ok(PoolChoice::Open)
        } else {
            self.metrics.requests_queued = self.metrics.requests_queued + 1;
            Err(PoolError::NoCapacity)
        }
    }

    /// Drops the broken connections; the readiness of the others.
    fn drop_broken(&mut self, ready: Vec<bool>) -> (r: Vec<bool>)
        requires
            ready@.len() == old(self).connections@.len(),
        ensures
            final(self).connections@ == unbroken(old(self).connections@),
            r@ == unbroken_ready(old(self).connections@, ready@),
            r@.len() == final(self).connections@.len(),
            final(self).backend == old(self).backend,
            final(self).worker_id == old(self).worker_id,
            final(self).max_connections == old(self).max_connections,
            final(self).max_streams_per_conn == old(self).max_streams_per_conn,
            final(self).next_conn_index == old(self).next_conn_index,
            final(self).header_table_size == old(self).header_table_size,
            final(self).health_state == old(self).health_state,
            final(self).consecutive_failures == old(self).consecutive_failures,
            final(self).last_success == old(self).last_success,
            final(self).metrics == old(self).metrics,
    {
        let mut kept_ready: Vec<bool> = Vec::new();
        let mut seen: usize = 0;
        let total: usize = self.connections.len();
        while seen < total
            invariant
                total == old(self).connections@.len(),
                total == ready@.len(),
                seen <= total,
                kept_ready@.len() <= seen,
                self.connections@.len() == kept_ready@.len() + (total - seen),
                self.connections@.take(kept_ready@.len() as int) == unbroken(
                    old(self).connections@.take(seen as int),
                ),
                self.connections@.skip(kept_ready@.len() as int) == old(self).connections@.skip(
                    seen as int,
                ),
                kept_ready@ == unbroken_ready(
                    old(self).connections@.take(seen as int),
                    ready@.take(seen as int),
                ),
                self.backend == old(self).backend,
                self.worker_id == old(self).worker_id,
                self.max_connections == old(self).max_connections,
                self.max_streams_per_conn == old(self).max_streams_per_conn,
                self.next_conn_index == old(self).next_conn_index,
                self.header_table_size == old(self).header_table_size,
                self.health_state == old(self).health_state,
                self.consecutive_failures == old(self).consecutive_failures,
                self.last_success == old(self).last_success,
                self.metrics == old(self).metrics,
            decreases total - seen,
        {
            let at: usize = kept_ready.len();
            let ghost before = self.connections@;
            let ghost all = old(self).connections@;
            assert(before.skip(at as int)[0] == all.skip(seen as int)[0]);
            assert(before[at as int] == all[seen as int]);
            assert(all.take(seen as int + 1).drop_last() =~= all.take(seen as int));
            assert(ready@.take(seen as int + 1).drop_last() =~= ready@.take(seen as int));
            if self.connections[at].state == ConnectionState::Failed {
                let _broken = self.connections.remove(at);
                assert(self.connections@.take(at as int) =~= before.take(at as int));
                assert(self.connections@.skip(at as int) =~= all.skip(seen as int + 1)) by {
                    assert(before.skip(at as int).skip(1) =~= all.skip(seen as int).skip(1));
                    assert(self.connections@.skip(at as int) =~= before.skip(at as int).skip(1));
                    assert(all.skip(seen as int).skip(1) =~= all.skip(seen as int + 1));
                }
            } else {
                kept_ready.push(ready[seen]);
                assert(self.connections@.take(at as int + 1) =~= before.take(at as int).push(
                    before[at as int],
                ));
                assert(self.connections@.skip(at as int + 1) =~= all.skip(seen as int + 1)) by {
                    assert(before.skip(at as int).skip(1) =~= all.skip(seen as int).skip(1));
                    assert(self.connections@.skip(at as int + 1) =~= before.skip(at as int).skip(1));
                    assert(all.skip(seen as int).skip(1) =~= all.skip(seen as int + 1));
                }
            }
            seen += 1;
        }
        assert(old(self).connections@.take(total as int) =~= old(self).connections@);
        assert(ready@.take(total as int) =~= ready@);
        assert(self.connections@.take(kept_ready@.len() as int) =~= self.connections@);
        kept_ready
    }

    /// Whether a pool is this one with a connection just opened: the attempt is counted as a
    /// success.
    pub open spec fn gains(&self, after: Self, sender: S, now: u64) -> bool {
        &&& after.connections@ == self.connections@.push(
            Http2Connection {
                sender,
                active_streams: 0,
                max_streams: self.max_streams_per_conn,
                total_requests: 0,
                state: ConnectionState::Active,
                created_at: now,
                last_used: now,
                consecutive_errors: 0,
                last_error: None,
            },
        )
        &&& after.metrics == (PoolMetrics {
            connections_created: (self.metrics.connections_created + 1) as u64,
            ..self.metrics
        })
        &&& after.consecutive_failures == 0
        &&& after.last_success == now
        &&& after.health_state == if self.health_state == HealthState::Degraded {
            HealthState::Healthy
        } else {
            self.health_state
        }
        &&& after.backend == self.backend
        &&& after.worker_id == self.worker_id
        &&& after.max_connections == self.max_connections
        &&& after.max_streams_per_conn == self.max_streams_per_conn
        &&& after.next_conn_index == self.next_conn_index
        &&& after.header_table_size == self.header_table_size
    }

    /// Takes in a connection that was opened.
    pub fn add_connection(&mut self, sender: S, now: u64)
        requires
            old(self).metrics.connections_created < u64::MAX,
        ensures
            old(self).gains(*final(self), sender, now),
    {
        self.record_success(now);
        self.metrics.connections_created = self.metrics.connections_created + 1;
        self.connections.push(
            Http2Connection {
                sender,
                active_streams: 0,
                max_streams: self.max_streams_per_conn,
                total_requests: 0,
                state: ConnectionState::Active,
                created_at: now,
                last_used: now,
                consecutive_errors: 0,
                last_error: None,
            },
        );
    }

    /// Takes in how an attempt to open a connection ended: a connection joins the pool, and
    /// anything else is a failure with its reason.
    pub fn create_connection(&mut self, outcome: ConnectOutcome<S>, now: u64) -> (r: Result<
        (),
        PoolError,
    >)
        requires
            old(self).consecutive_failures < u32::MAX,
            old(self).metrics.connections_failed < u64::MAX,
            old(self).metrics.connections_created < u64::MAX,
        ensures
            match outcome {
                ConnectOutcome::Connected(sender) => r is Ok && old(self).gains(
                    *final(self),
                    sender,
                    now,
                ),
                ConnectOutcome::TimedOut => {
                    &&& r matches Err(PoolError::ConnectionFailed(why))
                        && why@ == "Connection timeout after 5s"@
                    &&& *final(self) == old(self).after_failure()
                },
                ConnectOutcome::Refused(cause) => {
                    &&& r matches Err(PoolError::ConnectionFailed(why)) && why == cause
                    &&& *final(self) == old(self).after_failure()
                },
                ConnectOutcome::HandshakeFailed(cause) => {
                    &&& r matches Err(PoolError::HandshakeFailed(why)) && why == cause
                    &&& *final(self) == old(self).after_failure()
                },
            },
    {
        match outcome {
            ConnectOutcome::Connected(sender) => {
                self.add_connection(sender, now);
                Ok(())
            },
            ConnectOutcome::TimedOut => {
                self.record_failure();
                Err(PoolError::ConnectionFailed("Connection timeout after 5s".to_owned()))
            },
            ConnectOutcome::Refused(cause) => {
                self.record_failure();
                Err(PoolError::ConnectionFailed(cause))
            },
            ConnectOutcome::HandshakeFailed(cause) => {
                self.record_failure();
                Err(PoolError::HandshakeFailed(cause))
            },
        }
    }

    /// Whether a pool that is being filled upfront opens another connection: until its limit is
    /// reached, or one fails.
    pub fn prewarm(&self, opened: usize, failed: bool) -> (r: bool)
        ensures
            r == (!failed && opened < self.max_connections),
    {
        !failed && opened < self.max_connections
    }

    /// Records a success: failures are forgotten and a degraded pool is healthy again.
    pub fn record_success(&mut self, now: u64)
        ensures
            *final(self) == (Http2Pool {
                consecutive_failures: 0,
                last_success: now,
                health_state: if old(self).health_state == HealthState::Degraded {
                    HealthState::Healthy
                } else {
                    old(self).health_state
                },
                ..*old(self)
            }),
    {
        self.consecutive_failures = 0;
        self.last_success = now;
        if self.health_state == HealthState::Degraded {
            self.health_state = HealthState::Healthy;
        }
    }

    /// The pool once another attempt has failed: at five failures in a row a healthy pool is
    /// degraded and keeps half its limit, at ten any pool is shut.
    pub open spec fn after_failure(&self) -> Self {
        let n = self.consecutive_failures + 1;
        let degrades = n >= DEGRADED_FAILURES && self.health_state == HealthState::Healthy;
        Http2Pool {
            consecutive_failures: n as u32,
            metrics: PoolMetrics {
                connections_failed: (self.metrics.connections_failed + 1) as u64,
                ..self.metrics
            },
            max_connections: if degrades {
                (if self.max_connections == 0 {
                    1
                } else {
                    self.max_connections
                }) / 2
            } else {
                self.max_connections
            },
            health_state: if n >= UNHEALTHY_FAILURES {
                HealthState::Unhealthy
            } else if degrades {
                HealthState::Degraded
            } else {
                self.health_state
            },
            ..*self
        }
    }

    /// Records a failure: at five in a row a healthy pool is degraded and keeps half its limit, at
    /// ten any pool is shut.
    pub fn record_failure(&mut self)
        requires
            old(self).consecutive_failures < u32::MAX,
            old(self).metrics.connections_failed < u64::MAX,
        ensures
            *final(self) == old(self).after_failure(),
    {
        self.consecutive_failures = self.consecutive_failures + 1;
        self.metrics.connections_failed = self.metrics.connections_failed + 1;
        if self.consecutive_failures >= DEGRADED_FAILURES && self.health_state
            == HealthState::Healthy {
            self.health_state = HealthState::Degraded;
            let limit: usize = if self.max_connections == 0 {
                1
            } else {
                self.max_connections
            };
            self.max_connections = limit / 2;
        }
        if self.consecutive_failures >= UNHEALTHY_FAILURES {
            self.health_state = HealthState::Unhealthy;
        }
    }
}

proof fn lemma_round(start: int, k: int, n: int)
    requires
        n > 0,
        start >= 0,
        0 <= k < n,
    ensures
        ({
            let s = start % n;
            (start + k) % n == if k < n - s {
                s + k
            } else {
                k - (n - s)
            }
        }),
{
    let s = start % n;
    vstd::arithmetic::div_mod::lemma_fundamental_div_mod(start, n);
    let q = start / n;
    assert(q * n == n * q) by (nonlinear_arith);
    if k < n - s {
        vstd::arithmetic::div_mod::lemma_fundamental_div_mod_converse(start + k, n, q, s + k);
    } else {
        assert((q + 1) * n == n * q + n) by (nonlinear_arith);
        vstd::arithmetic::div_mod::lemma_fundamental_div_mod_converse(
            start + k,
            n,
            q + 1,
            k - (n - s),
        );
    }
}

/// A backend as pools know it: address and port.
#[derive(Debug, Clone, Copy, PartialEq, Eq, Hash, Structural)]
pub struct BackendKey {
    pub address: Address,
    pub port: u16,
}

/// The key of a backend; its weight does not matter.
pub open spec fn backend_key(backend: Backend) -> BackendKey {
    BackendKey { address: address_of(backend), port: backend.port }
}

impl TableKey for BackendKey {
    type Id = BackendKey;

    type Probe = BackendKey;

    open spec fn id(&self) -> BackendKey {
        *self
    }

    open spec fn probe_id(probe: &BackendKey) -> BackendKey {
        *probe
    }

    fn is(&self, probe: &BackendKey) -> (r: bool) {
        *self == *probe
    }

    fn from_probe(probe: &BackendKey) -> (r: Self) {
        *probe
    }
}

/// The pools of one worker, one per backend.
pub struct BackendConnectionPools<S> {
    worker_id: usize,
    pools: Table<BackendKey, Http2Pool<S>>,
}

impl<S> BackendConnectionPools<S> {
    /// The worker that the pools belong to.
    pub closed spec fn worker(&self) -> usize {
        self.worker_id
    }

    /// The pools, by backend.
    pub closed spec fn pools(&self) -> Map<BackendKey, Http2Pool<S>> {
        self.pools.map()
    }

    /// No backend has two pools.
    pub closed spec fn wf(&self) -> bool {
        self.pools.wf()
    }

    /// No pool yet.
    pub fn new(worker_id: usize) -> (r: Self)
        ensures
            r.wf(),
            r.worker() == worker_id,
            r.pools() == Map::<BackendKey, Http2Pool<S>>::empty(),
    {
        BackendConnectionPools { worker_id, pools: Table::new() }
    }

    /// The pool of a backend, which is created where there is none.
    pub fn get_or_create_pool(&mut self, backend: Backend, now: u64) -> (r: &mut Http2Pool<S>)
        requires
            old(self).wf(),
        ensures
            final(self).wf(),
            final(self).worker() == old(self).worker(),
            final(self).pools() == old(self).pools().insert(backend_key(backend), *final(r)),
            if old(self).pools().contains_key(backend_key(backend)) {
                *r == old(self).pools()[backend_key(backend)]
            } else {
                r.is_new(backend, old(self).worker(), now)
            },
    {
        let key = BackendKey { address: backend.address(), port: backend.port };
        let found = self.pools.find(&key);
        let at: usize = match found {
            Some(i) => i,
            None => {
                let n: usize = self.pools.len();
                self.pools.insert(&key, Http2Pool::new(backend, self.worker_id, now));
                n
            },
        };
        proof {
            assert(self.pools.keys()[at as int] == key);
            assert(self.pools.keys().index_of(key) == at) by {
                assert(self.pools.keys().no_duplicates());
            }
            assert(self.pools.keys().contains(key));
            assert forall|v: Http2Pool<S>, t: Table<BackendKey, Http2Pool<S>>|
                t.keys() == self.pools.keys() && t.values() == #[trigger] self.pools.values().update(
                    at as int,
                    v,
                ) implies (#[trigger] t.map()) == old(self).pools().insert(key, v) && t.wf() by {
                lemma_updated_map(self.pools, t, at as int, v);
                assert(self.pools.map().insert(key, v) =~= old(self).pools().insert(key, v));
            }
        }
        self.pools.at_mut(at)
    }

    /// Whether a backend's pool exists and has no connection yet, so that opening some ahead of
    /// requests pays.
    pub fn needs_prewarm(&self, backend: Backend) -> (r: bool)
        requires
            self.wf(),
        ensures
            r == (self.pools().contains_key(backend_key(backend)) && self.pools()[backend_key(
                backend,
            )].connections@.len() == 0),
    {
        let key = BackendKey { address: backend.address(), port: backend.port };
        match self.pools.get(&key) {
            Some(p) => p.connections.len() == 0,
            None => false,
        }
    }
}

impl<S> Default for BackendConnectionPools<S> {
    fn default() -> (r: Self)
        ensures
            r.wf(),
            r.worker() == 0,
            r.pools() == Map::<BackendKey, Http2Pool<S>>::empty(),
    {
        BackendConnectionPools::new(0)
    }
}

/// Connections that are all active and ready take turns: the request gets the one whose turn it
/// is.
pub proof fn lemma_ready_connections_take_turns<S>(
    connections: Seq<Http2Connection<S>>,
    ready: Seq<bool>,
    turn: int,
)
    requires
        connections.len() > 0,
        connections.len() == ready.len(),
        0 <= turn < connections.len(),
        forall|i: int|
            0 <= i < connections.len() ==> (#[trigger] connections[i]).state
                == ConnectionState::Active && ready[i],
    ensures
        next_taker(connections, ready, turn, 0) == Some(turn),
{
    vstd::arithmetic::div_mod::lemma_small_mod(turn as nat, connections.len());
    assert(connections[turn].state == ConnectionState::Active);
}

/// No broken connection is ever used, and every other one is kept.
pub proof fn lemma_unbroken<S>(connections: Seq<Http2Connection<S>>, c: Http2Connection<S>)
    ensures
        unbroken(connections).contains(c) <==> connections.contains(c) && c.state
            != ConnectionState::Failed,
        unbroken(connections).len() <= connections.len(),
    decreases connections.len(),
{
    if connections.len() > 0 {
        let rest = connections.drop_last();
        let last = connections.last();
        lemma_unbroken(rest, c);
        assert(connections =~= rest.push(last));
        if rest.contains(c) {
            let i = rest.index_of(c);
            assert(connections[i] == c);
        }
        if connections.contains(c) && !rest.contains(c) {
            let i = connections.index_of(c);
            assert(i == connections.len() - 1) by {
                if i < rest.len() {
                    assert(rest[i] == c);
                }
            }
        }
        assert(connections[connections.len() - 1] == last);
        if last.state != ConnectionState::Failed {
            let u = unbroken(rest).push(last);
            assert(unbroken(connections) == u);
            assert(u[u.len() - 1] == last);
            if unbroken(rest).contains(c) {
                let i = unbroken(rest).index_of(c);
                assert(u[i] == c);
            }
            if u.contains(c) && c != last {
                let i = u.index_of(c);
                assert(unbroken(rest)[i] == c);
            }
        }
    }
}

proof fn lemma_next_taker_from<S>(
    connections: Seq<Http2Connection<S>>,
    ready: Seq<bool>,
    start: int,
    from: int,
    k: int,
)
    requires
        0 <= from <= k <= connections.len(),
        forall|j: int| from <= j < k ==> !#[trigger] takes(connections, ready, start, j),
        k < connections.len() ==> takes(connections, ready, start, k),
    ensures
        next_taker(connections, ready, start, from) == if k < connections.len() {
            Some((start + k) % connections.len() as int)
        } else {
            None
        },
    decreases k - from,
{
    if from < k {
        assert(!takes(connections, ready, start, from));
        lemma_next_taker_from(connections, ready, start, from + 1, k);
    }
}

/// Whether the connection so many positions behind a start is active and ready; behind the last
/// position comes the first.
pub open spec fn usable_behind<S>(
    connections: Seq<Http2Connection<S>>,
    ready: Seq<bool>,
    start: int,
    k: int,
) -> bool {
    let p = (start + k) % connections.len() as int;
    connections[p].state == ConnectionState::Active && ready[p]
}

/// Going round from where the turn stands, a request gets the first connection that is active and
/// ready, however many come before it that are not; and it gets none only if no connection at all is.
pub proof fn lemma_turn_goes_round<S>(
    connections: Seq<Http2Connection<S>>,
    ready: Seq<bool>,
    start: int,
    k: int,
    i: int,
)
    requires
        start >= 0,
        0 <= k < connections.len(),
        0 <= i < connections.len(),
    ensures
        usable_behind(connections, ready, start, k) && (forall|j: int|
            0 <= j < k ==> !#[trigger] usable_behind(connections, ready, start, j)) ==> next_taker(
            connections,
            ready,
            start,
            0,
        ) == Some((start + k) % connections.len() as int),
        connections[i].state == ConnectionState::Active && ready[i] ==> next_taker(
            connections,
            ready,
            start,
            0,
        ) is Some,
        (forall|p: int|
            0 <= p < connections.len() ==> !((#[trigger] connections[p]).state
                == ConnectionState::Active && ready[p])) ==> next_taker(
            connections,
            ready,
            start,
            0,
        ) is None,
{
    let n = connections.len() as int;
    assert forall|j: int| takes(connections, ready, start, j) == #[trigger] usable_behind(
        connections,
        ready,
        start,
        j,
    ) by {}
    if usable_behind(connections, ready, start, k) && forall|j: int|
        0 <= j < k ==> !#[trigger] usable_behind(connections, ready, start, j) {
        assert forall|j: int| 0 <= j < k implies !#[trigger] takes(connections, ready, start, j) by {
            assert(!usable_behind(connections, ready, start, j));
        }
        lemma_next_taker_from(connections, ready, start, 0, k);
    }
    if connections[i].state == ConnectionState::Active && ready[i] {
        let s = start % n;
        let steps = if i >= s {
            i - s
        } else {
            i - s + n
        };
        lemma_round(start, steps, n);
        assert(takes(connections, ready, start, steps));
        let least = lemma_least_taker(connections, ready, start, steps);
        lemma_next_taker_from(connections, ready, start, 0, least);
    }
    if forall|p: int|
        0 <= p < connections.len() ==> !((#[trigger] connections[p]).state
            == ConnectionState::Active && ready[p]) {
        assert forall|j: int| 0 <= j < n implies !#[trigger] takes(connections, ready, start, j) by {
            let p = (start + j) % n;
            assert(!(connections[p].state == ConnectionState::Active && ready[p]));
        }
        lemma_next_taker_from(connections, ready, start, 0, n);
    }
}

proof fn lemma_least_taker<S>(
    connections: Seq<Http2Connection<S>>,
    ready: Seq<bool>,
    start: int,
    k: int,
) -> (least: int)
    requires
        0 <= k < connections.len(),
        takes(connections, ready, start, k),
    ensures
        0 <= least <= k,
        takes(connections, ready, start, least),
        forall|j: int| 0 <= j < least ==> !#[trigger] takes(connections, ready, start, j),
    decreases k,
{
    if forall|j: int| 0 <= j < k ==> !#[trigger] takes(connections, ready, start, j) {
        k
    } else {
        let j = choose|j: int| 0 <= j < k && #[trigger] takes(connections, ready, start, j);
        lemma_least_taker(connections, ready, start, j)
    }
}

/// The connections that are kept are exactly those that are not broken, in their order, and each
/// keeps its own readiness.
pub proof fn lemma_kept_connections<S>(connections: Seq<Http2Connection<S>>, ready: Seq<bool>)
    requires
        ready.len() == connections.len(),
    ensures
        unbroken(connections) == connections.filter(
            |c: Http2Connection<S>| c.state != ConnectionState::Failed,
        ),
        unbroken_ready(connections, ready).len() == unbroken(connections).len(),
        unbroken(connections).zip_with(unbroken_ready(connections, ready)) == connections.zip_with(
            ready,
        ).filter(|p: (Http2Connection<S>, bool)| p.0.state != ConnectionState::Failed),
    decreases connections.len(),
{
    reveal(Seq::filter);
    if connections.len() > 0 {
        let rest = connections.drop_last();
        let rest_ready = ready.drop_last();
        lemma_kept_connections(rest, rest_ready);
        let pairs = connections.zip_with(ready);
        assert(pairs == rest.zip_with(rest_ready).push((connections.last(), ready.last())));
        assert(pairs.drop_last() =~= rest.zip_with(rest_ready));
        if connections.last().state != ConnectionState::Failed {
            let kept = unbroken(connections);
            let kept_ready = unbroken_ready(connections, ready);
            assert(kept.drop_last() =~= unbroken(rest));
            assert(kept_ready.drop_last() =~= unbroken_ready(rest, rest_ready));
        }
    }
}

/// A pool after so many failures in a row.
pub open spec fn after_failures<S>(pool: Http2Pool<S>, n: nat) -> Http2Pool<S>
    decreases n,
{
    if n == 0 {
        pool
    } else {
        after_failures(pool, (n - 1) as nat).after_failure()
    }
}

/// A pool that was well is degraded, with half its connections, from the fifth failure in a row to
/// the ninth, and shut from the tenth on; before that nothing changes but what is counted.
pub proof fn lemma_failures_shut_pool<S>(pool: Http2Pool<S>, n: nat)
    requires
        pool.health_state == HealthState::Healthy,
        pool.consecutive_failures == 0,
        pool.max_connections > 0,
        n <= u32::MAX,
        pool.metrics.connections_failed + n <= u64::MAX,
    ensures
        ({
            let after = after_failures(pool, n);
            &&& after.consecutive_failures == n
            &&& after.metrics.connections_failed == pool.metrics.connections_failed + n
            &&& after.health_state == HealthState::Healthy <==> n < 5
            &&& after.health_state == HealthState::Degraded <==> 5 <= n < 10
            &&& after.health_state == HealthState::Unhealthy <==> 10 <= n
            &&& after.max_connections == if n < 5 {
                pool.max_connections as int
            } else {
                pool.max_connections as int / 2
            }
            &&& after.connections == pool.connections
            &&& after.last_success == pool.last_success
            &&& after.next_conn_index == pool.next_conn_index
        }),
    decreases n,
{
    if n > 0 {
        lemma_failures_shut_pool(pool, (n - 1) as nat);
    }
}

/// One failure, whatever came before it: it is counted; the tenth in a row and every one after it
/// shuts the pool; from the fifth on a healthy pool is degraded and keeps half its limit; nothing
/// else changes.
pub proof fn lemma_one_failure<S>(pool: Http2Pool<S>)
    requires
        pool.consecutive_failures < u32::MAX,
        pool.metrics.connections_failed < u64::MAX,
    ensures
        ({
            let after = pool.after_failure();
            let n = pool.consecutive_failures + 1;
            let was = pool.health_state;
            &&& after.consecutive_failures == n
            &&& after.metrics.connections_failed == pool.metrics.connections_failed + 1
            &&& after.metrics.connections_created == pool.metrics.connections_created
            &&& after.metrics.requests_total == pool.metrics.requests_total
            &&& after.metrics.requests_queued == pool.metrics.requests_queued
            &&& n >= 10 ==> after.health_state == HealthState::Unhealthy
            &&& n < 10 && was == HealthState::Healthy && n >= 5 ==> after.health_state
                == HealthState::Degraded
            &&& n < 10 && !(was == HealthState::Healthy && n >= 5) ==> after.health_state == was
            &&& was == HealthState::Healthy && n >= 5 && pool.max_connections > 0
                ==> after.max_connections == pool.max_connections as int / 2
            &&& !(was == HealthState::Healthy && n >= 5) ==> after.max_connections
                == pool.max_connections
            &&& after.connections == pool.connections
            &&& after.backend == pool.backend
            &&& after.last_success == pool.last_success
        }),
{
}

/// A pool that is not shut always serves, and one that is shut is tried again once more than thirty
/// seconds have passed since its last success, not before.
pub proof fn lemma_shut_pool_is_tried_again<S>(pool: Http2Pool<S>, now: u64)
    requires
        pool.last_success <= now,
    ensures
        pool.health_state != HealthState::Unhealthy ==> !pool.stays_shut(now),
        pool.health_state == HealthState::Unhealthy ==> (pool.stays_shut(now) <==> now
            - pool.last_success <= 30_000_000_000),
{
}

/// A connection that was opened takes requests at once: it comes last, is active and unused, and
/// carries as many streams as the pool lets it. It ends a run of failures and makes a degraded pool
/// well again.
pub proof fn lemma_opened_connection_serves<S>(
    before: Http2Pool<S>,
    after: Http2Pool<S>,
    sender: S,
    now: u64,
)
    requires
        before.gains(after, sender, now),
        before.metrics.connections_created < u64::MAX,
    ensures
        after.connections@.len() == before.connections@.len() + 1,
        after.connections@.drop_last() == before.connections@,
        ({
            let c = after.connections@.last();
            &&& c.sender == sender
            &&& c.state == ConnectionState::Active
            &&& c.active_streams == 0
            &&& c.total_requests == 0
            &&& c.consecutive_errors == 0
            &&& c.last_error is None
            &&& c.max_streams == before.max_streams_per_conn
            &&& c.created_at == now
            &&& c.last_used == now
        }),
        after.consecutive_failures == 0,
        after.last_success == now,
        after.metrics.connections_created == before.metrics.connections_created + 1,
        after.metrics.connections_failed == before.metrics.connections_failed,
        before.health_state == HealthState::Degraded ==> after.health_state
            == HealthState::Healthy,
        before.health_state != HealthState::Degraded ==> after.health_state == before.health_state,
{
    assert(after.connections@.drop_last() =~= before.connections@);
}

/// The errors of a pool have texts that tell them apart and hold the reason where there is one.
pub proof fn lemma_pool_errors_are_told(error: PoolError)
    ensures
        match error {
            PoolError::CircuitBreakerOpen => error.text() == "Circuit breaker is open"@,
            PoolError::ConnectionFailed(why) => error.text() == "Connection failed: "@ + why@,
            PoolError::HandshakeFailed(why) => error.text() == "HTTP/2 handshake failed: "@ + why@,
            PoolError::NoCapacity => error.text() == "No connections have capacity"@,
            PoolError::QueueTimeout => error.text() == "Queue timeout"@,
        },
{
}

/// Two backends share a pool exactly if they have the same address and port, whatever their weights.
pub proof fn lemma_pools_go_by_address(a: Backend, b: Backend)
    ensures
        backend_key(a) == backend_key(b) <==> address_of(a) == address_of(b) && a.port == b.port,
{
}

/// A new pool is well and empty, has counted nothing, and may open eight connections with five
/// hundred streams each; it belongs to its backend and its worker.
pub proof fn lemma_new_pool_has_room<S>(
    pool: Http2Pool<S>,
    backend: Backend,
    worker_id: usize,
    now: u64,
)
    requires
        pool.is_new(backend, worker_id, now),
    ensures
        pool.backend == backend,
        pool.worker_id == worker_id,
        pool.connections@.len() == 0,
        pool.max_connections == 8,
        pool.max_streams_per_conn == 500,
        pool.header_table_size == 8192,
        pool.health_state == HealthState::Healthy,
        pool.consecutive_failures == 0,
        pool.last_success == now,
        !pool.stays_shut(now),
        pool.metrics.requests_total == 0,
        pool.metrics.requests_queued == 0,
        pool.metrics.connections_created == 0,
        pool.metrics.connections_failed == 0,
{
}

} // verus!
