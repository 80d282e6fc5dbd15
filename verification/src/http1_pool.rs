//! Idle HTTP/1.1 connections, kept for reuse.

use vstd::prelude::*;
use vstd::string::*;
use crate::table::{lemma_updated_map, Table};
use crate::time::{elapsed, time_since, SECOND};

verus! {

/// How many idle connections are kept per backend, and how long, in nanoseconds.
#[derive(Debug, Clone, Copy, PartialEq, Eq, Structural)]
pub struct Http1PoolConfig {
    pub max_idle_per_backend: usize,
    pub idle_timeout: u64,
}

impl Default for Http1PoolConfig {
    /// Sixteen connections per backend, for a minute.
    fn default() -> (r: Self)
        ensures
            r == (Http1PoolConfig { max_idle_per_backend: 16, idle_timeout: (60 * SECOND) as u64 }),
    {
        Http1PoolConfig { max_idle_per_backend: 16, idle_timeout: 60 * SECOND }
    }
}

/// An idle connection.
pub struct PooledConnection<S> {
    pub sender: S,
    pub created_at: u64,
    pub last_used: u64,
}

/// What is known of a backend's idle connections.
#[derive(Debug, Clone, Copy, PartialEq, Eq, Structural)]
pub struct PoolStats {
    pub idle_connections: usize,
    pub max_idle: usize,
}

/// The idle connections, by backend address.
pub struct Http1Pool<S> {
    config: Http1PoolConfig,
    pools: Table<String, Vec<PooledConnection<S>>>,
}

/// The sum of the lengths of sequences.
pub open spec fn total_len<A>(pools: Seq<Vec<A>>) -> nat
    decreases pools.len(),
{
    if pools.len() == 0 {
        0
    } else {
        total_len(pools.drop_last()) + pools.last()@.len()
    }
}

proof fn lemma_total_len_take<A>(pools: Seq<Vec<A>>, i: int)
    requires
        0 <= i <= pools.len(),
    ensures
        total_len(pools.take(i)) <= total_len(pools),
    decreases pools.len(),
{
    if i == pools.len() {
        assert(pools.take(i) =~= pools);
    } else {
        lemma_total_len_take(pools.drop_last(), i);
        assert(pools.drop_last().take(i) =~= pools.take(i));
    }
}

proof fn lemma_total_len_update<A>(pools: Seq<Vec<A>>, i: int, pool: Vec<A>)
    requires
        0 <= i < pools.len(),
    ensures
        total_len(pools.update(i, pool)) == total_len(pools) + pool@.len() - pools[i]@.len(),
    decreases pools.len(),
{
    let after = pools.update(i, pool);
    if i == pools.len() - 1 {
        assert(after.drop_last() =~= pools.drop_last());
    } else {
        lemma_total_len_update(pools.drop_last(), i, pool);
        assert(after.drop_last() =~= pools.drop_last().update(i, pool));
    }
}

impl<S> Http1Pool<S> {
    /// The idle connections of a backend, the most recently used last.
    pub closed spec fn idle(&self, backend: Seq<char>) -> Seq<PooledConnection<S>> {
        if self.pools.map().contains_key(backend) {
            self.pools.map()[backend]@
        } else {
            Seq::empty()
        }
    }

    /// The number of all idle connections.
    pub closed spec fn idle_total(&self) -> nat {
        total_len(self.pools.values())
    }

    /// The limits.
    pub closed spec fn limits(&self) -> Http1PoolConfig {
        self.config
    }

    /// No backend keeps more connections than is allowed.
    pub closed spec fn wf(&self) -> bool {
        &&& self.pools.wf()
        &&& forall|b: Seq<char>| (#[trigger] self.idle(b)).len() <= self.limits().max_idle_per_backend
    }

    /// The limits.
    pub fn config(&self) -> (r: Http1PoolConfig)
        ensures
            r == self.limits(),
    {
        self.config
    }

    /// An empty pool with the usual limits.
    pub fn new() -> (r: Self)
        ensures
            r.wf(),
            r.limits() == (Http1PoolConfig {
                max_idle_per_backend: 16,
                idle_timeout: (60 * SECOND) as u64,
            }),
            forall|b: Seq<char>| #[trigger] r.idle(b) == Seq::<PooledConnection<S>>::empty(),
            r.idle_total() == 0,
    {
        Self::with_config(Http1PoolConfig::default())
    }

    /// An empty pool.
    pub fn with_config(config: Http1PoolConfig) -> (r: Self)
        ensures
            r.wf(),
            r.limits() == config,
            forall|b: Seq<char>| #[trigger] r.idle(b) == Seq::<PooledConnection<S>>::empty(),
            r.idle_total() == 0,
    {
        let r = Http1Pool { config, pools: Table::new() };
        assert(r.pools.values().len() == 0);
        r
    }

    /// Takes the most recently used idle connection of a backend. One that was idle for too long
    /// is dropped, and none is given.
    pub fn try_get(&mut self, backend: &str, now: u64) -> (r: Option<S>)
        requires
            old(self).wf(),
        ensures
            final(self).wf(),
            final(self).limits() == old(self).limits(),
            forall|b: Seq<char>| b != backend@ ==> #[trigger] final(self).idle(b) == old(self).idle(b),
            ({
                let idle = old(self).idle(backend@);
                if idle.len() == 0 {
                    r is None && final(self).idle(backend@) == idle
                } else {
                    &&& final(self).idle(backend@) == idle.drop_last()
                    &&& r == if elapsed(idle.last().last_used, now) > old(self).limits().idle_timeout {
                        None
                    } else {
                        Some(idle.last().sender)
                    }
                }
            }),
            final(self).idle_total() == old(self).idle_total() + final(self).idle(backend@).len()
                - old(self).idle(backend@).len(),
    {
        match self.pools.find(backend) {
            None => None,
            Some(i) => {
                let ghost before = self.pools;
                assert(before.keys().index_of(backend@) == i) by {
                    assert(before.keys().no_duplicates());
                }
                let pool = self.pools.at_mut(i);
                let taken = pool.pop();
                proof {
                    let after = self.pools.values()[i as int];
                    lemma_updated_map(before, self.pools, i as int, after);
                    lemma_total_len_update(before.values(), i as int, after);
                    assert forall|b: Seq<char>| (#[trigger] self.idle(b)).len()
                        <= self.limits().max_idle_per_backend by {
                        assert(old(self).idle(b).len() <= self.limits().max_idle_per_backend);
                    }
                }
                match taken {
                    None => None,
                    Some(conn) => {
                        if time_since(conn.last_used, now) > self.config.idle_timeout {
                            None
                        } else {
                            Some(conn.sender)
                        }
                    },
                }
            },
        }
    }

    /// Keeps a connection for reuse, unless its backend has enough of them.
    pub fn put(&mut self, backend: &str, sender: S, now: u64)
        requires
            old(self).wf(),
        ensures
            final(self).wf(),
            final(self).limits() == old(self).limits(),
            forall|b: Seq<char>| b != backend@ ==> #[trigger] final(self).idle(b) == old(self).idle(b),
            final(self).idle(backend@) == if old(self).idle(backend@).len()
                >= old(self).limits().max_idle_per_backend {
                old(self).idle(backend@)
            } else {
                old(self).idle(backend@).push(PooledConnection { sender, created_at: now, last_used: now })
            },
            final(self).idle_total() == old(self).idle_total() + final(self).idle(backend@).len()
                - old(self).idle(backend@).len(),
    {
        let found = self.pools.find(backend);
        let at: usize = match found {
            Some(i) => i,
            None => {
                let n: usize = self.pools.len();
                self.pools.insert(backend, Vec::new());
                n
            },
        };
        let ghost before = self.pools;
        assert(total_len(before.values()) == total_len(old(self).pools.values())) by {
            if found is None {
                assert(before.values().drop_last() =~= old(self).pools.values());
            }
        }
        assert(before.keys()[at as int] == backend@);
        assert(before.keys().contains(backend@));
        assert(before.keys().index_of(backend@) == at) by {
            assert(before.keys().no_duplicates());
        }
        assert forall|b: Seq<char>| b != backend@ implies #[trigger] self.idle(b) == old(self).idle(b) by {}
        assert(self.idle(backend@) =~= old(self).idle(backend@));
        let pool = self.pools.at_mut(at);
        if pool.len() < self.config.max_idle_per_backend {
            pool.push(PooledConnection { sender, created_at: now, last_used: now });
        }
        proof {
            let after = self.pools.values()[at as int];
            lemma_updated_map(before, self.pools, at as int, after);
            lemma_total_len_update(before.values(), at as int, after);
            assert forall|b: Seq<char>| (#[trigger] self.idle(b)).len()
                <= self.limits().max_idle_per_backend by {
                assert(old(self).idle(b).len() <= self.limits().max_idle_per_backend);
            }
        }
    }

    /// How many idle connections a backend has.
    pub fn stats(&self, backend: &str) -> (r: PoolStats)
        requires
            self.wf(),
        ensures
            r.idle_connections == self.idle(backend@).len(),
            r.max_idle == self.limits().max_idle_per_backend,
    {
        let idle: usize = match self.pools.get(backend) {
            Some(pool) => pool.len(),
            None => 0,
        };
        PoolStats { idle_connections: idle, max_idle: self.config.max_idle_per_backend }
    }

    /// How many idle connections there are.
    pub fn total_idle(&self) -> (r: usize)
        requires
            self.wf(),
            self.idle_total() <= usize::MAX,
        ensures
            r == self.idle_total(),
    {
        let mut total: usize = 0;
        let mut i: usize = 0;
        let ghost pools = self.pools.values();
        while i < self.pools.len()
            invariant
                i <= self.pools.values().len(),
                pools == self.pools.values(),
                self.pools.values().len() == self.pools.keys().len(),
                total_len(pools) <= usize::MAX,
                total == total_len(pools.take(i as int)),
            decreases self.pools.values().len() - i,
        {
            proof {
                lemma_total_len_take(pools, i as int + 1);
                assert(pools.take(i as int + 1).drop_last() =~= pools.take(i as int));
            }
            total = total + self.pools.at(i).len();
            i += 1;
        }
        assert(pools.take(i as int) =~= pools);
        total
    }
}

/// No backend ever has more idle connections than the pool allows.
pub proof fn lemma_idle_is_bounded<S>(pool: Http1Pool<S>, backend: Seq<char>)
    requires
        pool.wf(),
    ensures
        pool.idle(backend).len() <= pool.limits().max_idle_per_backend,
{
}

impl<S> Default for Http1Pool<S> {
    fn default() -> (r: Self)
        ensures
            r.wf(),
            r.limits() == (Http1PoolConfig {
                max_idle_per_backend: 16,
                idle_timeout: (60 * SECOND) as u64,
            }),
            forall|b: Seq<char>| #[trigger] r.idle(b) == Seq::<PooledConnection<S>>::empty(),
            r.idle_total() == 0,
    {
        Http1Pool::new()
    }
}

} // verus!
