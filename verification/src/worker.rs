//! Workers, each with connection pools of its own.

use vstd::prelude::*;
use crate::http2_pool::{BackendConnectionPools, BackendKey, Http2Pool};

verus! {

/// A worker.
pub struct Worker<S> {
    id: usize,
    pools: BackendConnectionPools<S>,
}

impl<S> Worker<S> {
    /// The number of this worker.
    pub closed spec fn number(&self) -> usize {
        self.id
    }

    /// The pools of this worker.
    pub closed spec fn pools(&self) -> BackendConnectionPools<S> {
        self.pools
    }

    /// The pools are this worker's own.
    pub open spec fn wf(&self) -> bool {
        self.pools().wf() && self.pools().worker() == self.number()
    }

    /// A worker without connections.
    pub fn new(id: usize) -> (r: Self)
        ensures
            r.wf(),
            r.number() == id,
            r.pools().pools() == Map::<BackendKey, Http2Pool<S>>::empty(),
    {
        Worker { id, pools: BackendConnectionPools::new(id) }
    }

    /// The number of this worker.
    pub fn id(&self) -> (r: usize)
        ensures
            r == self.number(),
    {
        self.id
    }

    /// The pools of this worker, to take a connection from.
    pub fn pools_mut(&mut self) -> (r: &mut BackendConnectionPools<S>)
        ensures
            *r == old(self).pools(),
            final(self).pools() == *final(r),
            final(self).number() == old(self).number(),
    {
        &mut self.pools
    }
}

/// Workers numbered from zero.
pub fn new_workers<S>(num_workers: usize) -> (r: Vec<Worker<S>>)
    ensures
        r@.len() == num_workers,
        forall|i: int|
            0 <= i < num_workers ==> {
                &&& (#[trigger] r@[i]).wf()
                &&& r@[i].number() == i
                &&& r@[i].pools().pools() == Map::<BackendKey, Http2Pool<S>>::empty()
            },
{
    let mut workers: Vec<Worker<S>> = Vec::new();
    let mut id: usize = 0;
    while id < num_workers
        invariant
            id <= num_workers,
            workers@.len() == id,
            forall|i: int|
                0 <= i < id ==> {
                    &&& (#[trigger] workers@[i]).wf()
                    &&& workers@[i].number() == i
                    &&& workers@[i].pools().pools() == Map::<BackendKey, Http2Pool<S>>::empty()
                },
        decreases num_workers - id,
    {
        workers.push(Worker::new(id));
        id += 1;
    }
    workers
}

} // verus!
