//! Route definitions in configuration form, and the fixed-size form that a packet filter reads.

use vstd::prelude::*;
use vstd::string::*;
use crate::backend::{
    ipv4_backend, unused_backend, Backend, BackendList, HttpMethod, RouteKey, MAX_BACKENDS,
};
use crate::hash::{fnv1a_hash, text_hash};

verus! {

/// A backend as configuration names it.
#[derive(Debug, Clone, Copy, PartialEq, Eq, Structural)]
pub struct BackendDef {
    /// IPv4 address, as a number in network order
    pub ip: u32,
    pub port: u16,
    /// Weight for load balancing
    pub weight: u16,
}

/// The weight of a backend that names none.
pub fn default_weight() -> (r: u16)
    ensures
        r == 100,
{
    100
}

/// A route as configuration names it.
#[derive(Debug, Clone)]
pub struct Route {
    pub method: HttpMethod,
    pub path: String,
    /// For virtual hosting
    pub host: Option<String>,
    pub backends: Vec<BackendDef>,
}

/// The backend of a definition.
pub open spec fn backend_of(def: BackendDef) -> Backend {
    ipv4_backend(def.ip, def.port, def.weight)
}

impl Route {
    /// The key and the backend list of this route. A list takes no more backends than it has room
    /// for; what is left over is unused.
    pub fn to_bpf_entry(&self) -> (r: (RouteKey, BackendList))
        ensures
            r.0 == (RouteKey { method: self.method, path_hash: text_hash(self.path@) }),
            r.1.count == if self.backends@.len() < MAX_BACKENDS {
                self.backends@.len()
            } else {
                MAX_BACKENDS as nat
            },
            forall|i: int|
                0 <= i < MAX_BACKENDS ==> (#[trigger] r.1.backends@[i]) == if i < r.1.count {
                    backend_of(self.backends@[i])
                } else {
                    unused_backend()
                },
    {
        let key = RouteKey {
            method: self.method,
            path_hash: fnv1a_hash(self.path.as_str().as_bytes()),
        };
        let mut list = BackendList::empty();
        let mut i: usize = 0;
        while i < self.backends.len() && i < MAX_BACKENDS
            invariant
                i <= self.backends.len(),
                i <= MAX_BACKENDS,
                forall|j: int|
                    0 <= j < MAX_BACKENDS ==> (#[trigger] list.backends@[j]) == if j < i {
                        backend_of(self.backends@[j])
                    } else {
                        unused_backend()
                    },
            decreases MAX_BACKENDS - i,
        {
            let def = self.backends[i];
            list.backends[i] = Backend::new(def.ip, def.port, def.weight);
            i += 1;
        }
        list.count = i as u32;
        (key, list)
    }
}

/// A definition stands for the backend at its own address and port, with its own weight, and a
/// fixed-size list has room for thirty-two of them.
pub proof fn lemma_definition_is_backend(def: BackendDef)
    ensures
        crate::backend::address_of(backend_of(def)) == crate::address::Address::V4(def.ip),
        backend_of(def).port == def.port,
        backend_of(def).weight == def.weight,
        MAX_BACKENDS == 32,
{
}

} // verus!
