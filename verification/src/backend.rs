//! Shared vocabulary: HTTP methods, backends and route keys.

use vstd::prelude::*;
use vstd::string::*;
use crate::address::{address_string, address_text, Address};

verus! {

/// The most backends that one fixed-size backend list holds.
pub const MAX_BACKENDS: usize = 32;

/// HTTP request methods that the gateway routes on.
#[derive(Debug, Clone, Copy, PartialEq, Eq, Hash, Structural)]
pub enum HttpMethod {
    GET,
    POST,
    PUT,
    DELETE,
    HEAD,
    OPTIONS,
    PATCH,
    ALL,
}

/// What kind of address a backend has.
#[derive(Debug, Clone, Copy, PartialEq, Eq, Hash, Structural)]
pub enum AddressKind {
    /// IPv4: the number in the backend itself
    V4,
    /// IPv6, as a number in network order
    V6(u128),
    /// Neither
    Unknown,
}

/// An upstream server: its address, port and load-balancing weight. The IPv4 address is a number in
/// network order, and 0 where the backend has an address of another kind.
#[derive(Debug, Clone, Copy, PartialEq, Eq, Hash, Structural)]
pub struct Backend {
    pub ipv4: u32,
    pub port: u16,
    pub weight: u16,
    pub kind: AddressKind,
}

/// The address of a backend.
pub open spec fn address_of(backend: Backend) -> Address {
    match backend.kind {
        AddressKind::V4 => Address::V4(backend.ipv4),
        AddressKind::V6(ip) => Address::V6(ip),
        AddressKind::Unknown => Address::Unknown,
    }
}

/// The backend at an IPv4 address.
pub open spec fn ipv4_backend(ipv4: u32, port: u16, weight: u16) -> Backend {
    Backend { ipv4, port, weight, kind: AddressKind::V4 }
}

/// The `address:port` text of a backend.
pub open spec fn socket_text(backend: Backend) -> Seq<char> {
    address_text(address_of(backend), backend.port)
}

impl Backend {
    /// A backend at an IPv4 address.
    pub fn new(ipv4: u32, port: u16, weight: u16) -> (r: Backend)
        ensures
            r == ipv4_backend(ipv4, port, weight),
    {
        Backend { ipv4, port, weight, kind: AddressKind::V4 }
    }

    /// A backend at an IPv6 address.
    pub fn from_ipv6(ipv6: u128, port: u16, weight: u16) -> (r: Backend)
        ensures
            r == (Backend { ipv4: 0, port, weight, kind: AddressKind::V6(ipv6) }),
    {
        Backend { ipv4: 0, port, weight, kind: AddressKind::V6(ipv6) }
    }

    /// The address of this backend.
    pub fn address(&self) -> (r: Address)
        ensures
            r == address_of(*self),
    {
        match self.kind {
            AddressKind::V4 => Address::V4(self.ipv4),
            AddressKind::V6(ip) => Address::V6(ip),
            AddressKind::Unknown => Address::Unknown,
        }
    }

    /// The `address:port` text of this backend, by which it is known in caches and metrics.
    pub fn socket_addr(&self) -> (r: String)
        ensures
            r@ == socket_text(*self),
    {
        address_string(self.address(), self.port)
    }
}

/// The key under which a route is stored: method and path hash.
#[derive(Debug, Clone, Copy, PartialEq, Eq, Hash, Structural)]
pub struct RouteKey {
    pub method: HttpMethod,
    pub path_hash: u64,
}

impl RouteKey {
    /// The key of a method and a path hash.
    pub fn new(method: HttpMethod, path_hash: u64) -> (r: RouteKey)
        ensures
            r == (RouteKey { method, path_hash }),
    {
        RouteKey { method, path_hash }
    }
}

/// A fixed-size backend list: the first `count` entries are in use.
#[derive(Debug, Clone, Copy)]
pub struct BackendList {
    pub backends: [Backend; MAX_BACKENDS],
    pub count: u32,
}

/// The backend that stands in an unused entry of a fixed-size list.
pub open spec fn unused_backend() -> Backend {
    ipv4_backend(0, 0, 0)
}

impl BackendList {
    /// A list with no entry in use.
    pub fn empty() -> (r: BackendList)
        ensures
            r.count == 0,
            forall|i: int| 0 <= i < MAX_BACKENDS ==> r.backends@[i] == unused_backend(),
    {
        BackendList {
            backends: [Backend { ipv4: 0, port: 0, weight: 0, kind: AddressKind::V4 }; MAX_BACKENDS],
            count: 0,
        }
    }
}

/// A backend is where it was put: its address is the one that it was made with, and the text by which
/// it is known is that of its address and port.
pub proof fn lemma_backend_is_at_its_address(ipv4: u32, ipv6: u128, port: u16, weight: u16)
    ensures
        ({
            let b = ipv4_backend(ipv4, port, weight);
            &&& address_of(b) == Address::V4(ipv4)
            &&& b.port == port
            &&& b.weight == weight
            &&& socket_text(b) == address_text(Address::V4(ipv4), port)
        }),
        ({
            let b = Backend { ipv4: 0, port, weight, kind: AddressKind::V6(ipv6) };
            &&& address_of(b) == Address::V6(ipv6)
            &&& socket_text(b) == address_text(Address::V6(ipv6), port)
        }),
        unused_backend() == ipv4_backend(0, 0, 0),
{
}

} // verus!
