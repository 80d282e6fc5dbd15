//! Listeners: which ports are open for which gateways, and what becomes of a request that arrives
//! on one of them.

use vstd::prelude::*;
use vstd::string::*;
use crate::address::{host_string, host_text, Address};
use crate::backend::{address_of, socket_text, Backend};
use crate::circuit_breaker::CircuitBreakerManager;
use crate::forwarder::{backend_uri, forward_uri};
use crate::headers::{header_text, header_values, read_header};
use crate::matching::texts;
use crate::protocol::{host_port, host_port_key, HttpProtocol, ProtocolCache};
use crate::rate_limiter::RateLimiter;
use crate::request_handler::{
    known_method, parse_method, plain_reply, AnsweredBy, Reply, ReplyView, RequestHead,
};
use crate::router::{RouteMatch, Router};
use crate::table::{lemma_updated_map, Table};
use crate::text::{decimal, decimal_text, lower_text, text_eq};

verus! {

/// What a listener speaks.
#[derive(Debug, Clone, Copy, PartialEq, Eq, Hash, Structural)]
pub enum Protocol {
    HTTP,
    HTTPS,
}

/// The text of a protocol.
pub open spec fn protocol_text(protocol: Protocol) -> Seq<char> {
    match protocol {
        Protocol::HTTP => "HTTP"@,
        Protocol::HTTPS => "HTTPS"@,
    }
}

/// The text of a protocol.
pub fn protocol_to_str(protocol: Protocol) -> (r: &'static str)
    ensures
        r@ == protocol_text(protocol),
{
    match protocol {
        Protocol::HTTP => "HTTP",
        Protocol::HTTPS => "HTTPS",
    }
}

/// A gateway's use of a listener.
#[derive(Debug, Clone, PartialEq, Eq, Hash)]
pub struct GatewayRef {
    pub namespace: String,
    pub name: String,
    pub listener_name: String,
    pub hostname: Option<String>,
}

/// A gateway's use of a listener over plain texts.
pub ghost struct GatewayView {
    pub namespace: Seq<char>,
    pub name: Seq<char>,
    pub listener_name: Seq<char>,
    pub hostname: Option<Seq<char>>,
}

impl View for GatewayRef {
    type V = GatewayView;

    open spec fn view(&self) -> GatewayView {
        GatewayView {
            namespace: self.namespace@,
            name: self.name@,
            listener_name: self.listener_name@,
            hostname: match self.hostname {
                Some(h) => Some(h@),
                None => None,
            },
        }
    }
}

/// The identifier of a gateway's use of a listener.
pub open spec fn gateway_id(g: GatewayView) -> Seq<char> {
    g.namespace + "/"@ + g.name + "/"@ + g.listener_name
}

impl GatewayRef {
    /// The identifier of this use: `namespace/name/listener`.
    pub fn id(&self) -> (r: String)
        ensures
            r@ == gateway_id(self@),
    {
        let mut s = self.namespace.clone();
        s.append("/");
        s.append(self.name.as_str());
        s.append("/");
        s.append(self.listener_name.as_str());
        s
    }

    /// Whether this is the same use as another.
    pub fn same(&self, other: &GatewayRef) -> (r: bool)
        ensures
            r == (self@ == other@),
    {
        let hosts: bool = match (&self.hostname, &other.hostname) {
            (Some(a), Some(b)) => text_eq(a.as_str(), b.as_str()),
            (None, None) => true,
            _ => false,
        };
        hosts && text_eq(self.namespace.as_str(), other.namespace.as_str()) && text_eq(
            self.name.as_str(),
            other.name.as_str(),
        ) && text_eq(self.listener_name.as_str(), other.listener_name.as_str())
    }
}

/// What a listener is asked to be.
#[derive(Debug, Clone, Copy, PartialEq, Eq, Hash, Structural)]
pub struct ListenerConfig {
    pub port: u16,
    pub protocol: Protocol,
}

/// The address that a listener binds to.
pub open spec fn bind_text(port: u16) -> Seq<char> {
    "0.0.0.0:"@ + decimal(port as nat)
}

impl ListenerConfig {
    /// The address to bind to: the port, on all addresses.
    pub fn bind_addr(&self) -> (r: String)
        ensures
            r@ == bind_text(self.port),
    {
        let mut s = "0.0.0.0:".to_owned();
        let port = decimal_text(self.port as u64);
        s.append(port.as_str());
        s
    }
}

/// An open listener and the gateways that use it, in the order in which they came.
pub struct ActiveListener {
    pub config: ListenerConfig,
    pub gateways: Vec<GatewayRef>,
}

impl ActiveListener {
    /// The gateways over plain texts.
    pub open spec fn users(&self) -> Seq<GatewayView> {
        Seq::new(self.gateways@.len(), |i: int| self.gateways@[i]@)
    }

    /// The position of a gateway.
    fn find(&self, gateway: &GatewayRef) -> (r: Option<usize>)
        ensures
            match r {
                Some(i) => i < self.users().len() && self.users()[i as int] == gateway@,
                None => !self.users().contains(gateway@),
            },
    {
        let mut i: usize = 0;
        while i < self.gateways.len()
            invariant
                i <= self.gateways.len(),
                forall|j: int| 0 <= j < i ==> self.users()[j] != gateway@,
            decreases self.gateways.len() - i,
        {
            if self.gateways[i].same(gateway) {
                return Some(i);
            }
            assert(self.users()[i as int] != gateway@);
            i += 1;
        }
        None
    }
}

/// What registering a gateway asks for.
pub enum RegisterStep {
    /// The gateway is registered
    Registered,
    /// The gateway is refused, for this reason
    Refused(String),
    /// The port is not open yet: bind to this address, then finish the registration
    Bind(String),
}

/// The open listeners, by port.
pub struct ListenerManager {
    listeners: Table<u16, ActiveListener>,
    has_tls: bool,
}

/// The text of a protocol conflict.
pub open spec fn mismatch_text(port: u16, bound: Protocol, asked: Protocol) -> Seq<char> {
    "Port "@ + decimal(port as nat) + " already bound with protocol "@ + protocol_text(bound)
        + ", cannot bind with "@ + protocol_text(asked)
}

/// The users of a listener after one more came: one that is there already is not taken twice.
pub open spec fn with_user(users: Seq<GatewayView>, g: GatewayView) -> Seq<GatewayView> {
    if users.contains(g) {
        users
    } else {
        users.push(g)
    }
}

impl ListenerManager {
    /// The open listeners.
    pub closed spec fn listeners(&self) -> Map<u16, ActiveListener> {
        self.listeners.map()
    }

    /// The ports of the open listeners, in the order in which they were opened.
    pub closed spec fn ports(&self) -> Seq<u16> {
        self.listeners.keys()
    }

    /// The ports are those of the open listeners, each once.
    pub open spec fn ports_match(&self) -> bool {
        &&& self.ports().no_duplicates()
        &&& forall|p: u16| #[trigger] self.ports().contains(p) <==> self.listeners().contains_key(p)
    }

    /// Whether TLS is set up.
    pub closed spec fn tls(&self) -> bool {
        self.has_tls
    }

    /// Every listener is used, by no gateway twice, and is on the port it is known by.
    pub closed spec fn wf(&self) -> bool {
        &&& self.listeners.wf()
        &&& forall|p: u16| #[trigger]
            self.listeners().contains_key(p) ==> {
                &&& self.listeners()[p].config.port == p
                &&& self.listeners()[p].users().len() > 0
                &&& self.listeners()[p].users().no_duplicates()
            }
    }

    /// No listener yet; HTTPS listeners need TLS to be set up.
    pub fn new(has_tls: bool) -> (r: Self)
        ensures
            r.wf(),
            r.listeners() == Map::<u16, ActiveListener>::empty(),
            r.ports() == Seq::<u16>::empty(),
            r.tls() == has_tls,
            r.ports_match(),
    {
        ListenerManager { listeners: Table::new(), has_tls }
    }

    /// Registers a gateway with a port. An open listener takes it in, if the protocol is its own;
    /// otherwise the port must be bound first, which for HTTPS takes TLS.
    pub fn register_gateway(&mut self, config: ListenerConfig, gateway: GatewayRef) -> (r:
        RegisterStep)
        requires
            old(self).wf(),
        ensures
            final(self).wf(),
            final(self).ports_match(),
            final(self).tls() == old(self).tls(),
            final(self).ports() == old(self).ports(),
            if old(self).listeners().contains_key(config.port) {
                let listener = old(self).listeners()[config.port];
                if listener.config.protocol != config.protocol {
                    &&& *final(self) == *old(self)
                    &&& r is Refused
                    &&& r->Refused_0@ == mismatch_text(
                        config.port,
                        listener.config.protocol,
                        config.protocol,
                    )
                } else {
                    &&& r is Registered
                    &&& final(self).listeners().dom() == old(self).listeners().dom()
                    &&& final(self).listeners()[config.port].config == listener.config
                    &&& final(self).listeners()[config.port].users() == with_user(
                        listener.users(),
                        gateway@,
                    )
                    &&& forall|p: u16|
                        p != config.port && old(self).listeners().contains_key(p) ==> (
                        #[trigger] final(self).listeners()[p]) == old(self).listeners()[p]
                }
            } else {
                &&& *final(self) == *old(self)
                &&& if config.protocol == Protocol::HTTPS && !old(self).tls() {
                    r is Refused && r->Refused_0@
                        == "HTTPS listener requires TLS configuration. Use ListenerManager::with_tls()"@
                } else {
                    r is Bind && r->Bind_0@ == bind_text(config.port)
                }
            },
    {
        match self.listeners.find(&config.port) {
            Some(i) => {
                assert(self.listeners.keys().contains(config.port));
                assert(self.listeners.keys().index_of(config.port) == i) by {
                    assert(self.listeners.keys().no_duplicates());
                }
                assert(self.listeners().contains_key(config.port));
                let bound = self.listeners.at(i).config.protocol;
                if bound != config.protocol {
                    return RegisterStep::Refused(
                        mismatch_error(config.port, bound, config.protocol),
                    );
                }
                let ghost before = self.listeners;
                let ghost listener = self.listeners.values()[i as int];
                match self.listeners.at(i).find(&gateway) {
                    Some(_) => {},
                    None => {
                        let active = self.listeners.at_mut(i);
                        active.gateways.push(gateway);
                        assert(active.users() =~= listener.users().push(gateway@));
                    },
                }
                proof {
                    let now = self.listeners.values()[i as int];
                    assert(self.listeners.values() =~= before.values().update(i as int, now));
                    lemma_updated_map(before, self.listeners, i as int, now);
                    assert(now.users() == with_user(listener.users(), gateway@));
                    assert(now.users().no_duplicates());
                    assert(self.listeners().dom() =~= old(self).listeners().dom());
                    assert forall|p: u16| #[trigger] self.listeners().contains_key(p) implies {
                        &&& self.listeners()[p].config.port == p
                        &&& self.listeners()[p].users().len() > 0
                        &&& self.listeners()[p].users().no_duplicates()
                    } by {
                        assert(old(self).listeners().contains_key(p));
                    }
                }
                RegisterStep::Registered
            },
            None => {
                if config.protocol == Protocol::HTTPS && !self.has_tls {
                    RegisterStep::Refused(
                        "HTTPS listener requires TLS configuration. Use ListenerManager::with_tls()".to_owned(),
                    )
                } else {
                    RegisterStep::Bind(config.bind_addr())
                }
            },
        }
    }

    /// Finishes the registration of a gateway with a port that was not open: with the listener
    /// that was bound, or with the error.
    pub fn finish_registration(
        &mut self,
        config: ListenerConfig,
        gateway: GatewayRef,
        bound: Result<(), String>,
    ) -> (r: Result<(), String>)
        requires
            old(self).wf(),
            !old(self).listeners().contains_key(config.port),
        ensures
            final(self).wf(),
            final(self).ports_match(),
            final(self).tls() == old(self).tls(),
            match bound {
                Ok(_) => {
                    &&& r is Ok
                    &&& final(self).ports() == old(self).ports().push(config.port)
                    &&& final(self).listeners().dom() == old(self).listeners().dom().insert(
                        config.port,
                    )
                    &&& final(self).listeners()[config.port].config == config
                    &&& final(self).listeners()[config.port].users() == seq![gateway@]
                    &&& forall|p: u16|
                        p != config.port && old(self).listeners().contains_key(p) ==> (
                        #[trigger] final(self).listeners()[p]) == old(self).listeners()[p]
                },
                Err(why) => {
                    &&& *final(self) == *old(self)
                    &&& r is Err
                    &&& r->Err_0@ == "Failed to bind to "@ + bind_text(config.port) + ": "@ + why@
                },
            },
    {
        match bound {
            Ok(_) => {
                let mut gateways: Vec<GatewayRef> = Vec::new();
                gateways.push(gateway);
                let active = ActiveListener { config, gateways };
                assert(active.users() =~= seq![gateway@]);
                self.listeners.insert(&config.port, active);
                proof {
                    assert(!old(self).listeners.keys().contains(config.port)) by {
                        if old(self).listeners.keys().contains(config.port) {
                            assert(old(self).listeners().contains_key(config.port));
                        }
                    }
                    assert(self.listeners().dom() =~= old(self).listeners().dom().insert(
                        config.port,
                    ));
                    assert forall|p: u16| #[trigger] self.listeners().contains_key(p) implies {
                        &&& self.listeners()[p].config.port == p
                        &&& self.listeners()[p].users().len() > 0
                        &&& self.listeners()[p].users().no_duplicates()
                    } by {
                        if p != config.port {
                            assert(old(self).listeners().contains_key(p));
                        }
                    }
                }
                Ok(())
            },
            Err(why) => {
                let mut s = "Failed to bind to ".to_owned();
                let addr = config.bind_addr();
                s.append(addr.as_str());
                s.append(": ");
                s.append(why.as_str());
                Err(s)
            },
        }
    }

    /// Takes a gateway off a port. Whether its listener is to be shut, because no other gateway
    /// uses it.
    pub fn unregister_gateway(&mut self, port: u16, gateway: &GatewayRef) -> (r: Result<
        bool,
        String,
    >)
        requires
            old(self).wf(),
        ensures
            final(self).wf(),
            final(self).ports_match(),
            final(self).tls() == old(self).tls(),
            if !old(self).listeners().contains_key(port) {
                &&& *final(self) == *old(self)
                &&& r is Err
                &&& r->Err_0@ == "No listener on port "@ + decimal(port as nat)
            } else {
                let users = old(self).listeners()[port].users();
                if !users.contains(gateway@) {
                    &&& *final(self) == *old(self)
                    &&& r is Err
                    &&& r->Err_0@ == "Gateway "@ + gateway_id(gateway@) + " not registered on port "@
                        + decimal(port as nat)
                } else {
                    &&& r is Ok
                    &&& r->Ok_0 == (users.len() == 1)
                    &&& if users.len() == 1 {
                        &&& final(self).listeners() == old(self).listeners().remove(port)
                        &&& final(self).ports() == old(self).ports().remove(
                            old(self).ports().index_of(port),
                        )
                    } else {
                        &&& final(self).ports() == old(self).ports()
                        &&& final(self).listeners().dom() == old(self).listeners().dom()
                        &&& final(self).listeners()[port].config == old(self).listeners()[port].config
                        &&& final(self).listeners()[port].users() == users.remove(
                            users.index_of(gateway@),
                        )
                        &&& forall|p: u16|
                            p != port && old(self).listeners().contains_key(p) ==> (
                            #[trigger] final(self).listeners()[p]) == old(self).listeners()[p]
                    }
                }
            },
    {
        match self.listeners.find(&port) {
            None => {
                let mut s = "No listener on port ".to_owned();
                let digits = decimal_text(port as u64);
                s.append(digits.as_str());
                Err(s)
            },
            Some(i) => {
                assert(self.listeners.keys().index_of(port) == i) by {
                    assert(self.listeners.keys().no_duplicates());
                }
                assert(self.listeners().contains_key(port));
                let ghost before = self.listeners;
                let ghost listener = self.listeners.values()[i as int];
                match self.listeners.at(i).find(gateway) {
                    None => {
                        let mut s = "Gateway ".to_owned();
                        let id = gateway.id();
                        s.append(id.as_str());
                        s.append(" not registered on port ");
                        let digits = decimal_text(port as u64);
                        s.append(digits.as_str());
                        Err(s)
                    },
                    Some(k) => {
                        assert(listener.users().index_of(gateway@) == k) by {
                            assert(listener.users().no_duplicates());
                        }
                        let count: usize = self.listeners.at(i).gateways.len();
                        if count == 1 {
                            let _had = self.listeners.remove(&port);
                            assert forall|p: u16| #[trigger]
                                self.listeners().contains_key(p) implies {
                                &&& self.listeners()[p].config.port == p
                                &&& self.listeners()[p].users().len() > 0
                                &&& self.listeners()[p].users().no_duplicates()
                            } by {
                                assert(old(self).listeners().contains_key(p));
                            }
                            return Ok(true);
                        }
                        let active = self.listeners.at_mut(i);
                        let _gone = active.gateways.remove(k);
                        assert(active.users() =~= listener.users().remove(k as int));
                        proof {
                            let now = self.listeners.values()[i as int];
                            assert(self.listeners.values() =~= before.values().update(
                                i as int,
                                now,
                            ));
                            lemma_updated_map(before, self.listeners, i as int, now);
                            assert(now.users().no_duplicates()) by {
                                let u = listener.users();
                                let v = now.users();
                                assert forall|a: int, b: int|
                                    0 <= a < v.len() && 0 <= b < v.len() && a != b implies v[a]
                                    != v[b] by {
                                    let a2 = if a < k { a } else { a + 1 };
                                    let b2 = if b < k { b } else { b + 1 };
                                    assert(v[a] == u[a2] && v[b] == u[b2]);
                                }
                            }
                            assert(self.listeners().dom() =~= old(self).listeners().dom());
                            assert forall|p: u16| #[trigger]
                                self.listeners().contains_key(p) implies {
                                &&& self.listeners()[p].config.port == p
                                &&& self.listeners()[p].users().len() > 0
                                &&& self.listeners()[p].users().no_duplicates()
                            } by {
                                assert(old(self).listeners().contains_key(p));
                            }
                        }
                        Ok(false)
                    },
                }
            },
        }
    }

    /// The open listeners with the number of gateways that use each.
    pub fn list_listeners(&self) -> (r: Vec<(u16, Protocol, usize)>)
        requires
            self.wf(),
        ensures
            self.ports_match(),
            r@.len() == self.ports().len(),
            forall|i: int|
                0 <= i < r@.len() ==> {
                    let port = self.ports()[i];
                    &&& self.listeners().contains_key(port)
                    &&& (#[trigger] r@[i]) == (
                        port,
                        self.listeners()[port].config.protocol,
                        self.listeners()[port].users().len() as usize,
                    )
                },
    {
        let mut out: Vec<(u16, Protocol, usize)> = Vec::new();
        let mut i: usize = 0;
        while i < self.listeners.len()
            invariant
                self.wf(),
                i <= self.listeners.keys().len(),
                out@.len() == i,
                forall|j: int|
                    0 <= j < i ==> {
                        let port = self.ports()[j];
                        &&& self.listeners().contains_key(port)
                        &&& (#[trigger] out@[j]) == (
                            port,
                            self.listeners()[port].config.protocol,
                            self.listeners()[port].users().len() as usize,
                        )
                    },
            decreases self.listeners.keys().len() - i,
        {
            let port: u16 = *self.listeners.key_at(i);
            let active = self.listeners.at(i);
            assert(self.listeners.keys()[i as int] == port);
            assert(self.listeners.keys().contains(port));
            assert(self.listeners.keys().index_of(port) == i) by {
                assert(self.listeners.keys().no_duplicates());
            }
            assert(self.listeners()[port] == *active);
            out.push((port, active.config.protocol, active.gateways.len()));
            i += 1;
        }
        out
    }

    /// Shuts all listeners: the ports that were open.
    pub fn shutdown(&mut self) -> (r: Vec<u16>)
        requires
            old(self).wf(),
        ensures
            final(self).wf(),
            final(self).ports_match(),
            final(self).tls() == old(self).tls(),
            final(self).listeners() == Map::<u16, ActiveListener>::empty(),
            final(self).ports() == Seq::<u16>::empty(),
            r@ == old(self).ports(),
    {
        let mut out: Vec<u16> = Vec::new();
        let mut i: usize = 0;
        while i < self.listeners.len()
            invariant
                *self == *old(self),
                self.wf(),
                i <= self.listeners.keys().len(),
                out@ == self.listeners.keys().take(i as int),
            decreases self.listeners.keys().len() - i,
        {
            out.push(*self.listeners.key_at(i));
            assert(self.listeners.keys().take(i as int + 1) =~= self.listeners.keys().take(
                i as int,
            ).push(self.listeners.keys()[i as int]));
            i += 1;
        }
        assert(out@ =~= self.listeners.keys());
        self.listeners = Table::new();
        out
    }
}

/// Writes the text of a protocol conflict.
fn mismatch_error(port: u16, bound: Protocol, asked: Protocol) -> (r: String)
    ensures
        r@ == mismatch_text(port, bound, asked),
{
    let mut s = "Port ".to_owned();
    let digits = decimal_text(port as u64);
    s.append(digits.as_str());
    s.append(" already bound with protocol ");
    s.append(protocol_to_str(bound));
    s.append(", cannot bind with ");
    s.append(protocol_to_str(asked));
    s
}

/// How a request from a listener is forwarded.
pub struct ListenerPlan {
    pub backend: Backend,
    /// The backend's `address:port`, by which its breaker is known
    pub backend_id: String,
    pub uri: String,
    pub use_http2: bool,
}

/// What is done with a request from a listener.
pub enum ListenerDecision {
    Answer(Reply, AnsweredBy),
    Forward(ListenerPlan),
}

/// An answer without headers.
pub open spec fn plain(status: u16, body: Seq<char>) -> ReplyView {
    ReplyView { status, headers: Seq::empty(), body }
}

/// Whether a decision is a plain answer.
pub open spec fn answers(
    r: ListenerDecision,
    by: AnsweredBy,
    status: u16,
    body: Seq<char>,
) -> bool {
    r is Answer && r->Answer_1 == by && r->Answer_0@ == plain(status, body)
}

/// The host that a request asks for: that of its host header where it is visible text, else that
/// of its target.
pub open spec fn asked_host(head: &RequestHead) -> Seq<char> {
    match header_text(header_values(head.headers), "host"@) {
        Some(h) => h,
        None => match head.authority {
            Some(a) => a@,
            None => Seq::empty(),
        },
    }
}

/// The key under which listeners know what a backend speaks: the text of its address alone, and its
/// port.
pub open spec fn protocol_key(backend: Backend) -> Seq<char> {
    host_port(host_text(address_of(backend)), backend.port)
}

/// Whether a decision on a matched request from a listener is right: its route's limit, its
/// backend's breaker and a backend without a usable address may each end it.
pub open spec fn listener_admitted(
    m: RouteMatch,
    head: &RequestHead,
    cache: &ProtocolCache,
    now: u64,
    limiter: RateLimiter,
    limiter_after: RateLimiter,
    breakers: CircuitBreakerManager,
    breakers_after: CircuitBreakerManager,
    r: ListenerDecision,
) -> bool {
    let id = socket_text(m.backend);
    let permitted = limiter.permits(m.pattern@, now);
    &&& RateLimiter::checked(limiter, limiter_after, m.pattern@, now, permitted)
    &&& if !permitted {
        &&& breakers_after == breakers
        &&& answers(r, AnsweredBy::RateLimit, 429, "Too Many Requests"@)
    } else {
        &&& CircuitBreakerManager::changed_to(
            breakers,
            breakers_after,
            id,
            breakers.of(id).asked(now),
        )
        &&& if !breakers.of(id).allows(now) {
            answers(r, AnsweredBy::Breaker, 503, "Service Unavailable"@)
        } else if address_of(m.backend) == Address::Unknown {
            answers(r, AnsweredBy::Address, 500, "Internal Server Error"@)
        } else {
            &&& r is Forward
            &&& r->Forward_0.backend == m.backend
            &&& r->Forward_0.backend_id@ == id
            &&& r->Forward_0.uri@ == forward_uri(
                m.backend,
                match head.path_and_query {
                    Some(p) => Some(p@),
                    None => None,
                },
            )
            &&& r->Forward_0.use_http2 == (cache.of(protocol_key(m.backend)) == Some(
                HttpProtocol::Http2,
            ))
        }
    }
}

/// How a request from a listener ended at its backend.
#[derive(Debug, Clone, Copy, PartialEq, Eq, Structural)]
pub enum BackendOutcome {
    /// No connection, no handshake or no response
    Unreachable,
    /// A response with this status
    Responded(u16),
}

impl ListenerManager {
    /// Decides on a request from a listener. A request that names no host is bad, one with a
    /// method that the gateway does not know is not allowed, and one without route is not found.
    pub fn handle_request(
        head: &RequestHead,
        router: &Router,
        limiter: &mut RateLimiter,
        breakers: &mut CircuitBreakerManager,
        cache: &ProtocolCache,
        now: u64,
    ) -> (r: ListenerDecision)
        requires
            router.wf(),
            old(limiter).wf(),
            old(breakers).wf(),
            cache.wf(),
        ensures
            final(limiter).wf(),
            final(breakers).wf(),
            ({
                let host = asked_host(head);
                let unchanged = *final(limiter) == *old(limiter) && *final(breakers) == *old(breakers);
                if host.len() == 0 {
                    unchanged && answers(
                        r,
                        AnsweredBy::Routing,
                        400,
                        "Bad Request: Missing Host header or :authority"@,
                    )
                } else {
                    match known_method(head.method@) {
                        None => unchanged && answers(
                            r,
                            AnsweredBy::Routing,
                            405,
                            "Method Not Allowed"@,
                        ),
                        Some(method) => exists|m: Option<RouteMatch>| #[trigger]
                            router.header_selection(
                                method,
                                head.path@,
                                seq![("host"@, host)],
                                None,
                                None,
                                m,
                            ) && match m {
                                None => unchanged && answers(
                                    r,
                                    AnsweredBy::Routing,
                                    404,
                                    "Not Found"@,
                                ),
                                Some(found) => listener_admitted(
                                    found,
                                    head,
                                    cache,
                                    now,
                                    *old(limiter),
                                    *final(limiter),
                                    *old(breakers),
                                    *final(breakers),
                                    r,
                                ),
                            },
                    }
                }
            }),
    {
        proof {
            reveal_strlit("host");
            assert(lower_text("host"@) =~= "host"@);
        }
        let host: String = match read_header(&head.headers, "host") {
            Some(h) => h,
            None => match &head.authority {
                Some(a) => a.clone(),
                None => String::new(),
            },
        };
        if host.as_str().is_empty() {
            return ListenerDecision::Answer(
                plain_reply(400, "Bad Request: Missing Host header or :authority"),
                AnsweredBy::Routing,
            );
        }
        let method = match parse_method(head.method.as_str()) {
            Some(m) => m,
            None => {
                return ListenerDecision::Answer(
                    plain_reply(405, "Method Not Allowed"),
                    AnsweredBy::Routing,
                );
            },
        };
        let mut conditions: Vec<(&str, &str)> = Vec::new();
        conditions.push(("host", host.as_str()));
        assert(texts(conditions@) =~= seq![("host"@, host@)]);
        let selection = router.select_backend_with_headers(
            method,
            head.path.as_str(),
            conditions,
            None,
            None,
        );
        let ghost chosen = selection;
        assert(router.header_selection(
            method,
            head.path@,
            seq![("host"@, asked_host(head))],
            None,
            None,
            chosen,
        ));
        match selection {
            None => ListenerDecision::Answer(plain_reply(404, "Not Found"), AnsweredBy::Routing),
            Some(m) => Self::check_request(m, head, limiter, breakers, cache, now),
        }
    }

    /// Decides on a request from a listener whose route is known.
    pub fn check_request(
        m: RouteMatch,
        head: &RequestHead,
        limiter: &mut RateLimiter,
        breakers: &mut CircuitBreakerManager,
        cache: &ProtocolCache,
        now: u64,
    ) -> (r: ListenerDecision)
        requires
            old(limiter).wf(),
            old(breakers).wf(),
            cache.wf(),
        ensures
            final(limiter).wf(),
            final(breakers).wf(),
            listener_admitted(
                m,
                head,
                cache,
                now,
                *old(limiter),
                *final(limiter),
                *old(breakers),
                *final(breakers),
                r,
            ),
    {
        if !limiter.check_rate_limit(m.pattern.as_str(), now) {
            return ListenerDecision::Answer(
                plain_reply(429, "Too Many Requests"),
                AnsweredBy::RateLimit,
            );
        }
        let backend_id = m.backend.socket_addr();
        if !breakers.allow_request(backend_id.as_str(), now) {
            return ListenerDecision::Answer(
                plain_reply(503, "Service Unavailable"),
                AnsweredBy::Breaker,
            );
        }
        match m.backend.address() {
            Address::Unknown => {
                return ListenerDecision::Answer(
                    plain_reply(500, "Internal Server Error"),
                    AnsweredBy::Address,
                );
            },
            _ => {},
        }
        let uri = match &head.path_and_query {
            Some(p) => backend_uri(m.backend, Some(p.as_str())),
            None => backend_uri(m.backend, None),
        };
        let host = host_string(m.backend.address());
        let key = host_port_key(host.as_str(), m.backend.port);
        let use_http2: bool = match cache.get(key.as_str()) {
            Some(HttpProtocol::Http2) => true,
            _ => false,
        };
        ListenerDecision::Forward(ListenerPlan { backend: m.backend, backend_id, uri, use_http2 })
    }

    /// The answer to a request whose body cannot be read.
    pub fn build_unreadable_body_response() -> (r: Reply)
        ensures
            r@ == plain(400, "Bad Request: Failed to read body"@),
    {
        plain_reply(400, "Bad Request: Failed to read body")
    }

    /// The answer where a backend could not be reached.
    pub fn build_bad_gateway_response() -> (r: Reply)
        ensures
            r@ == plain(502, "Bad Gateway"@),
    {
        plain_reply(502, "Bad Gateway")
    }

    /// Records how a request ended at its backend: no response and server errors are failures. An
    /// answer where there is no response to hand back.
    pub fn record_outcome(
        breakers: &mut CircuitBreakerManager,
        backend_id: &str,
        outcome: BackendOutcome,
        now: u64,
    ) -> (r: Option<Reply>)
        requires
            old(breakers).wf(),
        ensures
            match outcome {
                BackendOutcome::Unreachable => {
                    &&& CircuitBreakerManager::changed_to(
                        *old(breakers),
                        *final(breakers),
                        backend_id@,
                        old(breakers).of(backend_id@).failed(now),
                    )
                    &&& r is Some
                    &&& r->0@ == plain(502, "Bad Gateway"@)
                },
                BackendOutcome::Responded(status) => {
                    &&& CircuitBreakerManager::changed_to(
                        *old(breakers),
                        *final(breakers),
                        backend_id@,
                        if 500 <= status <= 599 {
                            old(breakers).of(backend_id@).failed(now)
                        } else {
                            old(breakers).of(backend_id@).succeeded()
                        },
                    )
                    &&& r is None
                },
            },
    {
        match outcome {
            BackendOutcome::Unreachable => {
                breakers.record_failure(backend_id, now);
                Some(Self::build_bad_gateway_response())
            },
            BackendOutcome::Responded(status) => {
                if 500 <= status && status <= 599 {
                    breakers.record_failure(backend_id, now);
                } else {
                    breakers.record_success(backend_id);
                }
                None
            },
        }
    }
}

/// A backend that was marked as speaking HTTP/2, by the text of its address and its port, is
/// spoken to in HTTP/2 wherever a request of a listener is forwarded to it; what is known of other
/// backends does not change.
pub proof fn lemma_marked_backend_gets_http2(
    m: RouteMatch,
    head: &RequestHead,
    before: ProtocolCache,
    cache: &ProtocolCache,
    now: u64,
    limiter: RateLimiter,
    limiter_after: RateLimiter,
    breakers: CircuitBreakerManager,
    breakers_after: CircuitBreakerManager,
    r: ListenerDecision,
    other: Seq<char>,
)
    requires
        cache.known() == before.known().insert(
            host_port(host_text(address_of(m.backend)), m.backend.port),
            HttpProtocol::Http2,
        ),
        listener_admitted(
            m,
            head,
            cache,
            now,
            limiter,
            limiter_after,
            breakers,
            breakers_after,
            r,
        ),
    ensures
        r is Forward ==> r->Forward_0.use_http2,
        other != protocol_key(m.backend) ==> cache.of(other) == before.of(other),
{
}

/// Registering a gateway twice is the same as registering it once.
pub proof fn lemma_registration_is_idempotent(users: Seq<GatewayView>, g: GatewayView)
    ensures
        with_user(with_user(users, g), g) == with_user(users, g),
        with_user(users, g).contains(g),
{
    if !users.contains(g) {
        assert(users.push(g)[users.len() as int] == g);
    }
}

/// Taking a gateway off a port undoes putting it there: the other gateways stay, in order.
pub proof fn lemma_unregister_undoes_register(users: Seq<GatewayView>, g: GatewayView)
    requires
        users.no_duplicates(),
        !users.contains(g),
    ensures
        with_user(users, g).remove(with_user(users, g).index_of(g)) == users,
{
    let n = users.len() as int;
    let after = users.push(g);
    assert(after[n] == g);
    assert(after.index_of(g) == n) by {
        let i = after.index_of(g);
        assert(after.contains(g));
        if i < n {
            assert(users[i] == g);
        }
    }
    assert(after.remove(n) =~= users);
}

/// A use of a listener is known by where it comes from: namespace, gateway and listener, in this
/// order, with slashes between them. A listener binds to its port on all addresses, and a conflict
/// tells the port and both protocols.
pub proof fn lemma_listener_texts(g: GatewayView, port: u16, bound: Protocol, asked: Protocol)
    ensures
        gateway_id(g) == g.namespace + "/"@ + g.name + "/"@ + g.listener_name,
        bind_text(port) == "0.0.0.0:"@ + decimal(port as nat),
        mismatch_text(port, bound, asked) == "Port "@ + decimal(port as nat)
            + " already bound with protocol "@ + (if bound == Protocol::HTTP {
            "HTTP"@
        } else {
            "HTTPS"@
        }) + ", cannot bind with "@ + (if asked == Protocol::HTTP {
            "HTTP"@
        } else {
            "HTTPS"@
        }),
{
}

/// One more gateway comes last and moves nobody: all that used the listener still do, in order, and
/// none uses it twice.
pub proof fn lemma_gateways_keep_their_place(
    users: Seq<GatewayView>,
    g: GatewayView,
    other: GatewayView,
)
    ensures
        users.is_prefix_of(with_user(users, g)),
        with_user(users, g).contains(other) <==> users.contains(other) || other == g,
        !users.contains(g) ==> with_user(users, g).last() == g && with_user(users, g).len()
            == users.len() + 1,
        users.contains(g) ==> with_user(users, g).len() == users.len(),
        users.no_duplicates() ==> with_user(users, g).no_duplicates(),
{
    let after = with_user(users, g);
    assert(after.subrange(0, users.len() as int) =~= users);
    if !users.contains(g) {
        assert(after[users.len() as int] == g);
        if users.contains(other) {
            let i = users.index_of(other);
            assert(after[i] == other);
        }
        if after.contains(other) && other != g {
            let i = after.index_of(other);
            assert(users[i] == other);
        }
    }
}

/// The host of a request is that of its host header where this is visible text, else that of its
/// target; a request with neither has none.
pub proof fn lemma_host_is_asked_for(head: &RequestHead)
    ensures
        match (header_text(header_values(head.headers), "host"@), head.authority) {
            (Some(h), _) => asked_host(head) == h,
            (None, Some(a)) => asked_host(head) == a@,
            (None, None) => asked_host(head).len() == 0,
        },
{
}

/// A matched request from a listener is forwarded exactly if its route's limit permits it, its
/// backend's breaker lets it pass and the backend has an address. Otherwise the first of these that
/// does not hold answers it, with its own status and text. It is forwarded to the backend of its
/// route for what the client asked, over HTTP/2 exactly if the backend is known to speak it; a
/// request that the limit refuses does not reach the breaker.
pub proof fn lemma_listener_checks_decide(
    m: RouteMatch,
    head: &RequestHead,
    cache: &ProtocolCache,
    now: u64,
    limiter: RateLimiter,
    limiter_after: RateLimiter,
    breakers: CircuitBreakerManager,
    breakers_after: CircuitBreakerManager,
    r: ListenerDecision,
    other: Seq<char>,
)
    requires
        listener_admitted(
            m,
            head,
            cache,
            now,
            limiter,
            limiter_after,
            breakers,
            breakers_after,
            r,
        ),
    ensures
        ({
            let id = socket_text(m.backend);
            let permitted = limiter.permits(m.pattern@, now);
            let allowed = breakers.of(id).allows(now);
            let reachable = address_of(m.backend) != Address::Unknown;
            &&& r is Forward <==> permitted && allowed && reachable
            &&& r is Forward ==> {
                let plan = r->Forward_0;
                &&& plan.backend == m.backend
                &&& plan.backend_id@ == id
                &&& head.path_and_query matches Some(p) ==> plan.uri@ == "http://"@ + id + p@
                &&& head.path_and_query is None ==> plan.uri@ == "http://"@ + id + "/"@
                &&& plan.use_http2 <==> cache.of(
                    host_text(address_of(m.backend)) + ":"@ + decimal(m.backend.port as nat),
                ) == Some(HttpProtocol::Http2)
            }
            &&& r is Answer ==> {
                let reply = r->Answer_0@;
                &&& reply.headers.len() == 0
                &&& !permitted ==> reply.status == 429 && reply.body == "Too Many Requests"@
                    && r->Answer_1 == AnsweredBy::RateLimit
                &&& permitted && !allowed ==> reply.status == 503 && reply.body
                    == "Service Unavailable"@ && r->Answer_1 == AnsweredBy::Breaker
                &&& permitted && allowed ==> reply.status == 500 && reply.body
                    == "Internal Server Error"@ && r->Answer_1 == AnsweredBy::Address
            }
            &&& !permitted ==> breakers_after == breakers
            &&& permitted ==> breakers_after.of(id) == breakers.of(id).asked(now)
            &&& other != id ==> breakers_after.of(other) == breakers.of(other)
        }),
{
    if limiter.permits(m.pattern@, now) && other != socket_text(m.backend) {
        crate::circuit_breaker::lemma_backends_are_isolated(
            breakers,
            breakers_after,
            socket_text(m.backend),
            breakers.of(socket_text(m.backend)).asked(now),
            other,
        );
    }
}

} // verus!
