//! Forwarding a request to its backend: which headers travel, which protocol is spoken, and what
//! becomes of a failure.

use vstd::prelude::*;
use vstd::string::*;
use vstd::utf8::encode_utf8;
use crate::address::{ipv4_string, ipv4_text, lemma_address_visible};
use crate::backend::{address_of, socket_text, Backend};
use crate::headers::{
    header_copy, header_insert, header_remove, header_values, is_token_char, room_for,
    valid_header_name, valid_header_value,
};
use crate::http2_pool::PoolError;
use crate::protocol::{HttpProtocol, ProtocolCache};
use crate::text::{
    decimal, decimal_text, eq_ignore_ascii_case, lower, lower_text, text_eq,
};
use crate::time::MILLISECOND;

verus! {

/// Whether a lower-case header name is that of a header between two neighbours only, which is not
/// forwarded.
pub open spec fn is_hop_by_hop(name: Seq<char>) -> bool {
    ||| name == "connection"@
    ||| name == "keep-alive"@
    ||| name == "proxy-authenticate"@
    ||| name == "proxy-authorization"@
    ||| name == "te"@
    ||| name == "trailer"@
    ||| name == "transfer-encoding"@
    ||| name == "upgrade"@
}

/// Whether a text is a header name in lower case.
spec fn is_lower_name(s: Seq<char>) -> bool {
    &&& 0 < s.len() <= 65535
    &&& forall|i: int| 0 <= i < s.len() ==> ('a' <= (#[trigger] s[i]) <= 'z' || s[i] == '-')
}

proof fn lemma_lower_name(s: Seq<char>)
    requires
        is_lower_name(s),
    ensures
        lower_text(s) == s,
        valid_header_name(s),
{
    assert(lower_text(s) =~= s);
    assert forall|i: int| 0 <= i < s.len() implies is_token_char(#[trigger] s[i]) by {
        assert('a' <= s[i] <= 'z' || s[i] == '-');
    }
}

/// The names of headers that are not forwarded are header names in lower case.
proof fn lemma_names()
    ensures
        lower_text("connection"@) == "connection"@,
        lower_text("keep-alive"@) == "keep-alive"@,
        lower_text("proxy-authenticate"@) == "proxy-authenticate"@,
        lower_text("proxy-authorization"@) == "proxy-authorization"@,
        lower_text("te"@) == "te"@,
        lower_text("trailer"@) == "trailer"@,
        lower_text("transfer-encoding"@) == "transfer-encoding"@,
        lower_text("upgrade"@) == "upgrade"@,
        lower_text("host"@) == "host"@,
        valid_header_name("connection"@),
        valid_header_name("keep-alive"@),
        valid_header_name("proxy-authenticate"@),
        valid_header_name("proxy-authorization"@),
        valid_header_name("te"@),
        valid_header_name("trailer"@),
        valid_header_name("transfer-encoding"@),
        valid_header_name("upgrade"@),
        valid_header_name("host"@),
{
    reveal_strlit("connection");
    reveal_strlit("keep-alive");
    reveal_strlit("proxy-authenticate");
    reveal_strlit("proxy-authorization");
    reveal_strlit("te");
    reveal_strlit("trailer");
    reveal_strlit("transfer-encoding");
    reveal_strlit("upgrade");
    reveal_strlit("host");
    lemma_lower_name("connection"@);
    lemma_lower_name("keep-alive"@);
    lemma_lower_name("proxy-authenticate"@);
    lemma_lower_name("proxy-authorization"@);
    lemma_lower_name("te"@);
    lemma_lower_name("trailer"@);
    lemma_lower_name("transfer-encoding"@);
    lemma_lower_name("upgrade"@);
    lemma_lower_name("host"@);
}

/// Whether a header concerns two neighbours only and is not forwarded; letter case does not
/// matter.
pub fn is_hop_by_hop_header(name: &str) -> (r: bool)
    ensures
        r == is_hop_by_hop(lower_text(name@)),
{
    proof {
        lemma_names();
    }
    eq_ignore_ascii_case(name, "connection") || eq_ignore_ascii_case(name, "keep-alive")
        || eq_ignore_ascii_case(name, "proxy-authenticate") || eq_ignore_ascii_case(
        name,
        "proxy-authorization",
    ) || eq_ignore_ascii_case(name, "te") || eq_ignore_ascii_case(name, "trailer")
        || eq_ignore_ascii_case(name, "transfer-encoding") || eq_ignore_ascii_case(name, "upgrade")
}

/// The dotted-quad text of an IPv4 address.
pub fn ipv4_to_string(ipv4: u32) -> (r: String)
    ensures
        r@ == ipv4_text(ipv4 as nat),
{
    ipv4_string(ipv4)
}

/// The headers of a message that travel end to end: all but those of two neighbours.
pub open spec fn end_to_end(
    headers: Map<Seq<char>, Seq<Seq<u8>>>,
) -> Map<Seq<char>, Seq<Seq<u8>>> {
    Map::new(
        |k: Seq<char>| headers.contains_key(k) && !is_hop_by_hop(k),
        |k: Seq<char>| headers[k],
    )
}

/// The headers of the request to a backend: the client's end-to-end headers, addressed to the
/// backend.
pub open spec fn forwarded(
    headers: Map<Seq<char>, Seq<Seq<u8>>>,
    backend: Backend,
) -> Map<Seq<char>, Seq<Seq<u8>>> {
    end_to_end(headers).insert("host"@, seq![encode_utf8(socket_text(backend))])
}

/// Removes the headers that concern two neighbours only.
pub fn strip_hop_by_hop(headers: &mut hyper::header::HeaderMap<hyper::header::HeaderValue>)
    ensures
        header_values(*final(headers)) == end_to_end(header_values(*old(headers))),
{
    proof {
        lemma_names();
    }
    header_remove(headers, "connection");
    header_remove(headers, "keep-alive");
    header_remove(headers, "proxy-authenticate");
    header_remove(headers, "proxy-authorization");
    header_remove(headers, "te");
    header_remove(headers, "trailer");
    header_remove(headers, "transfer-encoding");
    header_remove(headers, "upgrade");
    assert(header_values(*headers) =~= end_to_end(header_values(*old(headers))));
}

/// A backend's address is a header value.
proof fn lemma_socket_text_valid(backend: Backend)
    ensures
        valid_header_value(socket_text(backend)),
{
    let text = socket_text(backend);
    lemma_address_visible(address_of(backend), backend.port);
    assert forall|i: int| 0 <= i < text.len() implies ((#[trigger] text[i]) as u32 >= 32
        && text[i] as u32 != 127) || text[i] == '\t' by {
        assert(32 < text[i] as u32 && (text[i] as u32) < 127);
    }
}

/// The headers of the request to a backend.
pub fn forward_headers(
    headers: &hyper::header::HeaderMap<hyper::header::HeaderValue>,
    backend: Backend,
) -> (r: hyper::header::HeaderMap<hyper::header::HeaderValue>)
    requires
        room_for(header_values(*headers), 1),
    ensures
        header_values(r) == forwarded(header_values(*headers), backend),
{
    let mut out = header_copy(headers);
    strip_hop_by_hop(&mut out);
    let host = backend.socket_addr();
    proof {
        lemma_names();
        lemma_socket_text_valid(backend);
        let all = header_values(*headers).dom();
        let kept = header_values(out).dom();
        assert(kept.subset_of(all));
        vstd::set_lib::lemma_len_subset(kept, all);
    }
    header_insert(&mut out, "host", host.as_str());
    out
}

/// Whether a method's request is forwarded without reading a body.
pub open spec fn bodiless(method: Seq<char>) -> bool {
    method == "GET"@ || method == "HEAD"@ || method == "DELETE"@
}

/// Whether a method's request is forwarded without reading a body.
pub fn skips_body(method: &str) -> (r: bool)
    ensures
        r == bodiless(method@),
{
    text_eq(method, "GET") || text_eq(method, "HEAD") || text_eq(method, "DELETE")
}

/// The address to which a request is forwarded.
pub open spec fn forward_uri(backend: Backend, path_and_query: Option<Seq<char>>) -> Seq<char> {
    "http://"@ + socket_text(backend) + match path_and_query {
        Some(p) => p,
        None => "/"@,
    }
}

/// The address to which a request is forwarded.
pub fn backend_uri(backend: Backend, path_and_query: Option<&str>) -> (r: String)
    ensures
        r@ == forward_uri(
            backend,
            match path_and_query {
                Some(p) => Some(p@),
                None => None,
            },
        ),
{
    let mut s = "http://".to_owned();
    let addr = backend.socket_addr();
    s.append(addr.as_str());
    match path_and_query {
        Some(p) => s.append(p),
        None => s.append("/"),
    }
    s
}

/// How far a request has come.
#[derive(Debug, Clone, Copy, PartialEq, Eq, Structural)]
pub enum ForwardPhase {
    /// Its body is being read
    Body,
    /// The request to the backend is being built
    Building,
    /// An HTTP/2 connection is being taken from the pool
    Connecting,
    /// It was sent over HTTP/2
    Http2,
    /// It was sent over HTTP/1.1
    Http1,
    /// It was sent again over HTTP/1.1 after HTTP/2 failed
    Fallback,
    /// It is done
    Over,
}

/// What happened to a request.
pub enum ForwardEvent {
    BodyRead,
    BodyFailed(String),
    Built,
    BuildFailed(String),
    Connected,
    Refused(PoolError),
    Responded,
    SendFailed(String),
    FallbackBuildFailed(String),
    TimedOut,
}

/// What is to be done with a request next.
pub enum ForwardStep {
    /// Read the body
    ReadBody,
    /// Build the request to the backend
    Build,
    /// Take an HTTP/2 connection from the pool
    Connect,
    /// Send the request over that connection
    SendHttp2,
    /// Send the request over HTTP/1.1
    SendHttp1,
    /// Build a bare request with the same body and send it over HTTP/1.1
    SendFallback,
    /// Hand the response back
    Finish,
    /// Give up with this text
    Fail(String),
}

/// A step over plain texts.
pub ghost enum StepView {
    ReadBody,
    Build,
    Connect,
    SendHttp2,
    SendHttp1,
    SendFallback,
    Finish,
    Fail(Seq<char>),
}

impl View for ForwardStep {
    type V = StepView;

    open spec fn view(&self) -> StepView {
        match *self {
            ForwardStep::ReadBody => StepView::ReadBody,
            ForwardStep::Build => StepView::Build,
            ForwardStep::Connect => StepView::Connect,
            ForwardStep::SendHttp2 => StepView::SendHttp2,
            ForwardStep::SendHttp1 => StepView::SendHttp1,
            ForwardStep::SendFallback => StepView::SendFallback,
            ForwardStep::Finish => StepView::Finish,
            ForwardStep::Fail(text) => StepView::Fail(text@),
        }
    }
}

/// The progress of one request.
pub struct Forward {
    pub phase: ForwardPhase,
    /// What the backend was known to speak when the request to it was built
    pub protocol: Option<HttpProtocol>,
    /// Whether connections come from the pool of a worker
    pub by_worker: bool,
    /// How long the backend may take, in nanoseconds
    pub timeout: Option<u64>,
}

/// The text of a timeout at the backend.
pub open spec fn backend_timeout_text(timeout: u64) -> Seq<char> {
    "TIMEOUT: Backend request exceeded "@ + decimal((timeout / MILLISECOND) as nat) + "ms timeout"@
}

/// The text of a timeout at the backend.
pub fn backend_timeout_error(timeout: u64) -> (r: String)
    ensures
        r@ == backend_timeout_text(timeout),
{
    let mut s = "TIMEOUT: Backend request exceeded ".to_owned();
    let ms = decimal_text(timeout / MILLISECOND);
    s.append(ms.as_str());
    s.append("ms timeout");
    s
}

impl Forward {
    /// Whether an event can happen now.
    pub open spec fn expects(&self, event: ForwardEvent) -> bool {
        match self.phase {
            ForwardPhase::Body => event is BodyRead || event is BodyFailed,
            ForwardPhase::Building => event is Built || event is BuildFailed,
            ForwardPhase::Connecting => event is Connected || event is Refused || (
            event is TimedOut && self.timeout is Some),
            ForwardPhase::Http2 | ForwardPhase::Http1 => event is Responded || event is SendFailed
                || (event is TimedOut && self.timeout is Some),
            ForwardPhase::Fallback => event is Responded || event is SendFailed
                || event is FallbackBuildFailed || (event is TimedOut && self.timeout is Some),
            ForwardPhase::Over => false,
        }
    }

    /// Where an event leads, and what is to be done then.
    pub open spec fn next(&self, event: ForwardEvent) -> (ForwardPhase, StepView) {
        match event {
            ForwardEvent::BodyRead => (ForwardPhase::Building, StepView::Build),
            ForwardEvent::BodyFailed(why) => (
                ForwardPhase::Over,
                StepView::Fail("Failed to read request body: "@ + why@),
            ),
            ForwardEvent::Built => if self.protocol == Some(HttpProtocol::Http1) {
                (ForwardPhase::Http1, StepView::SendHttp1)
            } else {
                (ForwardPhase::Connecting, StepView::Connect)
            },
            ForwardEvent::BuildFailed(why) => (
                ForwardPhase::Over,
                StepView::Fail("Failed to build backend request: "@ + why@),
            ),
            ForwardEvent::Connected => (ForwardPhase::Http2, StepView::SendHttp2),
            ForwardEvent::Refused(why) => (
                ForwardPhase::Over,
                StepView::Fail(
                    if why is CircuitBreakerOpen {
                        "Circuit breaker open"@
                    } else if self.by_worker {
                        "Failed to get HTTP/2 connection from worker: "@ + why.text()
                    } else {
                        "Failed to get HTTP/2 connection: "@ + why.text()
                    },
                ),
            ),
            ForwardEvent::Responded => (ForwardPhase::Over, StepView::Finish),
            ForwardEvent::SendFailed(why) => if self.phase == ForwardPhase::Http2 {
                if self.protocol is None {
                    (ForwardPhase::Fallback, StepView::SendFallback)
                } else {
                    (
                        ForwardPhase::Over,
                        StepView::Fail("HTTP/2 backend connection failed: "@ + why@),
                    )
                }
            } else {
                (ForwardPhase::Over, StepView::Fail("Backend connection failed: "@ + why@))
            },
            ForwardEvent::FallbackBuildFailed(why) => (
                ForwardPhase::Over,
                StepView::Fail("Failed to build fallback request: "@ + why@),
            ),
            ForwardEvent::TimedOut => (
                ForwardPhase::Over,
                StepView::Fail(backend_timeout_text(self.timeout->0)),
            ),
        }
    }

    /// The progress of a request with what its backend is known to speak, which counts as of the
    /// moment when the request to it is built.
    pub open spec fn informed(self, event: ForwardEvent, known: Option<HttpProtocol>) -> Forward {
        if event is Built {
            Forward { protocol: known, ..self }
        } else {
            self
        }
    }

    /// Starts forwarding a request; the first thing to do.
    pub fn start(
        method: &str,
        by_worker: bool,
        timeout: Option<u64>,
    ) -> (r: (Forward, ForwardStep))
        ensures
            r.0.protocol is None,
            r.0.by_worker == by_worker,
            r.0.timeout == timeout,
            if bodiless(method@) {
                r.0.phase == ForwardPhase::Building && r.1@ == StepView::Build
            } else {
                r.0.phase == ForwardPhase::Body && r.1@ == StepView::ReadBody
            },
    {
        if skips_body(method) {
            (
                Forward { phase: ForwardPhase::Building, protocol: None, by_worker, timeout },
                ForwardStep::Build,
            )
        } else {
            (
                Forward { phase: ForwardPhase::Body, protocol: None, by_worker, timeout },
                ForwardStep::ReadBody,
            )
        }
    }

    /// Takes note of an event; the next thing to do. A request is sent over what its backend is
    /// known to speak once it is built, and over HTTP/2 where nothing is known. Where HTTP/2 failed at a backend of which
    /// nothing was known, the backend is from then on known to speak HTTP/1.1.
    pub fn forward_to_backend(
        &mut self,
        event: ForwardEvent,
        backend: Backend,
        cache: &mut ProtocolCache,
    ) -> (r: ForwardStep)
        requires
            old(self).expects(event),
            old(cache).wf(),
        ensures
            ({
                let known = old(cache).of(socket_text(backend));
                let now = old(self).informed(event, known);
                &&& final(self).phase == now.next(event).0
                &&& r@ == now.next(event).1
                &&& final(self).protocol == now.protocol
            }),
            final(self).by_worker == old(self).by_worker,
            final(self).timeout == old(self).timeout,
            final(cache).wf(),
            final(cache).known() == if r@ == StepView::SendFallback {
                old(cache).known().insert(socket_text(backend), HttpProtocol::Http1)
            } else {
                old(cache).known()
            },
    {
        match event {
            ForwardEvent::BodyRead => {
                self.phase = ForwardPhase::Building;
                ForwardStep::Build
            },
            ForwardEvent::BodyFailed(why) => {
                self.phase = ForwardPhase::Over;
                ForwardStep::Fail(joined("Failed to read request body: ", why.as_str()))
            },
            ForwardEvent::Built => {
                let key = backend.socket_addr();
                self.protocol = cache.get(key.as_str());
                match self.protocol {
                    Some(HttpProtocol::Http1) => {
                        self.phase = ForwardPhase::Http1;
                        ForwardStep::SendHttp1
                    },
                    _ => {
                        self.phase = ForwardPhase::Connecting;
                        ForwardStep::Connect
                    },
                }
            },
            ForwardEvent::BuildFailed(why) => {
                self.phase = ForwardPhase::Over;
                ForwardStep::Fail(joined("Failed to build backend request: ", why.as_str()))
            },
            ForwardEvent::Connected => {
                self.phase = ForwardPhase::Http2;
                ForwardStep::SendHttp2
            },
            ForwardEvent::Refused(why) => {
                self.phase = ForwardPhase::Over;
                match why {
                    PoolError::CircuitBreakerOpen => ForwardStep::Fail(
                        "Circuit breaker open".to_owned(),
                    ),
                    _ => {
                        let text = why.message();
                        if self.by_worker {
                            ForwardStep::Fail(
                                joined(
                                    "Failed to get HTTP/2 connection from worker: ",
                                    text.as_str(),
                                ),
                            )
                        } else {
                            ForwardStep::Fail(
                                joined("Failed to get HTTP/2 connection: ", text.as_str()),
                            )
                        }
                    },
                }
            },
            ForwardEvent::Responded => {
                self.phase = ForwardPhase::Over;
                ForwardStep::Finish
            },
            ForwardEvent::SendFailed(why) => {
                if self.phase == ForwardPhase::Http2 {
                    if self.protocol.is_none() {
                        self.phase = ForwardPhase::Fallback;
                        let key = backend.socket_addr();
                        cache.learn(key.as_str(), HttpProtocol::Http1);
                        ForwardStep::SendFallback
                    } else {
                        self.phase = ForwardPhase::Over;
                        ForwardStep::Fail(
                            joined("HTTP/2 backend connection failed: ", why.as_str()),
                        )
                    }
                } else {
                    self.phase = ForwardPhase::Over;
                    ForwardStep::Fail(joined("Backend connection failed: ", why.as_str()))
                }
            },
            ForwardEvent::FallbackBuildFailed(why) => {
                self.phase = ForwardPhase::Over;
                ForwardStep::Fail(joined("Failed to build fallback request: ", why.as_str()))
            },
            ForwardEvent::TimedOut => {
                self.phase = ForwardPhase::Over;
                match self.timeout {
                    Some(timeout) => ForwardStep::Fail(backend_timeout_error(timeout)),
                    None => ForwardStep::Finish,
                }
            },
        }
    }
}

/// Two texts in one.
pub(crate) fn joined(a: &str, b: &str) -> (r: String)
    ensures
        r@ == a@ + b@,
{
    let mut s = a.to_owned();
    s.append(b);
    s
}

/// How many events a phase is away from the end at most.
pub open spec fn events_left(phase: ForwardPhase) -> nat {
    match phase {
        ForwardPhase::Body => 5,
        ForwardPhase::Building => 4,
        ForwardPhase::Connecting => 3,
        ForwardPhase::Http2 => 2,
        ForwardPhase::Http1 => 1,
        ForwardPhase::Fallback => 1,
        ForwardPhase::Over => 0,
    }
}

/// Every event brings a request closer to its end, and it ends with a response or with an error.
pub proof fn lemma_forwarding_ends(forward: Forward, event: ForwardEvent)
    requires
        forward.expects(event),
    ensures
        events_left(forward.next(event).0) < events_left(forward.phase),
        forward.next(event).0 == ForwardPhase::Over <==> (forward.next(event).1 is Finish
            || forward.next(event).1 is Fail),
{
}

/// A request is sent again over HTTP/1.1 only after HTTP/2 failed at a backend of which nothing
/// was known, and what is sent again is never sent a third time.
pub proof fn lemma_fallback_only_when_unknown(forward: Forward, event: ForwardEvent)
    requires
        forward.expects(event),
    ensures
        forward.next(event).1 is SendFallback <==> forward.phase == ForwardPhase::Http2
            && event is SendFailed && forward.protocol is None,
        forward.phase == ForwardPhase::Fallback ==> forward.next(event).0 == ForwardPhase::Over,
{
}

/// Headers between neighbours and the client's own host never reach a backend, and every other
/// header does, unchanged.
pub proof fn lemma_forwarded_headers(
    headers: Map<Seq<char>, Seq<Seq<u8>>>,
    backend: Backend,
    name: Seq<char>,
)
    ensures
        is_hop_by_hop(name) ==> !forwarded(headers, backend).contains_key(name),
        forwarded(headers, backend)["host"@] == seq![encode_utf8(socket_text(backend))],
        !is_hop_by_hop(name) && name != "host"@ ==> {
            &&& forwarded(headers, backend).contains_key(name) == headers.contains_key(name)
            &&& headers.contains_key(name) ==> forwarded(headers, backend)[name] == headers[name]
        },
{
    reveal_strlit("host");
    reveal_strlit("connection");
    reveal_strlit("keep-alive");
    reveal_strlit("proxy-authenticate");
    reveal_strlit("proxy-authorization");
    reveal_strlit("te");
    reveal_strlit("trailer");
    reveal_strlit("transfer-encoding");
    reveal_strlit("upgrade");
    assert(!is_hop_by_hop("host"@)) by {
        assert("host"@.len() == 4);
        assert("te"@.len() == 2);
    }
}

/// The headers that concern two neighbours only are these eight, and no message that was stripped of
/// them holds one; it keeps all others as they were.
pub proof fn lemma_eight_names_are_stripped(
    headers: Map<Seq<char>, Seq<Seq<u8>>>,
    name: Seq<char>,
)
    ensures
        ({
            let neighbours = seq![
                "connection"@,
                "keep-alive"@,
                "proxy-authenticate"@,
                "proxy-authorization"@,
                "te"@,
                "trailer"@,
                "transfer-encoding"@,
                "upgrade"@,
            ];
            &&& is_hop_by_hop(name) <==> neighbours.contains(name)
            &&& neighbours.contains(name) ==> !end_to_end(headers).contains_key(name)
            &&& !neighbours.contains(name) ==> {
                &&& end_to_end(headers).contains_key(name) == headers.contains_key(name)
                &&& headers.contains_key(name) ==> end_to_end(headers)[name] == headers[name]
            }
        }),
{
    let neighbours = seq![
        "connection"@,
        "keep-alive"@,
        "proxy-authenticate"@,
        "proxy-authorization"@,
        "te"@,
        "trailer"@,
        "transfer-encoding"@,
        "upgrade"@,
    ];
    assert(neighbours[0] == "connection"@ && neighbours[1] == "keep-alive"@ && neighbours[2]
        == "proxy-authenticate"@ && neighbours[3] == "proxy-authorization"@ && neighbours[4]
        == "te"@ && neighbours[5] == "trailer"@ && neighbours[6] == "transfer-encoding"@
        && neighbours[7] == "upgrade"@);
    assert(neighbours.len() == 8);
    if neighbours.contains(name) {
        let i = choose|i: int| 0 <= i < neighbours.len() && neighbours[i] == name;
        assert(0 <= i < 8);
    }
}

/// A request goes to its backend over plain HTTP, for what the client asked: the address begins with
/// that of the backend and ends with the client's path and query, or is that of its root.
pub proof fn lemma_forwarded_to_backend(backend: Backend, path_and_query: Option<Seq<char>>)
    ensures
        ({
            let uri = forward_uri(backend, path_and_query);
            let start = "http://"@ + socket_text(backend);
            &&& start.is_prefix_of(uri)
            &&& path_and_query matches Some(p) ==> uri.subrange(
                start.len() as int,
                uri.len() as int,
            ) == p
            &&& path_and_query is None ==> uri == start + "/"@
        }),
{
    let uri = forward_uri(backend, path_and_query);
    let start = "http://"@ + socket_text(backend);
    assert(uri.subrange(0, start.len() as int) =~= start);
    match path_and_query {
        Some(p) => {
            assert(uri.subrange(start.len() as int, uri.len() as int) =~= p);
        },
        None => {},
    }
}

/// The body of a request is read unless its method is one of the three that need none.
pub proof fn lemma_three_methods_have_no_body(method: Seq<char>)
    ensures
        bodiless(method) <==> seq!["GET"@, "HEAD"@, "DELETE"@].contains(method),
{
    let methods = seq!["GET"@, "HEAD"@, "DELETE"@];
    assert(methods[0] == "GET"@ && methods[1] == "HEAD"@ && methods[2] == "DELETE"@);
    assert(methods.len() == 3);
    if methods.contains(method) {
        let i = choose|i: int| 0 <= i < methods.len() && methods[i] == method;
        assert(0 <= i < 3);
    }
}

/// What goes well leads on: a body that was read to a request, a request that was built to the
/// protocol that its backend is known to speak at that moment or, where nothing is known, to HTTP/2,
/// a connection to sending over it, and a response, over whatever it came, to the client.
pub proof fn lemma_success_leads_on(
    forward: Forward,
    event: ForwardEvent,
    known: Option<HttpProtocol>,
)
    requires
        forward.expects(event),
    ensures
        ({
            let now = forward.informed(event, known);
            let (phase, step) = now.next(event);
            &&& now.phase == forward.phase && now.by_worker == forward.by_worker && now.timeout
                == forward.timeout
            &&& event is Built ==> now.protocol == known
            &&& !(event is Built) ==> now.protocol == forward.protocol
            &&& event is BodyRead ==> phase == ForwardPhase::Building && step == StepView::Build
            &&& event is Built && known == Some(HttpProtocol::Http1) ==> phase
                == ForwardPhase::Http1 && step == StepView::SendHttp1
            &&& event is Built && known != Some(HttpProtocol::Http1) ==> phase
                == ForwardPhase::Connecting && step == StepView::Connect
            &&& event is Connected ==> phase == ForwardPhase::Http2 && step == StepView::SendHttp2
            &&& event is Responded <==> step == StepView::Finish
            &&& event is Responded ==> phase == ForwardPhase::Over
        }),
{
}

/// What goes wrong ends a request, and the error tells what it was and why. The one exception is a
/// request that failed over HTTP/2 at a backend of which nothing was known: it is sent once more.
/// A request that took longer than it may ends whatever it was waiting for, with an error that begins
/// as that of a timeout and holds the limit in milliseconds.
pub proof fn lemma_failure_is_told(forward: Forward, event: ForwardEvent)
    requires
        forward.expects(event),
    ensures
        ({
            let (phase, step) = forward.next(event);
            let again = event is SendFailed && forward.phase == ForwardPhase::Http2
                && forward.protocol is None;
            &&& again ==> phase == ForwardPhase::Fallback && step == StepView::SendFallback
            &&& !again && !(event is BodyRead || event is Built || event is Connected
                || event is Responded) ==> phase == ForwardPhase::Over && step is Fail
            &&& match event {
                ForwardEvent::BodyFailed(why) => step == StepView::Fail(
                    "Failed to read request body: "@ + why@,
                ),
                ForwardEvent::BuildFailed(why) => step == StepView::Fail(
                    "Failed to build backend request: "@ + why@,
                ),
                ForwardEvent::FallbackBuildFailed(why) => step == StepView::Fail(
                    "Failed to build fallback request: "@ + why@,
                ),
                ForwardEvent::Refused(why) => match why {
                    PoolError::CircuitBreakerOpen => step == StepView::Fail(
                        "Circuit breaker open"@,
                    ),
                    _ => step == StepView::Fail(
                        if forward.by_worker {
                            "Failed to get HTTP/2 connection from worker: "@ + why.text()
                        } else {
                            "Failed to get HTTP/2 connection: "@ + why.text()
                        },
                    ),
                },
                ForwardEvent::SendFailed(why) => again || step == StepView::Fail(
                    if forward.phase == ForwardPhase::Http2 {
                        "HTTP/2 backend connection failed: "@ + why@
                    } else {
                        "Backend connection failed: "@ + why@
                    },
                ),
                ForwardEvent::TimedOut => step == StepView::Fail(
                    "TIMEOUT: Backend request exceeded "@ + decimal(
                        (forward.timeout->0 as int / 1_000_000) as nat,
                    ) + "ms timeout"@,
                ),
                _ => true,
            }
        }),
{
}

/// What can happen to a request follows from what it waits for; a limit can only run out where one is
/// set and a backend has been asked, and nothing happens to a request that is over.
pub proof fn lemma_events_follow_phase(forward: Forward, event: ForwardEvent)
    ensures
        forward.phase == ForwardPhase::Over ==> !forward.expects(event),
        forward.phase == ForwardPhase::Body ==> (forward.expects(event) <==> event is BodyRead
            || event is BodyFailed),
        forward.phase == ForwardPhase::Building ==> (forward.expects(event) <==> event is Built
            || event is BuildFailed),
        event is Connected || event is Refused ==> (forward.expects(event) <==> forward.phase
            == ForwardPhase::Connecting),
        event is Responded || event is SendFailed ==> (forward.expects(event) <==> forward.phase
            == ForwardPhase::Http2 || forward.phase == ForwardPhase::Http1 || forward.phase
            == ForwardPhase::Fallback),
        event is FallbackBuildFailed ==> (forward.expects(event) <==> forward.phase
            == ForwardPhase::Fallback),
        event is TimedOut ==> (forward.expects(event) <==> forward.timeout is Some && (forward.phase
            == ForwardPhase::Connecting || forward.phase == ForwardPhase::Http2 || forward.phase
            == ForwardPhase::Http1 || forward.phase == ForwardPhase::Fallback)),
{
}

} // verus!
