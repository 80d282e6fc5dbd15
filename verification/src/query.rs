//! Queries to the admin server of a gateway: what is asked for, and what is kept of the reply.

use vstd::prelude::*;
use vstd::string::*;
use crate::forwarder::joined;
use crate::text::{
    contains_text, decimal, decimal_text, holds, starts_with, text_eq, trim_end, trim_end_char,
};

verus! {

/// How long a drain may take where no time is given, in seconds.
pub const DEFAULT_DRAIN_SECONDS: u64 = 30;

/// The part of the recorded history that a query is about.
#[derive(Debug, Clone, Copy, PartialEq, Eq, Structural)]
pub struct TemporalQuery {
    pub since_seconds: Option<u64>,
    pub from_sequence: Option<u64>,
    pub to_sequence: Option<u64>,
}

impl Default for TemporalQuery {
    /// All of the recorded history.
    fn default() -> (r: Self)
        ensures
            r == (TemporalQuery { since_seconds: None, from_sequence: None, to_sequence: None }),
    {
        TemporalQuery { since_seconds: None, from_sequence: None, to_sequence: None }
    }
}

/// What a gateway can be asked.
#[derive(Debug, Clone)]
pub enum GatewayCall {
    Snapshot,
    ListRoutes { method_filter: Option<String>, path_prefix: Option<String> },
    GetRoute { pattern: String },
    ListCircuitBreakers { state_filter: Option<String> },
    ListRateLimiters { route_filter: Option<String> },
    ListListeners,
    CacheStats,
    MetricsSnapshot { metric_filter: Option<String> },
    Timeline { query: TemporalQuery },
    Diff { query: TemporalQuery },
    DiagnoseSince {
        symptom: String,
        route_filter: Option<String>,
        backend_filter: Option<String>,
        since_seconds: Option<u64>,
    },
    DrainBackend { backend: String, timeout_secs: Option<u64> },
    UndrainBackend { backend: String },
    QuarantineBackend { backend: String, ttl_secs: u64 },
}

/// The JSON object that a request carries.
#[derive(Debug, Clone)]
pub enum AdminBody {
    Empty,
    Drain { backend: String, timeout_secs: u64 },
    Undrain { backend: String },
    Quarantine { backend: String, ttl_secs: u64 },
}

/// A request to the admin server.
#[derive(Debug, Clone)]
pub struct AdminRequest {
    /// POST, where this is set; GET otherwise
    pub post: bool,
    pub url: String,
    pub query: Vec<(String, String)>,
    pub body: AdminBody,
}

/// The pairs, as texts.
pub open spec fn pair_texts(pairs: Seq<(String, String)>) -> Seq<(Seq<char>, Seq<char>)> {
    Seq::new(pairs.len(), |i: int| (pairs[i].0@, pairs[i].1@))
}

/// A pair for a number that is there, and none otherwise.
pub open spec fn number_pair(name: Seq<char>, value: Option<u64>) -> Seq<(Seq<char>, Seq<char>)> {
    match value {
        Some(v) => seq![(name, decimal(v as nat))],
        None => Seq::empty(),
    }
}

/// The query pairs that name a part of the history.
pub open spec fn temporal_pairs(query: TemporalQuery) -> Seq<(Seq<char>, Seq<char>)> {
    number_pair("since_seconds"@, query.since_seconds) + number_pair(
        "from_sequence"@,
        query.from_sequence,
    ) + number_pair("to_sequence"@, query.to_sequence)
}

/// The path on the admin server that answers a call.
pub open spec fn admin_path(call: GatewayCall) -> Seq<char> {
    match call {
        GatewayCall::Snapshot => "/api/v1/status"@,
        GatewayCall::ListRoutes { .. } => "/api/v1/routes"@,
        GatewayCall::GetRoute { .. } => "/api/v1/routes"@,
        GatewayCall::ListCircuitBreakers { .. } => "/api/v1/circuit-breakers"@,
        GatewayCall::ListRateLimiters { .. } => "/api/v1/rate-limiters"@,
        GatewayCall::ListListeners => "/api/v1/listeners"@,
        GatewayCall::CacheStats => "/api/v1/cache"@,
        GatewayCall::MetricsSnapshot { .. } => "/api/v1/metrics"@,
        GatewayCall::Timeline { .. } => "/api/v1/timeline"@,
        GatewayCall::Diff { .. } => "/api/v1/diff"@,
        GatewayCall::DiagnoseSince { .. } => "/api/v1/diagnose"@,
        GatewayCall::DrainBackend { .. } => "/api/v1/backends/drain"@,
        GatewayCall::UndrainBackend { .. } => "/api/v1/backends/undrain"@,
        GatewayCall::QuarantineBackend { .. } => "/api/v1/backends/quarantine"@,
    }
}

/// Whether a call may change the gateway, or has it work.
pub open spec fn is_post(call: GatewayCall) -> bool {
    call is DiagnoseSince || call is DrainBackend || call is UndrainBackend
        || call is QuarantineBackend
}

/// The query pairs of a call.
pub open spec fn admin_pairs(call: GatewayCall) -> Seq<(Seq<char>, Seq<char>)> {
    match call {
        GatewayCall::Timeline { query } => temporal_pairs(query),
        GatewayCall::Diff { query } => temporal_pairs(query),
        GatewayCall::DiagnoseSince { symptom, since_seconds, .. } => seq![("symptom"@, symptom@)]
            + number_pair("since_seconds"@, since_seconds),
        _ => Seq::empty(),
    }
}

/// Whether a body is that of a call.
pub open spec fn is_body_of(body: AdminBody, call: GatewayCall) -> bool {
    match call {
        GatewayCall::DrainBackend { backend, timeout_secs } => body matches AdminBody::Drain {
            backend: b,
            timeout_secs: t,
        } && b@ == backend@ && t == (match timeout_secs {
            Some(given) => given,
            None => DEFAULT_DRAIN_SECONDS,
        }),
        GatewayCall::UndrainBackend { backend } => body matches AdminBody::Undrain { backend: b }
            && b@ == backend@,
        GatewayCall::QuarantineBackend { backend, ttl_secs } => body matches AdminBody::Quarantine {
            backend: b,
            ttl_secs: t,
        } && b@ == backend@ && t == ttl_secs,
        _ => body is Empty,
    }
}

fn push_number(pairs: &mut Vec<(String, String)>, name: &str, value: Option<u64>)
    ensures
        pair_texts(final(pairs)@) == pair_texts(old(pairs)@) + number_pair(name@, value),
{
    match value {
        Some(v) => {
            pairs.push((name.to_owned(), decimal_text(v)));
        },
        None => {},
    }
    assert(pair_texts(pairs@) =~= pair_texts(old(pairs)@) + number_pair(name@, value));
}

/// The query pairs that name a part of the history.
pub fn temporal_query_pairs(query: &TemporalQuery) -> (r: Vec<(String, String)>)
    ensures
        pair_texts(r@) == temporal_pairs(*query),
{
    let mut pairs: Vec<(String, String)> = Vec::new();
    assert(pair_texts(pairs@) =~= Seq::empty());
    push_number(&mut pairs, "since_seconds", query.since_seconds);
    push_number(&mut pairs, "from_sequence", query.from_sequence);
    push_number(&mut pairs, "to_sequence", query.to_sequence);
    assert(pair_texts(pairs@) =~= temporal_pairs(*query));
    pairs
}

fn diagnose_pairs(symptom: &str, since_seconds: Option<u64>) -> (r: Vec<(String, String)>)
    ensures
        pair_texts(r@) == seq![("symptom"@, symptom@)] + number_pair(
            "since_seconds"@,
            since_seconds,
        ),
{
    let mut pairs: Vec<(String, String)> = Vec::new();
    pairs.push(("symptom".to_owned(), symptom.to_owned()));
    assert(pair_texts(pairs@) =~= seq![("symptom"@, symptom@)]);
    push_number(&mut pairs, "since_seconds", since_seconds);
    pairs
}

/// The admin server of a gateway.
pub struct RemoteGatewayQuery {
    base_url: String,
}

impl RemoteGatewayQuery {
    /// The address of the server, without slashes at its end.
    pub closed spec fn base(&self) -> Seq<char> {
        self.base_url@
    }

    /// The admin server at an address.
    pub fn new(endpoint: &str) -> (r: Self)
        ensures
            r.base() == trim_end(endpoint@, '/'),
    {
        RemoteGatewayQuery { base_url: trim_end_char(endpoint, '/') }
    }

    fn get(&self, path: &str) -> (r: AdminRequest)
        ensures
            !r.post,
            r.url@ == self.base() + path@,
            pair_texts(r.query@) == Seq::<(Seq<char>, Seq<char>)>::empty(),
            r.body is Empty,
    {
        let query: Vec<(String, String)> = Vec::new();
        assert(pair_texts(query@) =~= Seq::empty());
        AdminRequest {
            post: false,
            url: joined(self.base_url.as_str(), path),
            query,
            body: AdminBody::Empty,
        }
    }

    fn act(&self, path: &str, body: AdminBody) -> (r: AdminRequest)
        ensures
            r.post,
            r.url@ == self.base() + path@,
            pair_texts(r.query@) == Seq::<(Seq<char>, Seq<char>)>::empty(),
            r.body == body,
    {
        let mut request = self.get(path);
        request.post = true;
        request.body = body;
        request
    }

    /// The request that puts a call to the server.
    pub fn request(&self, call: &GatewayCall) -> (r: AdminRequest)
        ensures
            r.post == is_post(*call),
            r.url@ == self.base() + admin_path(*call),
            pair_texts(r.query@) == admin_pairs(*call),
            is_body_of(r.body, *call),
    {
        match call {
            GatewayCall::Snapshot => self.get("/api/v1/status"),
            GatewayCall::ListRoutes { .. } => self.get("/api/v1/routes"),
            GatewayCall::GetRoute { .. } => self.get("/api/v1/routes"),
            GatewayCall::ListCircuitBreakers { .. } => self.get("/api/v1/circuit-breakers"),
            GatewayCall::ListRateLimiters { .. } => self.get("/api/v1/rate-limiters"),
            GatewayCall::ListListeners => self.get("/api/v1/listeners"),
            GatewayCall::CacheStats => self.get("/api/v1/cache"),
            GatewayCall::MetricsSnapshot { .. } => self.get("/api/v1/metrics"),
            GatewayCall::Timeline { query } => {
                let mut request = self.get("/api/v1/timeline");
                request.query = temporal_query_pairs(query);
                request
            },
            GatewayCall::Diff { query } => {
                let mut request = self.get("/api/v1/diff");
                request.query = temporal_query_pairs(query);
                request
            },
            GatewayCall::DiagnoseSince { symptom, since_seconds, .. } => {
                let mut request = self.get("/api/v1/diagnose");
                request.post = true;
                request.query = diagnose_pairs(symptom.as_str(), *since_seconds);
                request
            },
            GatewayCall::DrainBackend { backend, timeout_secs } => {
                let timeout_secs: u64 = match timeout_secs {
                    Some(given) => *given,
                    None => DEFAULT_DRAIN_SECONDS,
                };
                self.act(
                    "/api/v1/backends/drain",
                    AdminBody::Drain { backend: backend.as_str().to_owned(), timeout_secs },
                )
            },
            GatewayCall::UndrainBackend { backend } => self.act(
                "/api/v1/backends/undrain",
                AdminBody::Undrain { backend: backend.as_str().to_owned() },
            ),
            GatewayCall::QuarantineBackend { backend, ttl_secs } => self.act(
                "/api/v1/backends/quarantine",
                AdminBody::Quarantine { backend: backend.as_str().to_owned(), ttl_secs: *ttl_secs },
            ),
        }
    }
}

/// The upper case of a text.
pub uninterp spec fn upper_text(s: Seq<char>) -> Seq<char>;

/// `str::to_uppercase` of std: the upper case follows from the text alone. The Unicode tables that
/// decide it are left unsaid.
#[verifier::external_body]
fn to_uppercase(s: &str) -> (r: String)
    ensures
        r@ == upper_text(s@),
{
    s.to_uppercase()
}

/// A route in a reply.
#[derive(Debug, Clone)]
pub struct RouteSnapshot<T> {
    pub method: String,
    pub pattern: String,
    /// What else the reply says of the route
    pub detail: T,
}

/// An item in a reply that is known by a text: a breaker by its state, a limiter by its route, a
/// metric by its name.
#[derive(Debug, Clone)]
pub struct Labelled<T> {
    pub label: String,
    /// What else the reply says of the item
    pub detail: T,
}

/// Whether a route is listed under a method, in upper case, and a path prefix.
pub open spec fn is_listed<T>(
    route: RouteSnapshot<T>,
    method: Option<Seq<char>>,
    path_prefix: Option<Seq<char>>,
) -> bool {
    &&& method matches Some(m) ==> route.method@ == m
    &&& path_prefix matches Some(p) ==> p.is_prefix_of(route.pattern@)
}

/// A text that may be missing.
pub open spec fn text_of_option(s: Option<&str>) -> Option<Seq<char>> {
    match s {
        Some(t) => Some(t@),
        None => None,
    }
}

/// The upper case of a text that may be missing.
pub open spec fn upper_option(s: Option<&str>) -> Option<Seq<char>> {
    match s {
        Some(t) => Some(upper_text(t@)),
        None => None,
    }
}

/// The routes, in their order, whose method is the given one and whose pattern begins with the
/// given prefix.
pub fn keep_routes<T>(
    routes: Vec<RouteSnapshot<T>>,
    method: Option<&str>,
    path_prefix: Option<&str>,
) -> (r: Vec<RouteSnapshot<T>>)
    ensures
        r@ == routes@.filter(
            |route: RouteSnapshot<T>|
                is_listed(route, text_of_option(method), text_of_option(path_prefix)),
        ),
{
    let ghost all = routes@;
    let ghost pred = |route: RouteSnapshot<T>|
        is_listed(route, text_of_option(method), text_of_option(path_prefix));
    let mut kept: Vec<RouteSnapshot<T>> = Vec::new();
    assert(all.take(0).filter(pred) =~= Seq::empty()) by {
        reveal(Seq::filter);
    }
    for route in it: routes.into_iter()
        invariant
            it.seq() == all,
            pred == (|route: RouteSnapshot<T>|
                is_listed(route, text_of_option(method), text_of_option(path_prefix))),
            kept@ == all.take(it.index() as int).filter(pred),
    {
        let ghost before = all.take(it.index() as int);
        proof {
            assert(all.take(it.index() + 1) =~= before.push(route));
            assert(before.push(route).drop_last() =~= before);
            reveal(Seq::filter);
        }
        let method_fits = match method {
            Some(m) => text_eq(route.method.as_str(), m),
            None => true,
        };
        let path_fits = match path_prefix {
            Some(p) => starts_with(route.pattern.as_str(), p),
            None => true,
        };
        if method_fits && path_fits {
            kept.push(route);
        }
    }
    assert(all.take(all.len() as int) =~= all);
    kept
}

/// The routes of a reply that a query asks for. The method is taken in upper case.
pub fn list_routes<T>(
    routes: Vec<RouteSnapshot<T>>,
    method_filter: Option<&str>,
    path_prefix: Option<&str>,
) -> (r: Vec<RouteSnapshot<T>>)
    ensures
        r@ == routes@.filter(
            |route: RouteSnapshot<T>|
                is_listed(route, upper_option(method_filter), text_of_option(path_prefix)),
        ),
{
    match method_filter {
        Some(m) => {
            let upper = to_uppercase(m);
            keep_routes(routes, Some(upper.as_str()), path_prefix)
        },
        None => keep_routes(routes, None, path_prefix),
    }
}

/// The first route of a reply with the given pattern.
pub fn get_route<T>(routes: Vec<RouteSnapshot<T>>, pattern: &str) -> (r: Option<RouteSnapshot<T>>)
    ensures
        match r {
            Some(route) => exists|i: int|
                #![trigger routes@[i]]
                0 <= i < routes@.len() && routes@[i] == route && route.pattern@ == pattern@ && (
                forall|j: int| 0 <= j < i ==> (#[trigger] routes@[j]).pattern@ != pattern@),
            None => forall|i: int|
                0 <= i < routes@.len() ==> (#[trigger] routes@[i]).pattern@ != pattern@,
        },
{
    let ghost all = routes@;
    for route in it: routes.into_iter()
        invariant
            it.seq() == all,
            all == routes@,
            forall|j: int| 0 <= j < it.index() ==> (#[trigger] all[j]).pattern@ != pattern@,
    {
        if text_eq(route.pattern.as_str(), pattern) {
            assert(route == all[it.index() as int]);
            return Some(route);
        }
    }
    None
}

/// The breakers of a reply, in their order, whose state is the given one whatever its case.
pub fn list_circuit_breakers<T>(
    breakers: Vec<Labelled<T>>,
    state_filter: Option<&str>,
) -> (r: Vec<Labelled<T>>)
    ensures
        r@ == breakers@.filter(
            |b: Labelled<T>|
                upper_option(state_filter) matches Some(state) ==> upper_text(b.label@) == state,
        ),
{
    let ghost all = breakers@;
    let ghost pred = |b: Labelled<T>|
        upper_option(state_filter) matches Some(state) ==> upper_text(b.label@) == state;
    let mut kept: Vec<Labelled<T>> = Vec::new();
    assert(all.take(0).filter(pred) =~= Seq::empty()) by {
        reveal(Seq::filter);
    }
    for item in it: breakers.into_iter()
        invariant
            it.seq() == all,
            pred == (|b: Labelled<T>|
                upper_option(state_filter) matches Some(state) ==> upper_text(b.label@) == state),
            kept@ == all.take(it.index() as int).filter(pred),
    {
        let ghost before = all.take(it.index() as int);
        proof {
            assert(all.take(it.index() + 1) =~= before.push(item));
            assert(before.push(item).drop_last() =~= before);
            reveal(Seq::filter);
        }
        let fits = match state_filter {
            Some(state) => text_eq(
                to_uppercase(item.label.as_str()).as_str(),
                to_uppercase(state).as_str(),
            ),
            None => true,
        };
        if fits {
            kept.push(item);
        }
    }
    assert(all.take(all.len() as int) =~= all);
    kept
}

/// The items, in their order, whose label holds the given text.
pub fn keep_holding<T>(items: Vec<Labelled<T>>, filter: Option<&str>) -> (r: Vec<Labelled<T>>)
    ensures
        r@ == items@.filter(
            |i: Labelled<T>| text_of_option(filter) matches Some(part) ==> holds(i.label@, part),
        ),
{
    let ghost all = items@;
    let ghost pred = |i: Labelled<T>|
        text_of_option(filter) matches Some(part) ==> holds(i.label@, part);
    let mut kept: Vec<Labelled<T>> = Vec::new();
    assert(all.take(0).filter(pred) =~= Seq::empty()) by {
        reveal(Seq::filter);
    }
    for item in it: items.into_iter()
        invariant
            it.seq() == all,
            pred == (|i: Labelled<T>|
                text_of_option(filter) matches Some(part) ==> holds(i.label@, part)),
            kept@ == all.take(it.index() as int).filter(pred),
    {
        let ghost before = all.take(it.index() as int);
        proof {
            assert(all.take(it.index() + 1) =~= before.push(item));
            assert(before.push(item).drop_last() =~= before);
            reveal(Seq::filter);
        }
        let fits = match filter {
            Some(part) => contains_text(item.label.as_str(), part),
            None => true,
        };
        if fits {
            kept.push(item);
        }
    }
    assert(all.take(all.len() as int) =~= all);
    kept
}

/// The limiters of a reply whose route holds the given text.
pub fn list_rate_limiters<T>(
    limiters: Vec<Labelled<T>>,
    route_filter: Option<&str>,
) -> (r: Vec<Labelled<T>>)
    ensures
        r@ == limiters@.filter(
            |i: Labelled<T>|
                text_of_option(route_filter) matches Some(part) ==> holds(i.label@, part),
        ),
{
    keep_holding(limiters, route_filter)
}

/// The metrics of a reply whose name holds the given text.
pub fn metrics_snapshot<T>(
    metrics: Vec<Labelled<T>>,
    metric_filter: Option<&str>,
) -> (r: Vec<Labelled<T>>)
    ensures
        r@ == metrics@.filter(
            |i: Labelled<T>|
                text_of_option(metric_filter) matches Some(part) ==> holds(i.label@, part),
        ),
{
    keep_holding(metrics, metric_filter)
}

/// The backends of the routes whose pattern holds a text, route after route.
pub open spec fn backends_of<B>(
    routes: Seq<RouteSnapshot<Vec<B>>>,
    filter: Option<Seq<char>>,
) -> Seq<B>
    decreases routes.len(),
{
    if routes.len() == 0 {
        Seq::empty()
    } else {
        let rest = backends_of(routes.drop_last(), filter);
        if filter matches Some(part) ==> holds(routes.last().pattern@, part) {
            rest + routes.last().detail@
        } else {
            rest
        }
    }
}

/// The backends of the routes whose pattern holds the given text.
pub fn backend_health<B>(routes: Vec<RouteSnapshot<Vec<B>>>, route_filter: Option<&str>) -> (r: Vec<
    B,
>)
    ensures
        r@ == backends_of(routes@, text_of_option(route_filter)),
{
    let ghost all = routes@;
    let mut backends: Vec<B> = Vec::new();
    for route in it: routes.into_iter()
        invariant
            it.seq() == all,
            backends@ == backends_of(all.take(it.index() as int), text_of_option(route_filter)),
    {
        let ghost before = all.take(it.index() as int);
        proof {
            assert(all.take(it.index() + 1) =~= before.push(route));
            assert(before.push(route).drop_last() =~= before);
        }
        let fits = match route_filter {
            Some(part) => contains_text(route.pattern.as_str(), part),
            None => true,
        };
        if fits {
            let mut detail = route.detail;
            backends.append(&mut detail);
        }
    }
    assert(all.take(all.len() as int) =~= all);
    backends
}

/// Calls that change the gateway or have it work are posted, and no others are; every call but the
/// two that read the routes has a path of its own.
pub proof fn lemma_calls_have_paths(call: GatewayCall)
    ensures
        match call {
            GatewayCall::Snapshot => admin_path(call) == "/api/v1/status"@ && !is_post(call),
            GatewayCall::ListRoutes { .. } => admin_path(call) == "/api/v1/routes"@ && !is_post(
                call,
            ),
            GatewayCall::GetRoute { .. } => admin_path(call) == "/api/v1/routes"@ && !is_post(call),
            GatewayCall::ListCircuitBreakers { .. } => admin_path(call)
                == "/api/v1/circuit-breakers"@ && !is_post(call),
            GatewayCall::ListRateLimiters { .. } => admin_path(call) == "/api/v1/rate-limiters"@
                && !is_post(call),
            GatewayCall::ListListeners => admin_path(call) == "/api/v1/listeners"@ && !is_post(call),
            GatewayCall::CacheStats => admin_path(call) == "/api/v1/cache"@ && !is_post(call),
            GatewayCall::MetricsSnapshot { .. } => admin_path(call) == "/api/v1/metrics"@
                && !is_post(call),
            GatewayCall::Timeline { .. } => admin_path(call) == "/api/v1/timeline"@ && !is_post(
                call,
            ),
            GatewayCall::Diff { .. } => admin_path(call) == "/api/v1/diff"@ && !is_post(call),
            GatewayCall::DiagnoseSince { .. } => admin_path(call) == "/api/v1/diagnose"@ && is_post(
                call,
            ),
            GatewayCall::DrainBackend { .. } => admin_path(call) == "/api/v1/backends/drain"@
                && is_post(call),
            GatewayCall::UndrainBackend { .. } => admin_path(call) == "/api/v1/backends/undrain"@
                && is_post(call),
            GatewayCall::QuarantineBackend { .. } => admin_path(call)
                == "/api/v1/backends/quarantine"@ && is_post(call),
        },
{
}

/// Every bound of a part of the history that is given reaches the server under its own name, with
/// its own number, and none that is not given does.
pub proof fn lemma_bounds_are_asked_for(query: TemporalQuery, name: Seq<char>, text: Seq<char>)
    ensures
        temporal_pairs(query).contains((name, text)) <==> {
            ||| name == "since_seconds"@ && query.since_seconds is Some && text == decimal(
                query.since_seconds->0 as nat,
            )
            ||| name == "from_sequence"@ && query.from_sequence is Some && text == decimal(
                query.from_sequence->0 as nat,
            )
            ||| name == "to_sequence"@ && query.to_sequence is Some && text == decimal(
                query.to_sequence->0 as nat,
            )
        },
{
    let a = number_pair("since_seconds"@, query.since_seconds);
    let b = number_pair("from_sequence"@, query.from_sequence);
    let c = number_pair("to_sequence"@, query.to_sequence);
    let all = temporal_pairs(query);
    assert(all == a + b + c);
    let pair = (name, text);
    if all.contains(pair) {
        let i = all.index_of(pair);
        if i < a.len() {
            assert(a[i] == pair);
        } else if i < a.len() + b.len() {
            assert(b[i - a.len()] == pair);
        } else {
            assert(c[i - a.len() - b.len()] == pair);
        }
    }
    if query.since_seconds is Some {
        assert(all[0] == a[0]);
    }
    if query.from_sequence is Some {
        assert(all[a.len() as int] == b[0]);
    }
    if query.to_sequence is Some {
        assert(all[(a.len() + b.len()) as int] == c[0]);
    }
}

/// What a call carries beyond its path: the history calls their bounds, a diagnosis its symptom first
/// and how far to look back, and the others nothing. The calls on a backend name it in their body;
/// a drain without a time takes thirty seconds.
pub proof fn lemma_calls_carry_what_they_ask(call: GatewayCall, body: AdminBody)
    requires
        is_body_of(body, call),
    ensures
        match call {
            GatewayCall::Timeline { query } => admin_pairs(call) == temporal_pairs(query),
            GatewayCall::Diff { query } => admin_pairs(call) == temporal_pairs(query),
            GatewayCall::DiagnoseSince { symptom, since_seconds, .. } => {
                &&& admin_pairs(call)[0] == ("symptom"@, symptom@)
                &&& since_seconds is None ==> admin_pairs(call).len() == 1
                &&& since_seconds matches Some(n) ==> admin_pairs(call).len() == 2 && admin_pairs(
                    call,
                )[1] == ("since_seconds"@, decimal(n as nat))
            },
            _ => admin_pairs(call).len() == 0,
        },
        match call {
            GatewayCall::DrainBackend { backend, timeout_secs } => {
                &&& body is Drain
                &&& body->Drain_backend@ == backend@
                &&& body->timeout_secs == if timeout_secs is Some {
                    timeout_secs->0
                } else {
                    30
                }
            },
            GatewayCall::UndrainBackend { backend } => body is Undrain && body->Undrain_backend@
                == backend@,
            GatewayCall::QuarantineBackend { backend, ttl_secs } => body is Quarantine
                && body->Quarantine_backend@ == backend@ && body->ttl_secs == ttl_secs,
            _ => body is Empty,
        },
{
}

/// A route is listed exactly if it has the method that is asked for, where one is, and its pattern
/// begins with the prefix that is asked for, where one is.
pub proof fn lemma_routes_are_listed<T>(
    route: RouteSnapshot<T>,
    method: Option<Seq<char>>,
    path_prefix: Option<Seq<char>>,
)
    ensures
        is_listed(route, None, None),
        is_listed(route, method, path_prefix) <==> is_listed(route, method, None) && is_listed(
            route,
            None,
            path_prefix,
        ),
        method matches Some(m) ==> (is_listed(route, method, None) <==> route.method@ == m),
        path_prefix matches Some(p) ==> (is_listed(route, None, path_prefix) <==> p.len()
            <= route.pattern@.len() && route.pattern@.subrange(0, p.len() as int) == p),
{
    match path_prefix {
        Some(p) => {
            if p.is_prefix_of(route.pattern@) {
                assert(route.pattern@.subrange(0, p.len() as int) =~= p);
            }
        },
        None => {},
    }
}

/// The backends of routes come route after route: those of one route are all of its own or, where
/// its pattern does not hold the text that is asked for, none; those of two lists are those of the
/// one and then those of the other.
pub proof fn lemma_backends_come_in_order<B>(
    a: Seq<RouteSnapshot<Vec<B>>>,
    b: Seq<RouteSnapshot<Vec<B>>>,
    route: RouteSnapshot<Vec<B>>,
    filter: Option<Seq<char>>,
)
    ensures
        backends_of(a + b, filter) == backends_of(a, filter) + backends_of(b, filter),
        backends_of(seq![route], None) == route.detail@,
        filter matches Some(part) ==> backends_of(seq![route], filter) == if holds(
            route.pattern@,
            part,
        ) {
            route.detail@
        } else {
            Seq::<B>::empty()
        },
    decreases b.len(),
{
    let one = seq![route];
    assert(one.drop_last() =~= Seq::empty());
    assert(backends_of(one.drop_last(), filter) =~= Seq::<B>::empty());
    assert(backends_of(one.drop_last(), None) =~= Seq::<B>::empty());
    assert(one.last() == route);
    assert(Seq::<B>::empty() + route.detail@ =~= route.detail@);
    if b.len() == 0 {
        assert(a + b =~= a);
    } else {
        assert((a + b).drop_last() =~= a + b.drop_last());
        assert((a + b).last() == b.last());
        lemma_backends_come_in_order(a, b.drop_last(), route, filter);
    }
}

/// A filter that is given counts as it is, or in upper case, and one that is not given does not
/// count.
pub proof fn lemma_filters_count_if_given(text: &str)
    ensures
        text_of_option(Some(text)) == Some(text@),
        text_of_option(None) is None,
        upper_option(Some(text)) == Some(upper_text(text@)),
        upper_option(None) is None,
{
}

} // verus!
