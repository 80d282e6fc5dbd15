//! Handling a request: where it goes, whether it may go there, and what the client is told.

use vstd::prelude::*;
use vstd::string::*;
use crate::address::Address;
use crate::backend::{address_of, socket_text, Backend, HttpMethod};
use crate::circuit_breaker::CircuitBreakerManager;
use crate::filters::{
    changes, RequestHeaderModifier, RequestRedirect, ResponseHeaderModifier, RetryConfig, Timeout,
};
use crate::forwarder::joined;
use crate::headers::{
    apply_request_filters, apply_response_filters, changed_all, header_text,
    header_value_error, header_values, read_header, room_for, valid_header_name, valid_header_value,
};
use crate::rate_limiter::RateLimiter;
use crate::router::{RouteMatch, Router};
use crate::text::{decimal, decimal_text, lower_text, starts_with, text_eq};

verus! {

/// Hands out workers in turn.
pub struct WorkerSelector {
    counter: usize,
    num_workers: usize,
}

impl WorkerSelector {
    /// How many requests have been given to workers, modulo the range of the counter.
    pub closed spec fn count(&self) -> usize {
        self.counter
    }

    /// The number of workers.
    pub closed spec fn workers(&self) -> usize {
        self.num_workers
    }

    /// A selector over so many workers, the first of which comes first.
    pub fn new(num_workers: usize) -> (r: Self)
        ensures
            r.count() == 0,
            r.workers() == num_workers,
    {
        WorkerSelector { counter: 0, num_workers }
    }

    /// The worker whose turn it is.
    pub fn select(&mut self) -> (r: usize)
        requires
            old(self).workers() > 0,
        ensures
            r == old(self).count() as int % old(self).workers() as int,
            r < old(self).workers(),
            final(self).count() == old(self).count().wrapping_add(1),
            final(self).workers() == old(self).workers(),
    {
        let current: usize = self.counter;
        self.counter = current.wrapping_add(1);
        current % self.num_workers
    }
}

/// Workers take turns: after one worker comes the next, and after the last the first again.
pub proof fn lemma_workers_take_turns(count: usize, workers: usize)
    requires
        workers > 0,
        count < usize::MAX,
    ensures
        count.wrapping_add(1) as int % workers as int == (count as int % workers as int + 1)
            % workers as int,
{
    let n = workers as int;
    vstd::arithmetic::div_mod::lemma_add_mod_noop(count as int, 1, n);
    vstd::arithmetic::div_mod::lemma_add_mod_noop(count as int % n, 1, n);
    vstd::arithmetic::div_mod::lemma_mod_twice(count as int, n);
}

/// The text of a method.
pub open spec fn method_text(method: HttpMethod) -> Seq<char> {
    match method {
        HttpMethod::GET => "GET"@,
        HttpMethod::POST => "POST"@,
        HttpMethod::PUT => "PUT"@,
        HttpMethod::DELETE => "DELETE"@,
        HttpMethod::HEAD => "HEAD"@,
        HttpMethod::OPTIONS => "OPTIONS"@,
        HttpMethod::PATCH => "PATCH"@,
        HttpMethod::ALL => "ALL"@,
    }
}

/// The text of a method.
pub fn method_to_str(method: &HttpMethod) -> (r: &'static str)
    ensures
        r@ == method_text(*method),
{
    match method {
        HttpMethod::GET => "GET",
        HttpMethod::POST => "POST",
        HttpMethod::PUT => "PUT",
        HttpMethod::DELETE => "DELETE",
        HttpMethod::HEAD => "HEAD",
        HttpMethod::OPTIONS => "OPTIONS",
        HttpMethod::PATCH => "PATCH",
        HttpMethod::ALL => "ALL",
    }
}

/// The method that a request's method text names, where the gateway routes on it.
pub open spec fn known_method(text: Seq<char>) -> Option<HttpMethod> {
    if text == "GET"@ {
        Some(HttpMethod::GET)
    } else if text == "POST"@ {
        Some(HttpMethod::POST)
    } else if text == "PUT"@ {
        Some(HttpMethod::PUT)
    } else if text == "DELETE"@ {
        Some(HttpMethod::DELETE)
    } else if text == "HEAD"@ {
        Some(HttpMethod::HEAD)
    } else if text == "OPTIONS"@ {
        Some(HttpMethod::OPTIONS)
    } else if text == "PATCH"@ {
        Some(HttpMethod::PATCH)
    } else {
        None
    }
}

/// The method that a request's method text names.
pub fn parse_method(text: &str) -> (r: Option<HttpMethod>)
    ensures
        r == known_method(text@),
{
    if text_eq(text, "GET") {
        Some(HttpMethod::GET)
    } else if text_eq(text, "POST") {
        Some(HttpMethod::POST)
    } else if text_eq(text, "PUT") {
        Some(HttpMethod::PUT)
    } else if text_eq(text, "DELETE") {
        Some(HttpMethod::DELETE)
    } else if text_eq(text, "HEAD") {
        Some(HttpMethod::HEAD)
    } else if text_eq(text, "OPTIONS") {
        Some(HttpMethod::OPTIONS)
    } else if text_eq(text, "PATCH") {
        Some(HttpMethod::PATCH)
    } else {
        None
    }
}

/// The label of a status: its number for common ones, else `other`.
pub open spec fn status_label(status: u16) -> Seq<char> {
    if status == 200 || status == 201 || status == 204 || status == 301 || status == 302 || status
        == 304 || status == 400 || status == 401 || status == 403 || status == 404 || status == 500
        || status == 502 || status == 503 || status == 504 {
        decimal(status as nat)
    } else {
        "other"@
    }
}

proof fn lemma_three_digits(n: nat)
    requires
        100 <= n <= 999,
    ensures
        decimal(n) == seq![
            crate::text::digit(n / 100),
            crate::text::digit((n / 10) % 10),
            crate::text::digit(n % 10),
        ],
{
    assert(decimal(n) == decimal(n / 10).push(crate::text::digit(n % 10)));
    assert(decimal(n / 10) == decimal(n / 10 / 10).push(crate::text::digit((n / 10) % 10)));
    assert(decimal(n / 10 / 10) == seq![crate::text::digit(n / 10 / 10)]);
    assert(decimal(n) =~= seq![
        crate::text::digit(n / 100),
        crate::text::digit((n / 10) % 10),
        crate::text::digit(n % 10),
    ]);
}

/// The label of a status, as metrics show it.
pub fn status_to_str(status: u16) -> (r: &'static str)
    ensures
        r@ == status_label(status),
{
    let label: &'static str = match status {
        200 => "200",
        201 => "201",
        204 => "204",
        301 => "301",
        302 => "302",
        304 => "304",
        400 => "400",
        401 => "401",
        403 => "403",
        404 => "404",
        500 => "500",
        502 => "502",
        503 => "503",
        504 => "504",
        _ => "other",
    };
    proof {
        reveal_strlit("200");
        reveal_strlit("201");
        reveal_strlit("204");
        reveal_strlit("301");
        reveal_strlit("302");
        reveal_strlit("304");
        reveal_strlit("400");
        reveal_strlit("401");
        reveal_strlit("403");
        reveal_strlit("404");
        reveal_strlit("500");
        reveal_strlit("502");
        reveal_strlit("503");
        reveal_strlit("504");
        if 100 <= status <= 999 {
            lemma_three_digits(status as nat);
        }
        assert(label@ =~= status_label(status));
    }
    label
}

/// An answer that the gateway gives itself.
pub struct Reply {
    pub status: u16,
    pub headers: Vec<(String, String)>,
    pub body: String,
}

/// An answer over plain texts.
pub ghost struct ReplyView {
    pub status: u16,
    pub headers: Seq<(Seq<char>, Seq<char>)>,
    pub body: Seq<char>,
}

impl View for Reply {
    type V = ReplyView;

    open spec fn view(&self) -> ReplyView {
        ReplyView {
            status: self.status,
            headers: Seq::new(
                self.headers@.len(),
                |i: int| (self.headers@[i].0@, self.headers@[i].1@),
            ),
            body: self.body@,
        }
    }
}

/// An answer without headers.
pub(crate) fn plain_reply(status: u16, body: &str) -> (r: Reply)
    ensures
        r@ == (ReplyView { status, headers: Seq::empty(), body: body@ }),
{
    let r = Reply { status, headers: Vec::new(), body: body.to_owned() };
    assert(r@.headers =~= Seq::<(Seq<char>, Seq<char>)>::empty());
    r
}

/// An answer with one header.
fn reply_with(status: u16, name: &str, value: &str, body: &str) -> (r: Reply)
    ensures
        r@ == (ReplyView { status, headers: seq![(name@, value@)], body: body@ }),
{
    let mut headers: Vec<(String, String)> = Vec::new();
    headers.push((name.to_owned(), value.to_owned()));
    let r = Reply { status, headers, body: body.to_owned() };
    assert(r@.headers =~= seq![(name@, value@)]);
    r
}

/// An answer with two headers.
fn reply_with_two(
    status: u16,
    name: &str,
    value: &str,
    name2: &str,
    value2: &str,
    body: &str,
) -> (r: Reply)
    ensures
        r@ == (ReplyView {
            status,
            headers: seq![(name@, value@), (name2@, value2@)],
            body: body@,
        }),
{
    let mut headers: Vec<(String, String)> = Vec::new();
    headers.push((name.to_owned(), value.to_owned()));
    headers.push((name2.to_owned(), value2.to_owned()));
    let r = Reply { status, headers, body: body.to_owned() };
    assert(r@.headers =~= seq![(name@, value@), (name2@, value2@)]);
    r
}

/// An error answer.
pub open spec fn error_reply(status: u16, message: Seq<char>) -> ReplyView {
    ReplyView { status, headers: seq![("Content-Type"@, "text/plain"@)], body: message }
}

/// The answer where no route matches.
pub open spec fn not_found_reply(request_id: Seq<char>) -> ReplyView {
    ReplyView { status: 404, headers: seq![("X-Request-ID"@, request_id)], body: "Not Found"@ }
}

/// The answer where a route's limit is reached.
pub open spec fn rate_limit_reply() -> ReplyView {
    ReplyView {
        status: 429,
        headers: seq![("Content-Type"@, "text/plain"@), ("Retry-After"@, "1"@)],
        body: "Rate limit exceeded"@,
    }
}

/// The answer where a backend is left alone.
pub open spec fn circuit_breaker_reply() -> ReplyView {
    ReplyView {
        status: 503,
        headers: seq![("Content-Type"@, "text/plain"@), ("Retry-After"@, "30"@)],
        body: "Backend temporarily unavailable (circuit breaker open)"@,
    }
}

/// The status for an error text: a timeout is told apart by how the text begins.
pub open spec fn error_status(error: Seq<char>) -> u16 {
    if "TIMEOUT:"@.is_prefix_of(error) {
        504
    } else {
        500
    }
}

/// The answer where forwarding failed.
pub open spec fn failure_reply(error: Seq<char>, request_id: Seq<char>) -> ReplyView {
    ReplyView {
        status: error_status(error),
        headers: seq![("Content-Type"@, "text/plain"@), ("X-Request-ID"@, request_id)],
        body: error,
    }
}

/// Builds an error answer.
pub fn build_error_response(status: u16, message: &str) -> (r: Reply)
    ensures
        r@ == error_reply(status, message@),
{
    reply_with(status, "Content-Type", "text/plain", message)
}

/// Builds the answer where no route matches.
pub fn build_not_found_response(request_id: &str) -> (r: Reply)
    ensures
        r@ == not_found_reply(request_id@),
{
    reply_with(404, "X-Request-ID", request_id, "Not Found")
}

/// Builds the answer where a route's limit is reached.
pub fn build_rate_limit_response() -> (r: Reply)
    ensures
        r@ == rate_limit_reply(),
{
    reply_with_two(429, "Content-Type", "text/plain", "Retry-After", "1", "Rate limit exceeded")
}

/// Builds the answer where a backend is left alone.
pub fn build_circuit_breaker_response() -> (r: Reply)
    ensures
        r@ == circuit_breaker_reply(),
{
    reply_with_two(
        503,
        "Content-Type",
        "text/plain",
        "Retry-After",
        "30",
        "Backend temporarily unavailable (circuit breaker open)",
    )
}

/// The status for an error text.
fn status_of_error(error: &str) -> (r: u16)
    ensures
        r == error_status(error@),
{
    if starts_with(error, "TIMEOUT:") {
        504
    } else {
        500
    }
}

/// Builds the answer where forwarding failed.
pub fn error_to_response(error: &str, request_id: &str) -> (r: Reply)
    ensures
        r@ == failure_reply(error@, request_id@),
{
    reply_with_two(
        status_of_error(error),
        "Content-Type",
        "text/plain",
        "X-Request-ID",
        request_id,
        error,
    )
}

/// The head of a request: its method, the parts of its target, and its headers.
pub struct RequestHead {
    pub method: String,
    pub scheme: Option<String>,
    pub authority: Option<String>,
    pub host: Option<String>,
    pub port: Option<u16>,
    pub path: String,
    pub path_and_query: Option<String>,
    pub headers: hyper::header::HeaderMap<hyper::header::HeaderValue>,
}

/// The text of an optional text, or a default.
pub open spec fn text_or(a: Option<String>, b: Option<Seq<char>>) -> Option<Seq<char>> {
    match a {
        Some(s) => Some(s@),
        None => b,
    }
}

/// The host that a redirect leads to: its own, else the target's, else that of the host header.
pub open spec fn redirect_host(head: &RequestHead, redirect: &RequestRedirect) -> Option<Seq<char>> {
    text_or(
        redirect.hostname,
        text_or(head.host, header_text(header_values(head.headers), "host"@)),
    )
}

/// The location that a redirect to a host leads to: scheme, port and path are the redirect's own,
/// else the target's; without any the scheme is `http` and there is no port.
pub open spec fn redirect_location(
    head: &RequestHead,
    redirect: &RequestRedirect,
    host: Seq<char>,
) -> Seq<char> {
    let scheme = match text_or(redirect.scheme, text_or(head.scheme, None)) {
        Some(s) => s,
        None => "http"@,
    };
    let port = match redirect.port {
        Some(p) => ":"@ + decimal(p as nat),
        None => match head.port {
            Some(p) => ":"@ + decimal(p as nat),
            None => Seq::empty(),
        },
    };
    let path = match redirect.path {
        Some(p) => p@,
        None => head.path@,
    };
    scheme + "://"@ + host + port + path
}

/// A redirect answer, or why there is none.
pub open spec fn redirected(
    head: &RequestHead,
    redirect: &RequestRedirect,
) -> Result<ReplyView, Seq<char>> {
    match redirect_host(head, redirect) {
        None => Err("Cannot determine redirect host"@),
        Some(host) => {
            let location = redirect_location(head, redirect, host);
            if valid_header_value(location) {
                Ok(
                    ReplyView {
                        status: redirect.status_code.status(),
                        headers: seq![("Location"@, location)],
                        body: Seq::empty(),
                    },
                )
            } else {
                Err("Failed to build redirect response: "@ + "failed to parse header value"@)
            }
        },
    }
}

proof fn lemma_host_is_header_name()
    ensures
        valid_header_name("host"@),
        lower_text("host"@) == "host"@,
{
    reveal_strlit("host");
    assert(lower_text("host"@) =~= "host"@);
}

/// The host of a redirect.
fn find_redirect_host(head: &RequestHead, redirect: &RequestRedirect) -> (r: Option<String>)
    ensures
        match redirect_host(head, redirect) {
            Some(h) => r is Some && r->0@ == h,
            None => r is None,
        },
{
    match &redirect.hostname {
        Some(h) => Some(h.clone()),
        None => match &head.host {
            Some(h) => Some(h.clone()),
            None => {
                proof {
                    lemma_host_is_header_name();
                }
                read_header(&head.headers, "host")
            },
        },
    }
}

/// Builds a redirect answer.
pub fn build_redirect_response(head: &RequestHead, redirect: &RequestRedirect) -> (r: Result<
    Reply,
    String,
>)
    ensures
        match redirected(head, redirect) {
            Ok(reply) => r is Ok && r->Ok_0@ == reply,
            Err(text) => r is Err && r->Err_0@ == text,
        },
{
    let host = match find_redirect_host(head, redirect) {
        Some(h) => h,
        None => {
            return Err("Cannot determine redirect host".to_owned());
        },
    };
    let mut location: String = match &redirect.scheme {
        Some(s) => s.clone(),
        None => match &head.scheme {
            Some(s) => s.clone(),
            None => "http".to_owned(),
        },
    };
    location.append("://");
    location.append(host.as_str());
    let port: Option<u16> = match redirect.port {
        Some(p) => Some(p),
        None => head.port,
    };
    match port {
        Some(p) => {
            location.append(":");
            let digits = decimal_text(p as u64);
            location.append(digits.as_str());
        },
        None => {},
    }
    match &redirect.path {
        Some(p) => location.append(p.as_str()),
        None => location.append(head.path.as_str()),
    }
    assert(location@ =~= redirect_location(head, redirect, host@));
    match header_value_error(location.as_str()) {
        Some(why) => Err(joined("Failed to build redirect response: ", why.as_str())),
        None => {
            let r = reply_with(redirect.status_code.as_u16(), "Location", location.as_str(), "");
            proof {
                reveal_strlit("");
                assert(r@.body =~= Seq::<char>::empty());
            }
            Ok(r)
        },
    }
}

/// Whether a text is a random request identifier: thirty-two lower-case hexadecimal digits in five
/// groups between hyphens, with the version and variant digits of a random identifier.
pub open spec fn is_uuid_text(s: Seq<char>) -> bool {
    &&& s.len() == 36
    &&& forall|i: int|
        0 <= i < s.len() ==> if i == 8 || i == 13 || i == 18 || i == 23 {
            (#[trigger] s[i]) == '-'
        } else {
            '0' <= s[i] <= '9' || 'a' <= s[i] <= 'f'
        }
    &&& s[14] == '4'
    &&& s[19] == '8' || s[19] == '9' || s[19] == 'a' || s[19] == 'b'
}

/// `uuid::Uuid::new_v4` and its hyphenated text: a random identifier of version 4, in lower-case
/// hexadecimal.
#[verifier::external_body]
pub(crate) fn random_id() -> (r: String)
    ensures
        is_uuid_text(r@),
{
    uuid::Uuid::new_v4().to_string()
}

/// The identifier of a request: the client's, else one of the gateway's own.
pub fn choose_request_id(from_client: Option<String>, generated: String) -> (r: String)
    ensures
        r@ == match from_client {
            Some(id) => id@,
            None => generated@,
        },
{
    match from_client {
        Some(id) => id,
        None => generated,
    }
}

/// The identifier of a request: that of its `x-request-id` header, where it is visible text, else
/// a random one.
pub fn request_id(headers: &hyper::header::HeaderMap<hyper::header::HeaderValue>) -> (r: String)
    ensures
        match header_text(header_values(*headers), "x-request-id"@) {
            Some(id) => r@ == id,
            None => is_uuid_text(r@),
        },
{
    proof {
        reveal_strlit("x-request-id");
        assert(lower_text("x-request-id"@) =~= "x-request-id"@);
    }
    match read_header(headers, "x-request-id") {
        Some(id) => id,
        None => choose_request_id(None, random_id()),
    }
}

/// How a request is forwarded.
pub struct ForwardPlan {
    pub backend: Backend,
    /// The backend's `address:port`, by which its breaker is known
    pub backend_id: String,
    /// The path of the route
    pub pattern: String,
    pub worker_index: Option<usize>,
    pub response_filters: Option<ResponseHeaderModifier>,
    pub timeout: Option<Timeout>,
    pub retry: Option<RetryConfig>,
}

/// What answered a request in place of its backend.
#[derive(Debug, Clone, Copy, PartialEq, Eq, Structural)]
pub enum AnsweredBy {
    /// The request itself: it is malformed, or no route matches
    Routing,
    /// A redirect of the route
    Redirect,
    /// The rate limit of the route
    RateLimit,
    /// A header change of the route that cannot be made
    Filter,
    /// The breaker of the backend
    Breaker,
    /// The address of the backend, which cannot be used
    Address,
}

impl AnsweredBy {
    /// What the route's limiter said before this answer; `None` where it was not asked.
    pub open spec fn limiter_verdict(self) -> Option<bool> {
        match self {
            AnsweredBy::Routing | AnsweredBy::Redirect => None,
            AnsweredBy::RateLimit => Some(false),
            AnsweredBy::Filter | AnsweredBy::Breaker | AnsweredBy::Address => Some(true),
        }
    }

    /// What the backend's breaker said before this answer; `None` where it was not asked.
    pub open spec fn breaker_verdict(self) -> Option<bool> {
        match self {
            AnsweredBy::Breaker => Some(false),
            AnsweredBy::Address => Some(true),
            _ => None,
        }
    }

    /// What the route's limiter said, as metrics count it.
    pub fn limiter_said(&self) -> (r: Option<bool>)
        ensures
            r == self.limiter_verdict(),
    {
        match self {
            AnsweredBy::Routing | AnsweredBy::Redirect => None,
            AnsweredBy::RateLimit => Some(false),
            AnsweredBy::Filter | AnsweredBy::Breaker | AnsweredBy::Address => Some(true),
        }
    }

    /// What the backend's breaker said, as metrics count it.
    pub fn breaker_said(&self) -> (r: Option<bool>)
        ensures
            r == self.breaker_verdict(),
    {
        match self {
            AnsweredBy::Breaker => Some(false),
            AnsweredBy::Address => Some(true),
            _ => None,
        }
    }
}

/// What is done with a request.
pub enum Decision {
    /// Serve the metrics
    ServeMetrics,
    /// No route matches: answer so
    NotFound(Reply),
    /// Answer without asking a backend
    Answer(Reply, AnsweredBy),
    /// Ask a backend
    Forward(ForwardPlan),
}

/// Whether a plan forwards to the backend of a route match, by a worker.
pub open spec fn plans(plan: ForwardPlan, m: RouteMatch, worker: Option<usize>) -> bool {
    &&& plan.backend == m.backend
    &&& plan.backend_id@ == socket_text(m.backend)
    &&& plan.pattern == m.pattern
    &&& plan.worker_index == worker
    &&& plan.response_filters == m.response_filters
    &&& plan.timeout == m.timeout
    &&& plan.retry == m.retry
}

/// The headers of a request after a route's changes, and the error at which they stopped.
pub open spec fn filtered(
    headers: Map<Seq<char>, Seq<Seq<u8>>>,
    filters: Option<RequestHeaderModifier>,
) -> (Map<Seq<char>, Seq<Seq<u8>>>, Option<Seq<char>>) {
    match filters {
        Some(f) => changed_all(headers, changes(f.operations@), 0),
        None => (headers, None),
    }
}

/// Everything that decides on a matched request, and that the decision may change.
pub ghost struct Gate {
    pub head: RequestHead,
    pub limiter: RateLimiter,
    pub breakers: CircuitBreakerManager,
}

/// Whether a decision on a matched request, and what it changed, are right: a redirect answers at
/// once; then the route's rate limit, its header changes and the backend's breaker may each end
/// the request; else it is forwarded.
pub open spec fn admitted(
    m: RouteMatch,
    worker: Option<usize>,
    now: u64,
    pre: Gate,
    post: Gate,
    r: Decision,
) -> bool {
    let id = socket_text(m.backend);
    match m.redirect {
        Some(redirect) => {
            &&& post == pre
            &&& r is Answer
            &&& r->Answer_1 == AnsweredBy::Redirect
            &&& r->Answer_0@ == match redirected(&pre.head, &redirect) {
                Ok(reply) => reply,
                Err(text) => error_reply(500, "Redirect error: "@ + text),
            }
        },
        None => {
            let permitted = pre.limiter.permits(m.pattern@, now);
            let (headers, error) = filtered(header_values(pre.head.headers), m.request_filters);
            &&& RateLimiter::checked(pre.limiter, post.limiter, m.pattern@, now, permitted)
            &&& if !permitted {
                &&& post.head == pre.head
                &&& post.breakers == pre.breakers
                &&& r is Answer
                &&& r->Answer_1 == AnsweredBy::RateLimit
                &&& r->Answer_0@ == rate_limit_reply()
            } else {
                &&& post.head == (RequestHead { headers: post.head.headers, ..pre.head })
                &&& header_values(post.head.headers) == headers
                &&& match error {
                    Some(text) => {
                        &&& post.breakers == pre.breakers
                        &&& r is Answer
                        &&& r->Answer_1 == AnsweredBy::Filter
                        &&& r->Answer_0@ == error_reply(500, "Filter error: "@ + text)
                    },
                    None => {
                        &&& CircuitBreakerManager::changed_to(
                            pre.breakers,
                            post.breakers,
                            id,
                            pre.breakers.of(id).asked(now),
                        )
                        &&& if pre.breakers.of(id).allows(now) {
                            r is Forward && plans(r->Forward_0, m, worker)
                        } else {
                            &&& r is Answer
                            &&& r->Answer_1 == AnsweredBy::Breaker
                            &&& r->Answer_0@ == circuit_breaker_reply()
                        }
                    },
                }
            }
        },
    }
}

/// Decides on a request whose route is known.
pub fn check_request(
    m: RouteMatch,
    worker: Option<usize>,
    head: &mut RequestHead,
    limiter: &mut RateLimiter,
    breakers: &mut CircuitBreakerManager,
    now: u64,
) -> (r: Decision)
    requires
        old(limiter).wf(),
        old(breakers).wf(),
        match m.request_filters {
            Some(f) => room_for(header_values(old(head).headers), f.operations@.len()),
            None => true,
        },
    ensures
        admitted(
            m,
            worker,
            now,
            (Gate { head: *old(head), limiter: *old(limiter), breakers: *old(breakers) }),
            (Gate { head: *final(head), limiter: *final(limiter), breakers: *final(breakers) }),
            r,
        ),
        final(limiter).wf(),
        final(breakers).wf(),
{
    match &m.redirect {
        Some(redirect) => {
            return match build_redirect_response(head, redirect) {
                Ok(reply) => Decision::Answer(reply, AnsweredBy::Redirect),
                Err(e) => {
                    let text = joined("Redirect error: ", e.as_str());
                    Decision::Answer(
                        build_error_response(500, text.as_str()),
                        AnsweredBy::Redirect,
                    )
                },
            };
        },
        None => {},
    }
    if !limiter.check_rate_limit(m.pattern.as_str(), now) {
        return Decision::Answer(build_rate_limit_response(), AnsweredBy::RateLimit);
    }
    match &m.request_filters {
        Some(filters) => {
            match apply_request_filters(&mut head.headers, filters) {
                Ok(_) => {},
                Err(e) => {
                    let text = joined("Filter error: ", e.as_str());
                    return Decision::Answer(
                        build_error_response(500, text.as_str()),
                        AnsweredBy::Filter,
                    );
                },
            }
        },
        None => {},
    }
    let backend_id = m.backend.socket_addr();
    if !breakers.allow_request(backend_id.as_str(), now) {
        return Decision::Answer(build_circuit_breaker_response(), AnsweredBy::Breaker);
    }
    Decision::Forward(
        ForwardPlan {
            backend: m.backend,
            backend_id,
            pattern: m.pattern,
            worker_index: worker,
            response_filters: m.response_filters,
            timeout: m.timeout,
            retry: m.retry,
        },
    )
}

/// The method on which a request is routed: one that the gateway does not know counts as `GET`.
pub open spec fn routed_method(text: Seq<char>) -> HttpMethod {
    match known_method(text) {
        Some(m) => m,
        None => HttpMethod::GET,
    }
}

/// Whether a request asks for the metrics.
pub open spec fn asks_metrics(head: RequestHead) -> bool {
    head.path@ == "/metrics"@ && head.method@ == "GET"@
}

/// The worker whose turn it is, where there are workers.
pub open spec fn turn(selector: Option<WorkerSelector>) -> Option<usize> {
    match selector {
        Some(s) => Some((s.count() as int % s.workers() as int) as usize),
        None => None,
    }
}

/// Decides on a request: the metrics are served, a request without route is told so, and a matched
/// request takes a worker and is decided on by its route.
pub fn handle_request(
    head: &mut RequestHead,
    request_id: &str,
    router: &Router,
    selector: &mut Option<WorkerSelector>,
    limiter: &mut RateLimiter,
    breakers: &mut CircuitBreakerManager,
    now: u64,
) -> (r: Decision)
    requires
        router.wf(),
        old(limiter).wf(),
        old(breakers).wf(),
        *old(selector) matches Some(s) ==> s.workers() > 0,
        exists|n: nat| #[trigger]
            router.filters_within(n) && room_for(header_values(old(head).headers), n),
    ensures
        final(limiter).wf(),
        final(breakers).wf(),
        ({
            let pre = Gate { head: *old(head), limiter: *old(limiter), breakers: *old(breakers) };
            let post = Gate {
                head: *final(head),
                limiter: *final(limiter),
                breakers: *final(breakers),
            };
            let method = routed_method(old(head).method@);
            if asks_metrics(*old(head)) {
                r is ServeMetrics && post == pre && *final(selector) == *old(selector)
            } else {
                exists|m: Option<RouteMatch>| #[trigger]
                    router.selection(method, old(head).path@, None, None, m) && match m {
                        None => {
                            &&& post == pre
                            &&& *final(selector) == *old(selector)
                            &&& r is NotFound
                            &&& r->NotFound_0@ == not_found_reply(request_id@)
                        },
                        Some(found) => {
                            &&& admitted(found, turn(*old(selector)), now, pre, post, r)
                            &&& *final(selector) is Some <==> *old(selector) is Some
                            &&& match (*old(selector), *final(selector)) {
                                (Some(a), Some(b)) => b.count() == a.count().wrapping_add(1)
                                    && b.workers() == a.workers(),
                                _ => true,
                            }
                        },
                    }
            }
        }),
{
    if text_eq(head.path.as_str(), "/metrics") && text_eq(head.method.as_str(), "GET") {
        return Decision::ServeMetrics;
    }
    let method = match parse_method(head.method.as_str()) {
        Some(m) => m,
        None => HttpMethod::GET,
    };
    let selection = router.select_backend(method, head.path.as_str(), None, None);
    let ghost chosen = selection;
    match selection {
        None => Decision::NotFound(build_not_found_response(request_id)),
        Some(m) => {
            let worker: Option<usize> = match selector {
                Some(s) => Some(s.select()),
                None => None,
            };
            proof {
                let i = router.route_of(method, head.path@)->0;
                let n = choose|n: nat| #[trigger]
                    router.filters_within(n) && room_for(header_values(old(head).headers), n);
                assert(crate::router::operation_count(router.routes()[i].request_filters) <= n);
                assert(router.selection(method, old(head).path@, None, None, chosen));
            }
            check_request(m, worker, head, limiter, breakers, now)
        },
    }
}

/// The labels under which a request is counted.
pub struct RequestLabels {
    pub method: String,
    pub route: String,
    pub status: String,
    pub worker: String,
}

/// The labels over plain texts.
pub ghost struct LabelsView {
    pub method: Seq<char>,
    pub route: Seq<char>,
    pub status: Seq<char>,
    pub worker: Seq<char>,
}

impl View for RequestLabels {
    type V = LabelsView;

    open spec fn view(&self) -> LabelsView {
        LabelsView {
            method: self.method@,
            route: self.route@,
            status: self.status@,
            worker: self.worker@,
        }
    }
}

/// The status that a forwarded request counts with: that of its response, else that of its error.
pub open spec fn counted_status(outcome: Result<u16, String>) -> u16 {
    match outcome {
        Ok(status) => status,
        Err(text) => error_status(text@),
    }
}

/// Whether a forwarded request counts as a failure of its backend.
pub open spec fn counts_as_failure(outcome: Result<u16, String>) -> bool {
    match outcome {
        Ok(status) => status >= 500,
        Err(_) => true,
    }
}

/// The label of a worker.
pub open spec fn worker_label(worker: Option<usize>) -> Seq<char> {
    match worker {
        Some(i) => decimal(i as nat),
        None => "none"@,
    }
}

/// Records how a forwarded request ended: with the backend's passive health, with its breaker, and
/// under which labels it counts.
pub fn record_request_metrics(
    outcome: &Result<u16, String>,
    method: HttpMethod,
    pattern: &str,
    worker: Option<usize>,
    backend: Backend,
    router: &mut Router,
    breakers: &mut CircuitBreakerManager,
    now: u64,
) -> (r: RequestLabels)
    requires
        old(router).wf(),
        old(breakers).wf(),
    ensures
        r@ == (LabelsView {
            method: method_text(method),
            route: pattern@,
            status: status_label(counted_status(*outcome)),
            worker: worker_label(worker),
        }),
        final(router).wf(),
        final(router).window_of(address_of(backend)) == crate::router::window_after(
            old(router).window_of(address_of(backend)),
            counted_status(*outcome),
        ),
        forall|k: Address|
            k != address_of(backend) ==> (#[trigger] final(router).window_of(k)) == old(
                router,
            ).window_of(k),
        final(router).draining() == old(router).draining(),
        final(router).keys() == old(router).keys(),
        final(router).routes() == old(router).routes(),
        final(router).prefixes() == old(router).prefixes(),
        ({
            let id = socket_text(backend);
            CircuitBreakerManager::changed_to(
                *old(breakers),
                *final(breakers),
                id,
                if counts_as_failure(*outcome) {
                    old(breakers).of(id).failed(now)
                } else {
                    old(breakers).of(id).succeeded()
                },
            )
        }),
{
    let backend_id = backend.socket_addr();
    let worker_text: String = match worker {
        Some(i) => decimal_text(i as u64),
        None => "none".to_owned(),
    };
    let status: u16 = match outcome {
        Ok(code) => *code,
        Err(text) => status_of_error(text.as_str()),
    };
    let failed: bool = match outcome {
        Ok(code) => *code >= 500,
        Err(_) => true,
    };
    router.record_response(backend.address(), status);
    assert forall|k: Address| k != address_of(backend) implies (#[trigger] router.window_of(k)) == old(
        router,
    ).window_of(k) by {
        assert(router.health().dom().contains(k) == old(router).health().dom().contains(k));
        if old(router).health().contains_key(k) {
            assert(router.health()[k] == old(router).health()[k]);
        }
    }
    assert(router.health().dom().contains(address_of(backend)));
    if failed {
        breakers.record_failure(backend_id.as_str(), now);
    } else {
        breakers.record_success(backend_id.as_str());
    }
    RequestLabels {
        method: method_to_str(&method).to_owned(),
        route: pattern.to_owned(),
        status: status_to_str(status).to_owned(),
        worker: worker_text,
    }
}

/// The labels under which a request without route is counted.
pub fn record_not_found_metrics(method: HttpMethod) -> (r: RequestLabels)
    ensures
        r@ == (LabelsView {
            method: method_text(method),
            route: "not_found"@,
            status: "404"@,
            worker: "none"@,
        }),
{
    RequestLabels {
        method: method_to_str(&method).to_owned(),
        route: "not_found".to_owned(),
        status: "404".to_owned(),
        worker: "none".to_owned(),
    }
}

/// Prepares what goes back to the client. A response has the route's changes made to its headers
/// and goes back as it is, unless a change cannot be made; an error becomes an answer.
pub fn finalize_response(
    error: Option<String>,
    headers: &mut hyper::header::HeaderMap<hyper::header::HeaderValue>,
    filters: &Option<ResponseHeaderModifier>,
    request_id: &str,
) -> (r: Option<Reply>)
    requires
        match *filters {
            Some(f) => room_for(header_values(*old(headers)), f.operations@.len()),
            None => true,
        },
    ensures
        match (error, *filters) {
            (Some(text), _) => {
                &&& *final(headers) == *old(headers)
                &&& r is Some
                &&& r->0@ == failure_reply(text@, request_id@)
            },
            (None, None) => *final(headers) == *old(headers) && r is None,
            (None, Some(f)) => {
                let (after, bad) = changed_all(
                    header_values(*old(headers)),
                    changes(f.operations@),
                    0,
                );
                &&& header_values(*final(headers)) == after
                &&& match bad {
                    Some(text) => r is Some && r->0@ == error_reply(
                        500,
                        "Response filter error: "@ + text,
                    ),
                    None => r is None,
                }
            },
        },
{
    match error {
        Some(text) => Some(error_to_response(text.as_str(), request_id)),
        None => match filters {
            Some(f) => match apply_response_filters(headers, f) {
                Ok(_) => None,
                Err(e) => {
                    let text = joined("Response filter error: ", e.as_str());
                    Some(build_error_response(500, text.as_str()))
                },
            },
            None => None,
        },
    }
}

/// The body of the metrics page: the encoded metrics, then the connection pools' where they could
/// be had, then the gateway index's on a line of its own where there are any.
pub open spec fn metrics_page(
    encoded: Seq<u8>,
    pools: Option<Seq<u8>>,
    index: Seq<u8>,
) -> Seq<u8> {
    encoded + (match pools {
        Some(p) => p,
        None => Seq::empty(),
    }) + (if index.len() > 0 {
        seq![10u8] + index
    } else {
        Seq::empty()
    })
}

/// Puts the metrics page together.
pub fn serve_metrics_endpoint(encoded: Vec<u8>, pools: Option<Vec<u8>>, index: Vec<u8>) -> (r: Vec<
    u8,
>)
    ensures
        r@ == metrics_page(
            encoded@,
            match pools {
                Some(p) => Some(p@),
                None => None,
            },
            index@,
        ),
{
    let mut page = encoded;
    match pools {
        Some(p) => {
            let mut text = p;
            page.append(&mut text);
        },
        None => {},
    }
    if index.len() > 0 {
        let mut text = index;
        page.push(10);
        page.append(&mut text);
    }
    assert(page@ =~= metrics_page(
        encoded@,
        match pools {
            Some(p) => Some(p@),
            None => None,
        },
        index@,
    ));
    page
}

/// The error texts of timeouts are answered with 504.
pub proof fn lemma_timeouts_are_gateway_timeouts(timeout: u64)
    ensures
        error_status(crate::retry::overall_timeout_text(timeout)) == 504,
        error_status(crate::forwarder::backend_timeout_text(timeout)) == 504,
{
    reveal_strlit("TIMEOUT:");
    reveal_strlit("TIMEOUT: Request exceeded ");
    reveal_strlit("TIMEOUT: Backend request exceeded ");
    let a = crate::retry::overall_timeout_text(timeout);
    let b = crate::forwarder::backend_timeout_text(timeout);
    assert(a.subrange(0, 8) =~= "TIMEOUT:"@);
    assert(b.subrange(0, 8) =~= "TIMEOUT:"@);
}

/// A request that is refused by its route's limit or by its backend's breaker is never forwarded,
/// and one that is refused by the limit does not touch the breaker. What an answer tells of the two
/// is what they said.
pub proof fn lemma_refused_is_not_forwarded(
    m: RouteMatch,
    worker: Option<usize>,
    now: u64,
    pre: Gate,
    post: Gate,
    r: Decision,
)
    requires
        admitted(m, worker, now, pre, post, r),
    ensures
        r is Forward ==> {
            &&& m.redirect is None
            &&& pre.limiter.permits(m.pattern@, now)
            &&& pre.breakers.of(socket_text(m.backend)).allows(now)
        },
        m.redirect is None && !pre.limiter.permits(m.pattern@, now) ==> post.breakers
            == pre.breakers && r->Answer_0@.status == 429,
        r is Answer ==> {
            &&& r->Answer_1.limiter_verdict() matches Some(allowed) ==> allowed
                == pre.limiter.permits(m.pattern@, now)
            &&& r->Answer_1.breaker_verdict() matches Some(allowed) ==> allowed
                == pre.breakers.of(socket_text(m.backend)).allows(now)
        },
{
}

/// Whether a location is made of a scheme, a host, a port where there is one, and a path.
pub open spec fn is_location(
    location: Seq<char>,
    scheme: Seq<char>,
    host: Seq<char>,
    port: Option<u16>,
    path: Seq<char>,
) -> bool {
    match port {
        Some(p) => location == scheme + "://"@ + host + ":"@ + decimal(p as nat) + path,
        None => location == scheme + "://"@ + host + path,
    }
}

/// What a redirect sets is what the client is sent to, each part on its own. The location begins
/// with the scheme that the redirect sets, goes on with the host and the port that it sets, and
/// ends with the path that it sets, whichever of the others it leaves open. A part that it leaves
/// open is taken over from the request, or else, for the scheme, is `http`.
pub proof fn lemma_redirect_sets_each_part(head: &RequestHead, redirect: &RequestRedirect)
    ensures
        match redirected(head, redirect) {
            Err(_) => true,
            Ok(reply) => {
                let location = reply.headers[0].1;
                let scheme = match (redirect.scheme, head.scheme) {
                    (Some(s), _) => s@,
                    (None, Some(s)) => s@,
                    (None, None) => "http"@,
                };
                let port = if redirect.port is Some {
                    redirect.port
                } else {
                    head.port
                };
                let path = match redirect.path {
                    Some(p) => p@,
                    None => head.path@,
                };
                &&& reply.headers.len() == 1
                &&& reply.headers[0].0 == "Location"@
                &&& reply.body.len() == 0
                &&& reply.status == match redirect.status_code {
                    crate::filters::RedirectStatusCode::MovedPermanently => 301u16,
                    crate::filters::RedirectStatusCode::Found => 302u16,
                }
                &&& redirect.scheme matches Some(s) ==> (s@ + "://"@).is_prefix_of(location)
                &&& redirect.hostname matches Some(h) ==> (scheme + "://"@ + h@).is_prefix_of(
                    location,
                ) && is_location(location, scheme, h@, port, path)
                &&& redirect.hostname is None ==> match head.host {
                    Some(h) => is_location(location, scheme, h@, port, path),
                    None => header_text(header_values(head.headers), "host"@) matches Some(h)
                        && is_location(location, scheme, h, port, path),
                }
                &&& redirect.port matches Some(p) ==> (":"@ + decimal(p as nat) + path).is_suffix_of(
                    location,
                )
                &&& redirect.path matches Some(p) ==> p@.is_suffix_of(location)
            },
        },
{
    match redirect_host(head, redirect) {
        None => {},
        Some(host) => {
            let location = redirect_location(head, redirect, host);
            let scheme = match (redirect.scheme, head.scheme) {
                (Some(s), _) => s@,
                (None, Some(s)) => s@,
                (None, None) => "http"@,
            };
            let port = if redirect.port is Some {
                redirect.port
            } else {
                head.port
            };
            let path = match redirect.path {
                Some(p) => p@,
                None => head.path@,
            };
            match port {
                Some(p) => {
                    assert(location =~= scheme + "://"@ + host + ":"@ + decimal(p as nat) + path);
                    let rest = ":"@ + decimal(p as nat) + path;
                    assert(location.subrange(location.len() - rest.len(), location.len() as int)
                        =~= rest);
                    assert(rest.is_suffix_of(location));
                },
                None => {
                    assert(location =~= scheme + "://"@ + host + path);
                },
            }
            assert(is_location(location, scheme, host, port, path));
            let start = scheme + "://"@;
            assert(location.subrange(0, start.len() as int) =~= start);
            assert(start.is_prefix_of(location));
            let up_to_host = scheme + "://"@ + host;
            assert(location.subrange(0, up_to_host.len() as int) =~= up_to_host);
            assert(up_to_host.is_prefix_of(location));
            assert(location.subrange(location.len() - path.len(), location.len() as int) =~= path);
            assert(path.is_suffix_of(location));
        },
    }
}

/// A redirect is answered wherever there is a host to lead to, be it the redirect's own, that of the
/// target or that of the host header, and the location can stand in a header. Setting the host is
/// always enough for the first.
pub proof fn lemma_redirect_is_answered(head: &RequestHead, redirect: &RequestRedirect)
    ensures
        redirected(head, redirect) is Ok ==> valid_header_value(
            redirected(head, redirect)->Ok_0.headers[0].1,
        ),
        redirected(head, redirect) matches Err(text) ==> {
            ||| redirect.hostname is None && head.host is None && header_text(
                header_values(head.headers),
                "host"@,
            ) is None && text == "Cannot determine redirect host"@
            ||| (redirect.hostname is Some || head.host is Some || header_text(
                header_values(head.headers),
                "host"@,
            ) is Some) && !valid_header_value(
                redirect_location(head, redirect, redirect_host(head, redirect)->0),
            )
        },
        redirect_host(head, redirect) is Some <==> redirect.hostname is Some || head.host is Some
            || header_text(header_values(head.headers), "host"@) is Some,
        redirect.hostname matches Some(h) ==> redirect_host(head, redirect) == Some(h@),
        redirect.hostname is None ==> (head.host matches Some(h) ==> redirect_host(head, redirect)
            == Some(h@)),
{
}

/// A matched request is forwarded exactly if its route redirects nowhere, the route's limit permits
/// it, every header change can be made and the backend's breaker lets it pass. Otherwise the first
/// of these that does not hold answers it, in this order, with its own status and text.
pub proof fn lemma_each_check_decides(
    m: RouteMatch,
    worker: Option<usize>,
    now: u64,
    pre: Gate,
    post: Gate,
    r: Decision,
)
    requires
        admitted(m, worker, now, pre, post, r),
    ensures
        ({
            let permitted = pre.limiter.permits(m.pattern@, now);
            let error = match m.request_filters {
                Some(f) => changed_all(header_values(pre.head.headers), changes(f.operations@), 0).1,
                None => None,
            };
            let allowed = pre.breakers.of(socket_text(m.backend)).allows(now);
            &&& r is Forward <==> m.redirect is None && permitted && error is None && allowed
            &&& r is Answer <==> !(r is Forward)
            &&& r is Answer ==> {
                let reply = r->Answer_0@;
                &&& r->Answer_1 == AnsweredBy::Redirect <==> m.redirect is Some
                &&& r->Answer_1 == AnsweredBy::RateLimit <==> m.redirect is None && !permitted
                &&& r->Answer_1 == AnsweredBy::Filter <==> m.redirect is None && permitted
                    && error is Some
                &&& r->Answer_1 == AnsweredBy::Breaker <==> m.redirect is None && permitted
                    && error is None && !allowed
                &&& match r->Answer_1 {
                    AnsweredBy::Redirect => match redirected(&pre.head, &m.redirect->0) {
                        Ok(built) => reply == built,
                        Err(text) => reply.status == 500 && reply.body == "Redirect error: "@
                            + text,
                    },
                    AnsweredBy::RateLimit => {
                        &&& reply.status == 429
                        &&& reply.body == "Rate limit exceeded"@
                        &&& reply.headers.contains(("Retry-After"@, "1"@))
                    },
                    AnsweredBy::Filter => reply.status == 500 && reply.body == "Filter error: "@
                        + error->0,
                    AnsweredBy::Breaker => {
                        &&& reply.status == 503
                        &&& reply.body == "Backend temporarily unavailable (circuit breaker open)"@
                        &&& reply.headers.contains(("Retry-After"@, "30"@))
                    },
                    _ => false,
                }
            }
        }),
{
    let limited = rate_limit_reply().headers;
    assert(limited[1] == ("Retry-After"@, "1"@));
    assert(limited.contains(("Retry-After"@, "1"@)));
    let broken = circuit_breaker_reply().headers;
    assert(broken[1] == ("Retry-After"@, "30"@));
    assert(broken.contains(("Retry-After"@, "30"@)));
}

/// A forwarded request goes to the backend that its route gave, under that backend's own breaker, by
/// the worker whose turn it was, and keeps what the route says of its response, its time limits and
/// its retries. Its head is as it came but for the route's header changes, so without such changes
/// every header is kept.
pub proof fn lemma_forwarded_as_routed(
    m: RouteMatch,
    worker: Option<usize>,
    now: u64,
    pre: Gate,
    post: Gate,
    r: Decision,
)
    requires
        admitted(m, worker, now, pre, post, r),
        r is Forward,
    ensures
        ({
            let plan = r->Forward_0;
            let id = socket_text(m.backend);
            &&& plan.backend == m.backend
            &&& plan.backend_id@ == id
            &&& plan.pattern@ == m.pattern@
            &&& plan.worker_index == worker
            &&& plan.response_filters == m.response_filters
            &&& plan.timeout == m.timeout
            &&& plan.retry == m.retry
            &&& post.head.method == pre.head.method
            &&& post.head.scheme == pre.head.scheme
            &&& post.head.authority == pre.head.authority
            &&& post.head.host == pre.head.host
            &&& post.head.port == pre.head.port
            &&& post.head.path == pre.head.path
            &&& post.head.path_and_query == pre.head.path_and_query
            &&& m.request_filters is None ==> header_values(post.head.headers) == header_values(
                pre.head.headers,
            )
            &&& m.request_filters matches Some(f) ==> header_values(post.head.headers)
                == changed_all(header_values(pre.head.headers), changes(f.operations@), 0).0
            &&& post.breakers.of(id) == pre.breakers.of(id).asked(now)
            &&& forall|other: Seq<char>|
                other != id ==> (#[trigger] post.breakers.of(other)) == pre.breakers.of(other)
        }),
{
}

/// What is answered where forwarding failed: 504 exactly if the error text begins as that of a
/// timeout, else 500; either way the client gets the whole text and its request identifier.
pub proof fn lemma_failures_are_told(error: Seq<char>, request_id: Seq<char>)
    ensures
        ({
            let reply = failure_reply(error, request_id);
            &&& reply.status == 504 <==> error.len() >= 8 && error.subrange(0, 8) == "TIMEOUT:"@
            &&& reply.status == 500 <==> reply.status != 504
            &&& reply.body == error
            &&& reply.headers.contains(("X-Request-ID"@, request_id))
            &&& error_status(error) == reply.status
        }),
        ({
            let reply = not_found_reply(request_id);
            &&& reply.status == 404
            &&& reply.body == "Not Found"@
            &&& reply.headers.contains(("X-Request-ID"@, request_id))
        }),
{
    reveal_strlit("TIMEOUT:");
    let timeout = "TIMEOUT:"@;
    assert(timeout.len() == 8);
    if timeout.is_prefix_of(error) {
        assert(error.subrange(0, 8) =~= timeout);
    }
    let reply = failure_reply(error, request_id);
    assert(reply.headers[1] == ("X-Request-ID"@, request_id));
    assert(reply.headers.contains(("X-Request-ID"@, request_id)));
    let missing = not_found_reply(request_id);
    assert(missing.headers[0] == ("X-Request-ID"@, request_id));
    assert(missing.headers.contains(("X-Request-ID"@, request_id)));
}

/// A method is read back from its own text, a text that is read as a method is that method's, and a
/// request whose method is none of the known ones is routed as `GET`.
pub proof fn lemma_methods_are_read_back(method: HttpMethod, text: Seq<char>)
    ensures
        method != HttpMethod::ALL ==> known_method(method_text(method)) == Some(method),
        known_method("ALL"@) is None,
        known_method(text) matches Some(m) ==> method_text(m) == text && m != HttpMethod::ALL,
        known_method(text) is Some ==> routed_method(text) == known_method(text)->0,
        known_method(text) is None ==> routed_method(text) == HttpMethod::GET,
        method_text(HttpMethod::GET) == "GET"@,
        method_text(HttpMethod::POST) == "POST"@,
        method_text(HttpMethod::PUT) == "PUT"@,
        method_text(HttpMethod::DELETE) == "DELETE"@,
        method_text(HttpMethod::HEAD) == "HEAD"@,
        method_text(HttpMethod::OPTIONS) == "OPTIONS"@,
        method_text(HttpMethod::PATCH) == "PATCH"@,
{
    reveal_strlit("GET");
    reveal_strlit("POST");
    reveal_strlit("PUT");
    reveal_strlit("DELETE");
    reveal_strlit("HEAD");
    reveal_strlit("OPTIONS");
    reveal_strlit("PATCH");
    reveal_strlit("ALL");
    let get = "GET"@;
    let post = "POST"@;
    let put = "PUT"@;
    let delete = "DELETE"@;
    let head = "HEAD"@;
    let options = "OPTIONS"@;
    let patch = "PATCH"@;
    let all = "ALL"@;
    assert(get.len() == 3 && get[0] == 'G');
    assert(put.len() == 3 && put[0] == 'P');
    assert(all.len() == 3 && all[0] == 'A');
    assert(post.len() == 4 && post[0] == 'P');
    assert(head.len() == 4 && head[0] == 'H');
    assert(patch.len() == 5);
    assert(delete.len() == 6);
    assert(options.len() == 7);
}

/// How a forwarded request counts: a response with its own status, and as a failure of the backend
/// from 500 on; an error always as a failure, with the status that the client is told.
pub proof fn lemma_outcomes_count(outcome: Result<u16, String>, request_id: Seq<char>)
    ensures
        match outcome {
            Ok(status) => {
                &&& counted_status(outcome) == status
                &&& counts_as_failure(outcome) <==> status >= 500
            },
            Err(text) => {
                &&& counted_status(outcome) == failure_reply(text@, request_id).status
                &&& counts_as_failure(outcome)
            },
        },
        counts_as_failure(outcome) <==> counted_status(outcome) >= 500,
{
}

/// Workers are told apart by their labels, and a label is the number of its worker.
pub proof fn lemma_worker_labels(worker: usize, other: usize)
    ensures
        crate::text::number_of(worker_label(Some(worker))) == worker,
        worker != other ==> worker_label(Some(worker)) != worker_label(Some(other)),
        worker_label(Some(worker)) != worker_label(None),
        worker_label(None) == "none"@,
{
    crate::text::lemma_decimal_stands_for_number(worker as nat);
    crate::text::lemma_decimal_stands_for_number(other as nat);
    reveal_strlit("none");
    let none = "none"@;
    assert(none[0] == 'n');
    let label = worker_label(Some(worker));
    assert(48 <= label[0] as u32 && label[0] as u32 <= 57);
}

/// Two statuses share a label only where neither is a common one; a common one's label is its number.
pub proof fn lemma_status_labels(status: u16)
    ensures
        ({
            let common = seq![
                200u16, 201, 204, 301, 302, 304, 400, 401, 403, 404, 500, 502, 503, 504,
            ].contains(status);
            &&& common ==> crate::text::number_of(status_label(status)) == status
            &&& !common ==> status_label(status) == "other"@
        }),
{
    let common = seq![200u16, 201, 204, 301, 302, 304, 400, 401, 403, 404, 500, 502, 503, 504];
    crate::text::lemma_decimal_stands_for_number(status as nat);
    assert(common[0] == 200 && common[1] == 201 && common[2] == 204 && common[3] == 301
        && common[4] == 302 && common[5] == 304 && common[6] == 400 && common[7] == 401
        && common[8] == 403 && common[9] == 404 && common[10] == 500 && common[11] == 502
        && common[12] == 503 && common[13] == 504);
    assert(common.len() == 14);
    if common.contains(status) {
        let i = choose|i: int| 0 <= i < common.len() && common[i] == status;
        assert(0 <= i < 14);
    }
}

/// The metrics page holds all that there is to show, in order: it begins with the encoded metrics,
/// goes on with the pools' where they could be had, and ends with the index's, which stands on a
/// line of its own.
pub proof fn lemma_metrics_page_holds_all(encoded: Seq<u8>, pools: Option<Seq<u8>>, index: Seq<u8>)
    ensures
        ({
            let page = metrics_page(encoded, pools, index);
            let pool_len = match pools {
                Some(p) => p.len(),
                None => 0,
            };
            &&& page.subrange(0, encoded.len() as int) == encoded
            &&& pools matches Some(p) ==> page.subrange(
                encoded.len() as int,
                (encoded.len() + p.len()) as int,
            ) == p
            &&& index.len() == 0 ==> page.len() == encoded.len() + pool_len
            &&& index.len() > 0 ==> {
                &&& page.len() == encoded.len() + pool_len + 1 + index.len()
                &&& page[(encoded.len() + pool_len) as int] == 10
                &&& page.subrange(page.len() - index.len(), page.len() as int) == index
            }
        }),
{
    let page = metrics_page(encoded, pools, index);
    assert(page.subrange(0, encoded.len() as int) =~= encoded);
    match pools {
        Some(p) => {
            assert(page.subrange(encoded.len() as int, (encoded.len() + p.len()) as int) =~= p);
        },
        None => {},
    }
    if index.len() > 0 {
        assert(page.subrange(page.len() - index.len(), page.len() as int) =~= index);
    }
}

/// The metrics are asked for by `GET` on their own path, and by nothing else.
pub proof fn lemma_metrics_have_one_path(head: RequestHead)
    ensures
        asks_metrics(head) <==> head.method@ == "GET"@ && head.path@ == "/metrics"@,
{
}

/// The worker whose turn it is is one of the workers, and none where there are no workers.
pub proof fn lemma_turn_is_a_worker(selector: Option<WorkerSelector>)
    requires
        selector matches Some(s) ==> s.workers() > 0,
    ensures
        match selector {
            Some(s) => turn(selector) is Some && turn(selector)->0 < s.workers() && (s.count()
                - turn(selector)->0) % s.workers() as int == 0,
            None => turn(selector) is None,
        },
{
    match selector {
        Some(s) => {
            let n = s.workers() as int;
            let c = s.count() as int;
            vstd::arithmetic::div_mod::lemma_fundamental_div_mod(c, n);
            vstd::arithmetic::div_mod::lemma_mod_multiples_basic(c / n, n);
            assert(c - c % n == (c / n) * n) by (nonlinear_arith)
                requires
                    c == n * (c / n) + c % n,
            ;
        },
        None => {},
    }
}

} // verus!
