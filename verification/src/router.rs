//! Routing: which backend serves a request.
//!
//! A request is matched against the exact route of its method and path first, and otherwise
//! against the most specific path prefix; where several methods have a route with that path, its
//! own is preferred. Among the backends of the route a Maglev table picks one by the flow hash of the
//! request; backends that fail too often or that are being drained are passed over.

use std::collections::VecDeque;
use vstd::prelude::*;
use vstd::string::*;
use crate::address::Address;
use crate::backend::{address_of, Backend, HttpMethod, RouteKey};
use crate::filters::{
    RequestHeaderModifier, RequestRedirect, ResponseHeaderModifier, RetryConfig, Timeout,
};
use crate::hash::{fnv1a_hash, text_hash};
use crate::maglev::{
    lemma_table_shares, maglev_build_compact_table, maglev_lookup_compact, maglev_table,
    table_entry, COMPACT_MAGLEV_SIZE,
};
use crate::matching::{
    headers_match, headers_meet, lemma_headers_met, lemma_params_met, met_by_header, met_by_param,
    query_params_match, query_params_meet, texts, HeaderMatch, QueryParamMatch,
};
use crate::prefix_tree::{
    all_plain, below, brace_free, covers, found, holds_pattern, installed, is_plain, literal,
    most_specific, named_params, new_tree, refusal, tree_at, tree_insert, PrefixTree,
};
use crate::table::{position, Table};
use crate::text::{text_eq, trim_end, trim_end_char};

verus! {

/// The number of responses that passive health checking remembers per backend.
pub const WINDOW_SIZE: usize = 100;

/// A backend that is being removed gracefully.
#[derive(Debug, Clone, Copy, PartialEq, Eq, Structural)]
pub struct BackendDraining {
    /// When the backend is removed for good
    pub deadline: u64,
}

impl BackendDraining {
    /// Starts draining at an instant.
    pub fn new(now: u64, drain_timeout: u64) -> (r: Self)
        requires
            now + drain_timeout <= u64::MAX,
        ensures
            r.deadline == now + drain_timeout,
    {
        BackendDraining { deadline: now + drain_timeout }
    }

    /// Whether the deadline has come.
    pub fn is_expired(&self, now: u64) -> (r: bool)
        ensures
            r == (now >= self.deadline),
    {
        now >= self.deadline
    }
}

/// How often `true` occurs in a sequence.
pub open spec fn count_true(s: Seq<bool>) -> nat
    decreases s.len(),
{
    if s.len() == 0 {
        0
    } else {
        count_true(s.drop_last()) + if s.last() {
            1nat
        } else {
            0nat
        }
    }
}

/// The last responses of a backend: `true` stands for a server error.
pub struct BackendHealth {
    window: VecDeque<bool>,
}

impl View for BackendHealth {
    type V = Seq<bool>;

    closed spec fn view(&self) -> Seq<bool> {
        self.window@
    }
}

/// Whether a window of responses shows a healthy backend: at most half of them are errors.
pub open spec fn window_healthy(window: Seq<bool>) -> bool {
    2 * count_true(window) <= window.len()
}

/// A window after one more response: the oldest of a full window is forgotten.
pub open spec fn window_after(window: Seq<bool>, status_code: u16) -> Seq<bool> {
    let kept = if window.len() == WINDOW_SIZE {
        window.drop_first()
    } else {
        window
    };
    kept.push(500 <= status_code < 600)
}

impl BackendHealth {
    /// No response yet.
    pub fn new() -> (r: Self)
        ensures
            r@ == Seq::<bool>::empty(),
    {
        BackendHealth { window: VecDeque::with_capacity(WINDOW_SIZE) }
    }

    /// Whether at most half of the remembered responses are errors.
    pub fn is_healthy(&self) -> (r: bool)
        ensures
            r == window_healthy(self@),
    {
        let total: usize = self.window.len();
        let mut errors: usize = 0;
        let mut i: usize = 0;
        while i < total
            invariant
                total == self.window@.len(),
                i <= total,
                errors == count_true(self.window@.take(i as int)),
                errors <= i,
            decreases total - i,
        {
            assert(self.window@.take(i as int + 1).drop_last() =~= self.window@.take(i as int));
            if self.window[i] {
                errors += 1;
            }
            i += 1;
        }
        assert(self.window@.take(i as int) =~= self.window@);
        errors <= total - errors
    }

    /// Remembers a response.
    pub fn record_response(&mut self, status_code: u16)
        ensures
            final(self)@ == window_after(old(self)@, status_code),
    {
        let is_error: bool = 500 <= status_code && status_code < 600;
        if self.window.len() == WINDOW_SIZE {
            let _oldest = self.window.pop_front();
            assert(self.window@ =~= old(self)@.drop_first());
        }
        self.window.push_back(is_error);
        assert(self@ =~= window_after(old(self)@, status_code));
    }
}

/// A route: the path it was added for, its backends with their table, and its conditions.
pub struct Route {
    pub pattern: String,
    pub backends: Vec<Backend>,
    pub maglev_table: Vec<u8>,
    pub header_matches: Vec<HeaderMatch>,
    pub method_matches: Option<Vec<HttpMethod>>,
    pub query_param_matches: Vec<QueryParamMatch>,
    pub request_filters: Option<RequestHeaderModifier>,
}

impl Route {
    /// The table is that of the backends, and lists are short enough to count over.
    pub open spec fn wf(&self) -> bool {
        &&& self.maglev_table@ == maglev_table(self.backends@)
        &&& self.backends@.len() * 10 <= usize::MAX
        &&& named_params(self.pattern@) <= 25
    }
}

/// The backend that serves a request, with what its route asks for.
pub struct RouteMatch {
    pub backend: Backend,
    /// The path of the route, by which it is known in metrics
    pub pattern: String,
    pub request_filters: Option<RequestHeaderModifier>,
    pub response_filters: Option<ResponseHeaderModifier>,
    pub redirect: Option<RequestRedirect>,
    pub timeout: Option<Timeout>,
    pub retry: Option<RetryConfig>,
}

/// Whether two optional header modifiers make the same changes.
pub open spec fn same_filters(
    a: Option<RequestHeaderModifier>,
    b: Option<RequestHeaderModifier>,
) -> bool {
    match (a, b) {
        (Some(x), Some(y)) => x.operations@ == y.operations@,
        (None, None) => true,
        _ => false,
    }
}

/// A text without its trailing slashes.
pub open spec fn trim_slashes(s: Seq<char>) -> Seq<char> {
    trim_end(s, '/')
}

/// The pattern under which everything below a path is found.
pub open spec fn prefix_pattern(path: Seq<char>) -> Seq<char> {
    below(trim_slashes(path))
}

/// The text of an error on inserting the pattern of a path.
pub open spec fn insert_error(label: Seq<char>, path: Seq<char>, why: Seq<char>) -> Seq<char> {
    label + path + ": "@ + why
}

/// Whether path `i` is the first of its kind: a path that several routes share is known once.
pub open spec fn first_of(paths: Seq<Seq<char>>, i: int) -> bool {
    forall|j: int| 0 <= j < i ==> #[trigger] paths[j] != paths[i]
}

/// Whether path `i` stands for what is below it: among the paths that differ in their trailing
/// slashes only, the longest does, and the first where several routes share it.
pub open spec fn leads(paths: Seq<Seq<char>>, i: int) -> bool {
    forall|j: int|
        0 <= j < paths.len() && j != i && trim_slashes(#[trigger] paths[j]) == trim_slashes(
            paths[i],
        ) ==> paths[j].len() < paths[i].len() || (paths[j].len() == paths[i].len() && i < j)
}

/// What prefix matching knows of the paths before `i`, and of path `i` itself.
pub open spec fn with_own(paths: Seq<Seq<char>>, i: nat) -> Seq<(Seq<char>, u64)> {
    if first_of(paths, i as int) {
        patterns(paths, i).push((paths[i as int], i as u64))
    } else {
        patterns(paths, i)
    }
}

/// What prefix matching knows of the first `n` paths, each pattern with the position of its
/// route: the path itself, and the pattern below it.
pub open spec fn patterns(paths: Seq<Seq<char>>, n: nat) -> Seq<(Seq<char>, u64)>
    decreases n,
{
    if n == 0 {
        Seq::empty()
    } else {
        let i = (n - 1) as nat;
        let own = if first_of(paths, i as int) {
            patterns(paths, i).push((paths[i as int], i as u64))
        } else {
            patterns(paths, i)
        };
        if leads(paths, i as int) {
            own.push((prefix_pattern(paths[i as int]), i as u64))
        } else {
            own
        }
    }
}

/// The text of the first error on making the paths from `i` on known; `None` where there is none.
pub open spec fn build_error(
    paths: Seq<Seq<char>>,
    i: nat,
    exact_label: Seq<char>,
) -> Option<Seq<char>>
    decreases paths.len() - i,
{
    if i >= paths.len() {
        None
    } else {
        let path = paths[i as int];
        let own = refusal(patterns(paths, i), path);
        let below_it = refusal(with_own(paths, i), prefix_pattern(path));
        if first_of(paths, i as int) && own is Some {
            Some(insert_error(exact_label, path, own->0))
        } else if leads(paths, i as int) && below_it is Some {
            Some(insert_error("Failed to add prefix route "@, path, below_it->0))
        } else {
            build_error(paths, i + 1, exact_label)
        }
    }
}

/// The paths of routes.
pub open spec fn paths_of(routes: Seq<Route>) -> Seq<Seq<char>> {
    Seq::new(routes.len(), |i: int| routes[i].pattern@)
}

/// The flow hash of a request: its path hash, mixed with the client's address and port where both
/// are known.
pub open spec fn flow_hash(path_hash: u64, src_ip: Option<u32>, src_port: Option<u16>) -> u64 {
    match (src_ip, src_port) {
        (Some(ip), Some(port)) => path_hash ^ (((ip as u64) << 16) | (port as u64)),
        _ => path_hash,
    }
}

/// Whether a backend may serve requests: healthy as far as is known, and not being drained.
pub open spec fn available(
    health: Map<Address, BackendHealth>,
    draining: Map<Address, BackendDraining>,
    backend: Backend,
) -> bool {
    &&& health.contains_key(address_of(backend)) ==> window_healthy(health[address_of(backend)]@)
    &&& !draining.contains_key(address_of(backend))
}

/// The backend that the table gives `k` steps after a hash.
pub open spec fn candidate(backends: Seq<Backend>, table: Seq<u8>, hash: u64, k: nat) -> Backend {
    backends[table_entry(table, hash.wrapping_add(k as u64)) as int]
}

/// The first available backend among the candidates from step `k` on; ten times as many steps are
/// taken as there are backends.
pub open spec fn first_available(
    backends: Seq<Backend>,
    table: Seq<u8>,
    hash: u64,
    health: Map<Address, BackendHealth>,
    draining: Map<Address, BackendDraining>,
    k: nat,
) -> Option<Backend>
    decreases backends.len() * 10 - k,
{
    if k >= backends.len() * 10 {
        None
    } else if available(health, draining, candidate(backends, table, hash, k)) {
        Some(candidate(backends, table, hash, k))
    } else {
        first_available(backends, table, hash, health, draining, k + 1)
    }
}

/// The routing state.
pub struct Router {
    routes: Table<RouteKey, Route>,
    prefixes: PrefixTree,
    draining: Table<Address, BackendDraining>,
    health: Table<Address, BackendHealth>,
}

impl Router {
    /// The keys of the routes, in the order in which they were first added.
    pub closed spec fn keys(&self) -> Seq<RouteKey> {
        self.routes.keys()
    }

    /// The routes, in the order of their keys.
    pub closed spec fn routes(&self) -> Seq<Route> {
        self.routes.values()
    }

    /// The patterns that prefix matching knows, each with the position of its route.
    pub closed spec fn prefixes(&self) -> Seq<(Seq<char>, u64)> {
        installed(self.prefixes)
    }

    /// The backends that are being drained, by address.
    pub closed spec fn draining(&self) -> Map<Address, BackendDraining> {
        self.draining.map()
    }

    /// The remembered responses, by backend address.
    pub closed spec fn health(&self) -> Map<Address, BackendHealth> {
        self.health.map()
    }

    /// Every route has its key and its table, and prefix matching knows existing routes only.
    pub closed spec fn wf(&self) -> bool {
        &&& self.routes.wf()
        &&& self.routes().len() <= usize::MAX
        &&& forall|i: int|
            0 <= i < self.routes().len() ==> (#[trigger] self.keys()[i]).path_hash == text_hash(
                self.routes()[i].pattern@,
            )
        &&& self.draining.wf()
        &&& self.health.wf()
        &&& forall|i: int| 0 <= i < self.routes().len() ==> (#[trigger] self.routes()[i]).wf()
        &&& forall|i: int|
            0 <= i < self.prefixes().len() ==> (#[trigger] self.prefixes()[i]).1
                < self.routes().len()
    }

    /// Whether prefix matching knows exactly the paths of the routes and what is below them.
    pub open spec fn synced(&self) -> bool {
        self.prefixes() == patterns(paths_of(self.routes()), self.routes().len())
    }

    /// The route that serves a method among those that share the path of route `i`: the method's
    /// own where there is one, else `i`.
    pub open spec fn for_method(&self, i: int, method: HttpMethod) -> int {
        let path = self.routes()[i].pattern@;
        match position(self.keys(), RouteKey { method, path_hash: text_hash(path) }) {
            Some(j) => if self.routes()[j].pattern@ == path {
                j
            } else {
                i
            },
            None => i,
        }
    }

    /// The position of the route that serves a method and path: the exact one, else that of the
    /// path that prefix matching finds.
    pub open spec fn route_of(&self, method: HttpMethod, path: Seq<char>) -> Option<int> {
        let key = RouteKey { method, path_hash: text_hash(path) };
        match position(self.keys(), key) {
            Some(i) => Some(i),
            None => match found(self.prefixes(), path) {
                Some(v) => Some(self.for_method(v as int, method)),
                None => None,
            },
        }
    }

    /// Where no route is exact and prefix matching knows literal paths only, the most specific
    /// prefix decides, and no route serves the path only if none matches.
    pub open spec fn prefix_rule(&self, method: HttpMethod, path: Seq<char>) -> bool {
        let key = RouteKey { method, path_hash: text_hash(path) };
        !self.keys().contains(key) && all_plain(self.prefixes()) ==> match self.route_of(
            method,
            path,
        ) {
            Some(i) => exists|j: int|
                most_specific(self.prefixes(), path, j) && i == self.for_method(
                    (#[trigger] self.prefixes()[j]).1 as int,
                    method,
                ),
            None => forall|j: int|
                0 <= j < self.prefixes().len() ==> !covers((#[trigger] self.prefixes()[j]).0, path),
        }
    }

    /// The backend that a route gives to a request.
    pub open spec fn backend_of(
        &self,
        i: int,
        path: Seq<char>,
        src_ip: Option<u32>,
        src_port: Option<u16>,
    ) -> Option<Backend> {
        first_available(
            self.routes()[i].backends@,
            self.routes()[i].maglev_table@,
            flow_hash(text_hash(path), src_ip, src_port),
            self.health(),
            self.draining(),
            0,
        )
    }

    /// Whether a selection is what route `i` gives to a request, where its conditions are met.
    pub open spec fn selected(
        &self,
        r: Option<RouteMatch>,
        i: int,
        path: Seq<char>,
        src_ip: Option<u32>,
        src_port: Option<u16>,
    ) -> bool {
        match self.backend_of(i, path, src_ip, src_port) {
            Some(backend) => {
                &&& r is Some
                &&& r->0.backend == backend
                &&& r->0.pattern@ == self.routes()[i].pattern@
                &&& same_filters(r->0.request_filters, self.routes()[i].request_filters)
                &&& r->0.response_filters is None
                &&& r->0.redirect is None
                &&& r->0.timeout is None
                &&& r->0.retry is None
            },
            None => r is None,
        }
    }

    /// Whether a route accepts a method.
    pub open spec fn method_allowed(&self, i: int, method: HttpMethod) -> bool {
        match self.routes()[i].method_matches {
            Some(methods) => methods@.contains(method),
            None => true,
        }
    }

    /// Whether a selection is what the router gives to a request: its route decides, unless it
    /// does not serve the method.
    pub open spec fn selection(
        &self,
        method: HttpMethod,
        path: Seq<char>,
        src_ip: Option<u32>,
        src_port: Option<u16>,
        r: Option<RouteMatch>,
    ) -> bool {
        match self.route_of(method, path) {
            Some(i) => {
                &&& 0 <= i < self.routes().len()
                &&& if self.method_allowed(i, method) {
                    self.selected(r, i, path, src_ip, src_port)
                } else {
                    r is None
                }
            },
            None => r is None,
        }
    }

    /// Whether a selection is what the router gives to a request with headers: its route decides,
    /// unless its header conditions are not met.
    pub open spec fn header_selection(
        &self,
        method: HttpMethod,
        path: Seq<char>,
        headers: Seq<(Seq<char>, Seq<char>)>,
        src_ip: Option<u32>,
        src_port: Option<u16>,
        r: Option<RouteMatch>,
    ) -> bool {
        match self.route_of(method, path) {
            Some(i) => {
                &&& 0 <= i < self.routes().len()
                &&& if headers_meet(self.routes()[i].header_matches@, headers) {
                    self.selected(r, i, path, src_ip, src_port)
                } else {
                    r is None
                }
            },
            None => r is None,
        }
    }

    /// Whether a selection is what the router gives to a request with query parameters: its route
    /// decides, unless its query parameter conditions are not met.
    pub open spec fn query_selection(
        &self,
        method: HttpMethod,
        path: Seq<char>,
        params: Seq<(Seq<char>, Seq<char>)>,
        src_ip: Option<u32>,
        src_port: Option<u16>,
        r: Option<RouteMatch>,
    ) -> bool {
        match self.route_of(method, path) {
            Some(i) => {
                &&& 0 <= i < self.routes().len()
                &&& if query_params_meet(self.routes()[i].query_param_matches@, params) {
                    self.selected(r, i, path, src_ip, src_port)
                } else {
                    r is None
                }
            },
            None => r is None,
        }
    }

    /// A router without routes.
    pub fn new() -> (r: Self)
        ensures
            r.wf(),
            r.keys() == Seq::<RouteKey>::empty(),
            r.routes() == Seq::<Route>::empty(),
            r.prefixes() == Seq::<(Seq<char>, u64)>::empty(),
            r.draining() == Map::<Address, BackendDraining>::empty(),
            r.health() == Map::<Address, BackendHealth>::empty(),
    {
        let r = Router {
            routes: Table::new(),
            prefixes: new_tree(),
            draining: Table::new(),
            health: Table::new(),
        };
        assert(r.routes() =~= Seq::<Route>::empty());
        r
    }
}

impl Default for Router {
    /// A router without routes.
    fn default() -> (r: Self)
        ensures
            r.wf(),
            r.keys() == Seq::<RouteKey>::empty(),
            r.routes() == Seq::<Route>::empty(),
            r.prefixes() == Seq::<(Seq<char>, u64)>::empty(),
            r.draining() == Map::<Address, BackendDraining>::empty(),
            r.health() == Map::<Address, BackendHealth>::empty(),
    {
        Router::new()
    }
}

proof fn lemma_params_trimmed(path: Seq<char>)
    ensures
        named_params(trim_slashes(path)) <= named_params(path),
    decreases path.len(),
{
    if path.len() > 0 && path.last() == '/' {
        lemma_params_trimmed(path.drop_last());
    }
}

/// The pattern under which everything below a path is found.
fn prefix_pattern_of(path: &str) -> (r: String)
    ensures
        r@ == prefix_pattern(path@),
{
    let mut s = trim_end_char(path, '/');
    s.append("/{*rest}");
    s
}

/// The text of an error on inserting a pattern.
fn insert_error_text(label: &str, path: &str, why: &str) -> (r: String)
    ensures
        r@ == insert_error(label@, path@, why@),
{
    let mut s = label.to_owned();
    s.append(path);
    s.append(": ");
    s.append(why);
    s
}

/// Whether all paths are literal: not empty and without braces.
pub open spec fn plain_paths(paths: Seq<Seq<char>>) -> bool {
    forall|i: int| 0 <= i < paths.len() ==> (#[trigger] paths[i]).len() > 0 && brace_free(paths[i])
}

proof fn lemma_trim_brace_free(path: Seq<char>)
    requires
        brace_free(path),
    ensures
        brace_free(trim_slashes(path)),
    decreases path.len(),
{
    if path.len() > 0 && path.last() == '/' {
        assert forall|i: int| 0 <= i < path.drop_last().len() implies path.drop_last()[i] != '{'
            && path.drop_last()[i] != '}' by {
            assert(path[i] != '{' && path[i] != '}');
        }
        lemma_trim_brace_free(path.drop_last());
    }
}

/// The pattern below a path holds a brace.
proof fn lemma_below_braced(base: Seq<char>)
    ensures
        !brace_free(below(base)),
{
    reveal_strlit("/{*rest}");
    assert(below(base)[base.len() as int + 1] == '{');
}

proof fn lemma_plain_patterns(paths: Seq<Seq<char>>, i: int)
    requires
        plain_paths(paths),
        0 <= i < paths.len(),
    ensures
        is_plain(paths[i]),
        is_plain(prefix_pattern(paths[i])),
{
    lemma_trim_brace_free(paths[i]);
}

proof fn lemma_below_injective(a: Seq<char>, b: Seq<char>)
    requires
        below(a) == below(b),
    ensures
        a == b,
{
    let n = below(a).len() - "/{*rest}"@.len();
    assert(below(a).take(n) =~= a);
    assert(below(b).take(n) =~= b);
}

/// Whether an insertion is what the paths before `n` give: a path that is the first of its kind, or
/// what is below one that stands for it.
spec fn is_entry(paths: Seq<Seq<char>>, n: nat, e: (Seq<char>, u64)) -> bool {
    &&& e.1 < n
    &&& {
        ||| e.0 == paths[e.1 as int] && first_of(paths, e.1 as int)
        ||| e.0 == prefix_pattern(paths[e.1 as int]) && leads(paths, e.1 as int)
    }
}

proof fn lemma_entries(paths: Seq<Seq<char>>, n: nat)
    requires
        n <= paths.len() <= u64::MAX,
    ensures
        forall|k: int|
            0 <= k < patterns(paths, n).len() ==> is_entry(paths, n, #[trigger] patterns(paths, n)[k]),
    decreases n,
{
    if n > 0 {
        let i = (n - 1) as nat;
        lemma_entries(paths, i);
        assert forall|k: int| 0 <= k < patterns(paths, n).len() implies is_entry(
            paths,
            n,
            #[trigger] patterns(paths, n)[k],
        ) by {
            if k < patterns(paths, i).len() {
                assert(patterns(paths, n)[k] == patterns(paths, i)[k]);
                assert(is_entry(paths, i, patterns(paths, i)[k]));
            }
        }
    }
}

/// Among literal paths, no pattern is there already when it is to be inserted.
proof fn lemma_no_clash(paths: Seq<Seq<char>>, i: nat)
    requires
        plain_paths(paths),
        i < paths.len() <= u64::MAX,
    ensures
        all_plain(patterns(paths, i)),
        all_plain(with_own(paths, i)),
        first_of(paths, i as int) ==> !holds_pattern(patterns(paths, i), paths[i as int]),
        leads(paths, i as int) ==> !holds_pattern(
            with_own(paths, i),
            prefix_pattern(paths[i as int]),
        ),
{
    let before = patterns(paths, i);
    let own = with_own(paths, i);
    lemma_entries(paths, i);
    lemma_plain_patterns(paths, i as int);
    assert forall|k: int| 0 <= k < before.len() implies is_plain((#[trigger] before[k]).0) by {
        assert(is_entry(paths, i, before[k]));
        lemma_plain_patterns(paths, before[k].1 as int);
    }
    assert forall|k: int| 0 <= k < own.len() implies is_plain((#[trigger] own[k]).0) by {
        if k < before.len() {
            assert(own[k] == before[k]);
        }
    }
    if first_of(paths, i as int) && holds_pattern(before, paths[i as int]) {
        let k = choose|k: int|
            0 <= k < before.len() && (#[trigger] before[k]).0 == paths[i as int];
        assert(is_entry(paths, i, before[k]));
        lemma_below_braced(trim_slashes(paths[before[k].1 as int]));
        assert(paths[before[k].1 as int] != paths[i as int]);
    }
    let pattern = prefix_pattern(paths[i as int]);
    lemma_below_braced(trim_slashes(paths[i as int]));
    if leads(paths, i as int) && holds_pattern(own, pattern) {
        let k = choose|k: int| 0 <= k < own.len() && (#[trigger] own[k]).0 == pattern;
        assert(k < before.len());
        assert(own[k] == before[k]);
        assert(is_entry(paths, i, before[k]));
        let j = before[k].1 as int;
        assert(brace_free(paths[j]));
        lemma_below_injective(trim_slashes(paths[j]), trim_slashes(paths[i as int]));
        assert(trim_slashes(paths[j]) == trim_slashes(paths[i as int]));
    }
}

proof fn lemma_own_known(paths: Seq<Seq<char>>, n: nat, k: int)
    requires
        0 <= k < n <= paths.len(),
    ensures
        first_of(paths, k) ==> patterns(paths, n).contains((paths[k], k as u64)),
        leads(paths, k) ==> patterns(paths, n).contains((prefix_pattern(paths[k]), k as u64)),
    decreases n,
{
    let i = (n - 1) as nat;
    let all = patterns(paths, n);
    if k < i {
        lemma_own_known(paths, i, k);
        let before = patterns(paths, i);
        assert forall|e: (Seq<char>, u64)| before.contains(e) implies all.contains(e) by {
            let at = before.index_of(e);
            assert(all[at] == e);
        }
    } else {
        let own = with_own(paths, i);
        if first_of(paths, k) {
            assert(all[own.len() - 1] == (paths[k], k as u64));
        }
        if leads(paths, k) {
            assert(all[own.len() as int] == (prefix_pattern(paths[k]), k as u64));
        }
    }
}

/// Every path has a first one of its kind.
proof fn lemma_first_exists(paths: Seq<Seq<char>>, k: int) -> (j: int)
    requires
        0 <= k < paths.len(),
    ensures
        0 <= j <= k,
        paths[j] == paths[k],
        first_of(paths, j),
    decreases k,
{
    if first_of(paths, k) {
        k
    } else {
        let j = choose|j: int| 0 <= j < k && #[trigger] paths[j] == paths[k];
        lemma_first_exists(paths, j)
    }
}

/// Among the first `n` paths, one stands for those that share its base with path `k`.
proof fn lemma_leader_upto(paths: Seq<Seq<char>>, k: int, n: int) -> (l: int)
    requires
        0 <= k < n <= paths.len(),
    ensures
        0 <= l < n,
        trim_slashes(paths[l]) == trim_slashes(paths[k]),
        leads(paths.take(n), l),
    decreases n,
{
    let p = paths.take(n);
    if n == 1 {
        assert(leads(p, 0));
        0
    } else if k < n - 1 {
        let l = lemma_leader_upto(paths, k, n - 1);
        let q = paths.take(n - 1);
        assert(q[l] == paths[l]);
        if trim_slashes(paths[n - 1]) == trim_slashes(paths[k]) && paths[n - 1].len()
            > paths[l].len() {
            assert forall|j: int|
                0 <= j < p.len() && j != n - 1 && trim_slashes(#[trigger] p[j]) == trim_slashes(
                    p[n - 1],
                ) implies p[j].len() < p[n - 1].len() by {
                assert(q[j] == p[j]);
            }
            n - 1
        } else {
            assert forall|j: int|
                0 <= j < p.len() && j != l && trim_slashes(#[trigger] p[j]) == trim_slashes(
                    p[l],
                ) implies p[j].len() < p[l].len() || (p[j].len() == p[l].len() && l < j) by {
                if j < n - 1 {
                    assert(q[j] == p[j]);
                }
            }
            l
        }
    } else if exists|m: int|
        0 <= m < n - 1 && trim_slashes(#[trigger] paths[m]) == trim_slashes(paths[k]) {
        let m = choose|m: int|
            0 <= m < n - 1 && trim_slashes(#[trigger] paths[m]) == trim_slashes(paths[k]);
        let l = lemma_leader_upto(paths, m, n - 1);
        let q = paths.take(n - 1);
        assert(q[l] == paths[l]);
        if paths[k].len() > paths[l].len() {
            assert forall|j: int|
                0 <= j < p.len() && j != k && trim_slashes(#[trigger] p[j]) == trim_slashes(
                    p[k],
                ) implies p[j].len() < p[k].len() by {
                assert(q[j] == p[j]);
            }
            k
        } else {
            assert forall|j: int|
                0 <= j < p.len() && j != l && trim_slashes(#[trigger] p[j]) == trim_slashes(
                    p[l],
                ) implies p[j].len() < p[l].len() || (p[j].len() == p[l].len() && l < j) by {
                if j < n - 1 {
                    assert(q[j] == p[j]);
                }
            }
            l
        }
    } else {
        assert forall|j: int|
            0 <= j < p.len() && j != k && trim_slashes(#[trigger] p[j]) == trim_slashes(
                p[k],
            ) implies false by {
            assert(p[j] == paths[j]);
        }
        k
    }
}

/// Every path has one that stands for what is below it.
proof fn lemma_leader_exists(paths: Seq<Seq<char>>, k: int) -> (l: int)
    requires
        0 <= k < paths.len(),
    ensures
        0 <= l < paths.len(),
        trim_slashes(paths[l]) == trim_slashes(paths[k]),
        leads(paths, l),
{
    assert(paths.take(paths.len() as int) =~= paths);
    lemma_leader_upto(paths, k, paths.len() as int)
}

/// Whether path `i` is the first of its kind.
fn is_first(routes: &Table<RouteKey, Route>, i: usize) -> (r: bool)
    requires
        i < routes.values().len(),
        routes.wf(),
    ensures
        r == first_of(paths_of(routes.values()), i as int),
{
    let ghost paths = paths_of(routes.values());
    let mut j: usize = 0;
    while j < i
        invariant
            i < routes.values().len(),
            routes.values().len() == routes.keys().len(),
            paths == paths_of(routes.values()),
            j <= i,
            forall|k: int| 0 <= k < j ==> #[trigger] paths[k] != paths[i as int],
        decreases i - j,
    {
        if text_eq(routes.at(j).pattern.as_str(), routes.at(i).pattern.as_str()) {
            assert(paths[j as int] == paths[i as int]);
            return false;
        }
        j += 1;
    }
    true
}

/// Whether path `i` stands for what is below it, given the paths without trailing slashes.
fn is_leader(routes: &Table<RouteKey, Route>, bases: &Vec<String>, i: usize) -> (r: bool)
    requires
        routes.wf(),
        bases.len() == routes.values().len(),
        forall|j: int|
            0 <= j < bases.len() ==> (#[trigger] bases[j])@ == trim_slashes(
                routes.values()[j].pattern@,
            ),
        i < bases.len(),
    ensures
        r == leads(paths_of(routes.values()), i as int),
{
    let ghost paths = paths_of(routes.values());
    let own: usize = routes.at(i).pattern.as_str().unicode_len();
    let mut j: usize = 0;
    while j < bases.len()
        invariant
            routes.values().len() == routes.keys().len(),
            bases.len() == routes.values().len(),
            forall|k: int|
                0 <= k < bases.len() ==> (#[trigger] bases[k])@ == trim_slashes(
                    routes.values()[k].pattern@,
                ),
            i < bases.len(),
            paths == paths_of(routes.values()),
            own == paths[i as int].len(),
            j <= bases.len(),
            forall|k: int|
                0 <= k < j && k != i && trim_slashes(#[trigger] paths[k]) == trim_slashes(
                    paths[i as int],
                ) ==> paths[k].len() < paths[i as int].len() || (paths[k].len()
                    == paths[i as int].len() && i < k),
        decreases bases.len() - j,
    {
        if j != i && text_eq(bases[j].as_str(), bases[i].as_str()) {
            let other: usize = routes.at(j).pattern.as_str().unicode_len();
            assert(bases[j as int]@ == trim_slashes(paths[j as int]));
            assert(bases[i as int]@ == trim_slashes(paths[i as int]));
            if other > own || (other == own && j < i) {
                assert(!leads(paths, i as int));
                return false;
            }
        }
        assert(bases[j as int]@ == trim_slashes(paths[j as int]));
        assert(bases[i as int]@ == trim_slashes(paths[i as int]));
        j += 1;
    }
    true
}

/// Makes the paths of all routes known to a new tree.
fn build_tree(routes: &Table<RouteKey, Route>, exact_label: &str) -> (r: Result<PrefixTree, String>)
    requires
        routes.wf(),
        forall|i: int| 0 <= i < routes.values().len() ==> (#[trigger] routes.values()[i]).wf(),
    ensures
        match build_error(paths_of(routes.values()), 0, exact_label@) {
            None => r is Ok && installed(r->Ok_0) == patterns(
                paths_of(routes.values()),
                routes.values().len(),
            ),
            Some(m) => r is Err && r->Err_0@ == m,
        },
        plain_paths(paths_of(routes.values())) ==> r is Ok,
{
    let mut tree = new_tree();
    let ghost paths = paths_of(routes.values());
    let n: usize = routes.len();
    let mut bases: Vec<String> = Vec::new();
    while bases.len() < n
        invariant
            n == routes.values().len(),
            n == routes.keys().len(),
            bases.len() <= n,
            forall|j: int|
                0 <= j < bases.len() ==> (#[trigger] bases[j])@ == trim_slashes(
                    routes.values()[j].pattern@,
                ),
        decreases n - bases.len(),
    {
        let base = trim_end_char(routes.at(bases.len()).pattern.as_str(), '/');
        bases.push(base);
    }
    let mut i: usize = 0;
    while i < n
        invariant
            n == routes.values().len(),
            n == routes.keys().len(),
            routes.wf(),
            bases.len() == n,
            forall|j: int|
                0 <= j < bases.len() ==> (#[trigger] bases[j])@ == trim_slashes(
                    routes.values()[j].pattern@,
                ),
            i <= n,
            paths == paths_of(routes.values()),
            forall|j: int| 0 <= j < routes.values().len() ==> (#[trigger] routes.values()[j]).wf(),
            build_error(paths, i as nat, exact_label@) == build_error(paths, 0, exact_label@),
            installed(tree) == patterns(paths, i as nat),
        decreases n - i,
    {
        let route = routes.at(i);
        assert(route.wf());
        let path = route.pattern.as_str();
        proof {
            assert(paths[i as int] == path@);
            lemma_params_trimmed(path@);
            if plain_paths(paths) {
                lemma_no_clash(paths, i as nat);
                lemma_plain_patterns(paths, i as int);
            }
        }
        if is_first(routes, i) {
            match tree_insert(&mut tree, path.to_owned(), i as u64) {
                Ok(_) => {},
                Err(why) => {
                    return Err(insert_error_text(exact_label, path, why.as_str()));
                },
            }
        }
        assert(installed(tree) == with_own(paths, i as nat));
        if is_leader(routes, &bases, i) {
            let below_path = prefix_pattern_of(path);
            assert(below_path@ == below(trim_slashes(path@)));
            match tree_insert(&mut tree, below_path, i as u64) {
                Ok(_) => {},
                Err(why) => {
                    return Err(insert_error_text("Failed to add prefix route ", path, why.as_str()));
                },
            }
        }
        i += 1;
        assert(installed(tree) == patterns(paths, i as nat));
    }
    Ok(tree)
}

/// Whether two backend lists are the same.
fn same_backends(a: &Vec<Backend>, b: &Vec<Backend>) -> (r: bool)
    ensures
        r == (a@ == b@),
{
    if a.len() != b.len() {
        return false;
    }
    let mut i: usize = 0;
    while i < a.len()
        invariant
            a.len() == b.len(),
            i <= a.len(),
            forall|j: int| 0 <= j < i ==> a[j] == b[j],
        decreases a.len() - i,
    {
        if a[i] != b[i] {
            return false;
        }
        i += 1;
    }
    assert(a@ =~= b@);
    true
}

/// Whether a list of methods holds a method.
fn holds_method(methods: &Vec<HttpMethod>, method: HttpMethod) -> (r: bool)
    ensures
        r == methods@.contains(method),
{
    let mut i: usize = 0;
    while i < methods.len()
        invariant
            i <= methods.len(),
            forall|j: int| 0 <= j < i ==> methods[j] != method,
        decreases methods.len() - i,
    {
        if methods[i] == method {
            return true;
        }
        i += 1;
    }
    false
}

/// The error label for a route's own path.
pub open spec fn exact_label() -> Seq<char> {
    "Failed to add exact route "@
}

/// The error label for the own path of a route with filters.
pub open spec fn filtered_label() -> Seq<char> {
    "Failed to add route "@
}

/// The position at which a key stands or will stand.
pub open spec fn slot(keys: Seq<RouteKey>, key: RouteKey) -> int {
    match position(keys, key) {
        Some(i) => i,
        None => keys.len() as int,
    }
}

impl Router {
    /// How a router changes when a route is set: the route takes its place, and prefix matching
    /// is built anew from all routes. Where that fails the error says so, the route stays, and
    /// prefix matching is as before.
    pub open spec fn route_set(
        pre: Router,
        post: Router,
        method: HttpMethod,
        path: Seq<char>,
        label: Seq<char>,
        r: Result<(), String>,
    ) -> bool {
        let key = RouteKey { method, path_hash: text_hash(path) };
        let i = slot(pre.keys(), key);
        &&& post.wf()
        &&& post.draining() == pre.draining()
        &&& post.health() == pre.health()
        &&& 0 <= i < post.routes().len()
        &&& if i < pre.keys().len() {
            post.keys() == pre.keys() && post.routes() == pre.routes().update(i, post.routes()[i])
        } else {
            post.keys() == pre.keys().push(key) && post.routes() == pre.routes().push(
                post.routes()[i],
            )
        }
        &&& post.routes()[i].pattern@ == path
        &&& post.routes()[i].maglev_table@ == maglev_table(post.routes()[i].backends@)
        &&& match build_error(paths_of(post.routes()), 0, label) {
            None => r is Ok && post.synced(),
            Some(m) => r is Err && r->Err_0@ == m && post.prefixes() == pre.prefixes(),
        }
        &&& plain_paths(paths_of(post.routes())) ==> r is Ok
    }

    /// The route of a method and path after it was set.
    pub open spec fn route_at(&self, method: HttpMethod, path: Seq<char>) -> Route {
        self.routes()[slot(self.keys(), RouteKey { method, path_hash: text_hash(path) })]
    }

    /// How a router changes when a route is added: one that has the same backends already is left
    /// as it is, and any other is set, without conditions and filters.
    pub open spec fn route_added(
        pre: Router,
        post: Router,
        method: HttpMethod,
        path: Seq<char>,
        backends: Seq<Backend>,
        r: Result<(), String>,
    ) -> bool {
        let key = RouteKey { method, path_hash: text_hash(path) };
        if pre.keys().contains(key) && pre.route_at(method, path).backends@ == backends {
            r is Ok && post == pre
        } else {
            let route = post.route_at(method, path);
            &&& Self::route_set(pre, post, method, path, exact_label(), r)
            &&& route.backends@ == backends
            &&& route.header_matches@.len() == 0
            &&& route.method_matches is None
            &&& route.query_param_matches@.len() == 0
            &&& route.request_filters is None
        }
    }

    /// Sets a route and builds prefix matching anew.
    fn install(
        &mut self,
        method: HttpMethod,
        path: &str,
        route: Route,
        label: &str,
    ) -> (r: Result<(), String>)
        requires
            old(self).wf(),
            route.wf(),
            route.pattern@ == path@,
        ensures
            Self::route_set(*old(self), *final(self), method, path@, label@, r),
            final(self).route_at(method, path@) == route,
    {
        let key = RouteKey { method, path_hash: fnv1a_hash(path.as_bytes()) };
        let ghost i = slot(self.keys(), key);
        self.routes.insert(&key, route);
        assert(self.routes.keys()[i] == key);
        assert(slot(self.keys(), key) == i) by {
            assert(self.routes.keys().no_duplicates());
        }
        let ghost before = old(self).routes.values();
        let ghost after = self.routes.values();
        assert(after[i] == route);
        assert(if i < before.len() {
            after =~= before.update(i, after[i])
        } else {
            after =~= before.push(after[i])
        });
        assert forall|j: int| 0 <= j < after.len() implies (#[trigger] after[j]).wf() by {
            if j != i {
                assert(after[j] == before[j]);
                assert(old(self).routes()[j].wf());
            }
        }
        assert forall|j: int| 0 <= j < self.routes().len() implies (
        #[trigger] self.keys()[j]).path_hash == text_hash(self.routes()[j].pattern@) by {
            if j != i {
                assert(old(self).keys()[j].path_hash == text_hash(old(self).routes()[j].pattern@));
            }
        }
        let count: usize = self.routes.len();
        match build_tree(&self.routes, label) {
            Ok(tree) => {
                self.prefixes = tree;
                proof {
                    lemma_entries(paths_of(after), count as nat);
                }
                assert forall|k: int| 0 <= k < self.prefixes().len() implies (
                #[trigger] self.prefixes()[k]).1 < self.routes().len() by {
                    assert(is_entry(
                        paths_of(after),
                        count as nat,
                        patterns(paths_of(after), count as nat)[k],
                    ));
                }
                Ok(())
            },
            Err(e) => {
                assert forall|k: int| 0 <= k < self.prefixes().len() implies (
                #[trigger] self.prefixes()[k]).1 < self.routes().len() by {
                    assert(old(self).prefixes()[k].1 < before.len());
                }
                Err(e)
            },
        }
    }

    /// Adds a route, or updates its backends. A route that has the same backends already is left
    /// as it is.
    pub fn add_route(
        &mut self,
        method: HttpMethod,
        path: &str,
        backends: Vec<Backend>,
    ) -> (r: Result<(), String>)
        requires
            old(self).wf(),
            named_params(path@) <= 25,
            backends@.len() * 10 <= usize::MAX,
        ensures
            final(self).wf(),
            Self::route_added(*old(self), *final(self), method, path@, backends@, r),
    {
        let key = RouteKey { method, path_hash: fnv1a_hash(path.as_bytes()) };
        match self.routes.find(&key) {
            Some(i) => {
                assert(self.routes.keys().index_of(key) == i) by {
                    assert(self.routes.keys().no_duplicates());
                }
                if same_backends(&self.routes.at(i).backends, &backends) {
                    return Ok(());
                }
            },
            None => {},
        }
        let table = maglev_build_compact_table(backends.as_slice());
        let route = Route {
            pattern: path.to_owned(),
            backends,
            maglev_table: table,
            header_matches: Vec::new(),
            method_matches: None,
            query_param_matches: Vec::new(),
            request_filters: None,
        };
        self.install(method, path, route, "Failed to add exact route ")
    }

    /// Updates the backends of a route; the same as adding it.
    pub fn update_route_backends(
        &mut self,
        method: HttpMethod,
        path: &str,
        backends: Vec<Backend>,
    ) -> (r: Result<(), String>)
        requires
            old(self).wf(),
            named_params(path@) <= 25,
            backends@.len() * 10 <= usize::MAX,
        ensures
            final(self).wf(),
            Self::route_added(*old(self), *final(self), method, path@, backends@, r),
    {
        self.add_route(method, path, backends)
    }

    /// Sets a route that asks for headers.
    pub fn add_route_with_headers(
        &mut self,
        method: HttpMethod,
        path: &str,
        backends: Vec<Backend>,
        header_matches: Vec<HeaderMatch>,
    ) -> (r: Result<(), String>)
        requires
            old(self).wf(),
            named_params(path@) <= 25,
            backends@.len() * 10 <= usize::MAX,
        ensures
            Self::route_set(*old(self), *final(self), method, path@, exact_label(), r),
            ({
                let route = final(self).route_at(method, path@);
                &&& route.backends@ == backends@
                &&& route.header_matches@ == header_matches@
                &&& route.method_matches is None
                &&& route.query_param_matches@.len() == 0
                &&& route.request_filters is None
            }),
    {
        let table = maglev_build_compact_table(backends.as_slice());
        let route = Route {
            pattern: path.to_owned(),
            backends,
            maglev_table: table,
            header_matches,
            method_matches: None,
            query_param_matches: Vec::new(),
            request_filters: None,
        };
        self.install(method, path, route, "Failed to add exact route ")
    }

    /// Sets a route that serves some methods only.
    pub fn add_route_with_methods(
        &mut self,
        method: HttpMethod,
        path: &str,
        backends: Vec<Backend>,
        method_matches: Vec<HttpMethod>,
    ) -> (r: Result<(), String>)
        requires
            old(self).wf(),
            named_params(path@) <= 25,
            backends@.len() * 10 <= usize::MAX,
        ensures
            Self::route_set(*old(self), *final(self), method, path@, exact_label(), r),
            ({
                let route = final(self).route_at(method, path@);
                &&& route.backends@ == backends@
                &&& route.header_matches@.len() == 0
                &&& route.method_matches == Some(method_matches)
                &&& route.query_param_matches@.len() == 0
                &&& route.request_filters is None
            }),
    {
        let table = maglev_build_compact_table(backends.as_slice());
        let route = Route {
            pattern: path.to_owned(),
            backends,
            maglev_table: table,
            header_matches: Vec::new(),
            method_matches: Some(method_matches),
            query_param_matches: Vec::new(),
            request_filters: None,
        };
        self.install(method, path, route, "Failed to add exact route ")
    }

    /// Sets a route that asks for query parameters.
    pub fn add_route_with_query_params(
        &mut self,
        method: HttpMethod,
        path: &str,
        backends: Vec<Backend>,
        query_param_matches: Vec<QueryParamMatch>,
    ) -> (r: Result<(), String>)
        requires
            old(self).wf(),
            named_params(path@) <= 25,
            backends@.len() * 10 <= usize::MAX,
        ensures
            Self::route_set(*old(self), *final(self), method, path@, exact_label(), r),
            ({
                let route = final(self).route_at(method, path@);
                &&& route.backends@ == backends@
                &&& route.header_matches@.len() == 0
                &&& route.method_matches is None
                &&& route.query_param_matches@ == query_param_matches@
                &&& route.request_filters is None
            }),
    {
        let table = maglev_build_compact_table(backends.as_slice());
        let route = Route {
            pattern: path.to_owned(),
            backends,
            maglev_table: table,
            header_matches: Vec::new(),
            method_matches: None,
            query_param_matches,
            request_filters: None,
        };
        self.install(method, path, route, "Failed to add exact route ")
    }

    /// Sets a route that changes request headers.
    pub fn add_route_with_filters(
        &mut self,
        method: HttpMethod,
        path: &str,
        backends: Vec<Backend>,
        filters: RequestHeaderModifier,
    ) -> (r: Result<(), String>)
        requires
            old(self).wf(),
            named_params(path@) <= 25,
            backends@.len() * 10 <= usize::MAX,
        ensures
            Self::route_set(*old(self), *final(self), method, path@, filtered_label(), r),
            ({
                let route = final(self).route_at(method, path@);
                &&& route.backends@ == backends@
                &&& route.header_matches@.len() == 0
                &&& route.method_matches is None
                &&& route.query_param_matches@.len() == 0
                &&& route.request_filters == Some(filters)
            }),
    {
        let table = maglev_build_compact_table(backends.as_slice());
        let route = Route {
            pattern: path.to_owned(),
            backends,
            maglev_table: table,
            header_matches: Vec::new(),
            method_matches: None,
            query_param_matches: Vec::new(),
            request_filters: Some(filters),
        };
        self.install(method, path, route, "Failed to add route ")
    }
}

/// The number of header operations of optional filters.
pub open spec fn operation_count(filters: Option<RequestHeaderModifier>) -> nat {
    match filters {
        Some(f) => f.operations@.len(),
        None => 0,
    }
}

impl Router {
    /// Whether no route makes more than so many header changes.
    pub open spec fn filters_within(&self, limit: nat) -> bool {
        forall|i: int|
            0 <= i < self.routes().len() ==> operation_count(
                (#[trigger] self.routes()[i]).request_filters,
            ) <= limit
    }

    /// The most header changes that a route makes.
    pub fn most_filter_operations(&self) -> (r: usize)
        requires
            self.wf(),
        ensures
            self.filters_within(r as nat),
            r == 0 || exists|i: int|
                0 <= i < self.routes().len() && operation_count(
                    (#[trigger] self.routes()[i]).request_filters,
                ) == r,
    {
        let mut most: usize = 0;
        let mut i: usize = 0;
        while i < self.routes.len()
            invariant
                i <= self.routes.values().len(),
                self.routes.values().len() == self.routes.keys().len(),
                self.routes() == self.routes.values(),
                forall|j: int|
                    0 <= j < i ==> operation_count((#[trigger] self.routes()[j]).request_filters)
                        <= most,
                most == 0 || exists|j: int|
                    0 <= j < i && operation_count((#[trigger] self.routes()[j]).request_filters)
                        == most,
            decreases self.routes.values().len() - i,
        {
            let n: usize = match &self.routes.at(i).request_filters {
                Some(f) => f.operations.len(),
                None => 0,
            };
            assert(operation_count(self.routes()[i as int].request_filters) == n);
            if n > most {
                most = n;
            }
            i += 1;
        }
        most
    }

    /// Marks a backend at an IPv4 address for graceful removal: from now on it gets no new requests.
    pub fn drain_backend(&mut self, backend_ip: u32, drain_timeout: u64, now: u64)
        requires
            old(self).wf(),
            now + drain_timeout <= u64::MAX,
        ensures
            final(self).wf(),
            final(self).draining() == old(self).draining().insert(
                Address::V4(backend_ip),
                BackendDraining { deadline: (now + drain_timeout) as u64 },
            ),
            final(self).health() == old(self).health(),
            final(self).keys() == old(self).keys(),
            final(self).routes() == old(self).routes(),
            final(self).prefixes() == old(self).prefixes(),
    {
        self.draining.insert(&Address::V4(backend_ip), BackendDraining::new(now, drain_timeout));
        proof {
            Self::lemma_wf_kept(*old(self), *self);
        }
    }

    /// Routes and prefix matching that have not changed keep their invariant.
    proof fn lemma_wf_kept(pre: Router, post: Router)
        requires
            pre.wf(),
            post.routes == pre.routes,
            post.prefixes == pre.prefixes,
            post.draining.wf(),
            post.health.wf(),
        ensures
            post.wf(),
    {
        assert forall|i: int| 0 <= i < post.routes().len() implies (
        #[trigger] post.routes()[i]).wf() by {
            assert(pre.routes()[i].wf());
        }
        assert forall|i: int| 0 <= i < post.prefixes().len() implies (
        #[trigger] post.prefixes()[i]).1 < post.routes().len() by {
            assert(pre.prefixes()[i].1 < pre.routes().len());
        }
        assert forall|i: int| 0 <= i < post.routes().len() implies (
        #[trigger] post.keys()[i]).path_hash == text_hash(post.routes()[i].pattern@) by {
            assert(pre.keys()[i].path_hash == text_hash(pre.routes()[i].pattern@));
        }
    }

    /// Whether a backend at an IPv4 address is being drained.
    pub fn is_backend_draining(&self, backend_ip: u32) -> (r: bool)
        requires
            self.wf(),
        ensures
            r == self.draining().contains_key(Address::V4(backend_ip)),
    {
        self.draining.contains_key(&Address::V4(backend_ip))
    }

    /// Forgets the backends whose drain deadline has come.
    pub fn cleanup_expired_draining_backends(&mut self, now: u64)
        requires
            old(self).wf(),
        ensures
            final(self).wf(),
            final(self).draining() == still_draining(old(self).draining(), now),
            final(self).health() == old(self).health(),
            final(self).keys() == old(self).keys(),
            final(self).routes() == old(self).routes(),
            final(self).prefixes() == old(self).prefixes(),
    {
        let mut i: usize = 0;
        while i < self.draining.len()
            invariant
                old(self).wf(),
                self.wf(),
                self.routes == old(self).routes,
                self.prefixes == old(self).prefixes,
                self.health == old(self).health,
                i <= self.draining.keys().len(),
                forall|j: int| 0 <= j < i ==> (#[trigger] self.draining.values()[j]).deadline > now,
                forall|k: Address| #[trigger]
                    self.draining.map().contains_key(k) ==> old(self).draining.map().contains_key(k)
                        && self.draining.map()[k] == old(self).draining.map()[k],
                forall|k: Address|
                    old(self).draining.map().contains_key(k) && (
                    #[trigger] old(self).draining.map()[k]).deadline > now
                        ==> self.draining.map().contains_key(k),
            decreases self.draining.keys().len() - i,
        {
            if self.draining.at(i).is_expired(now) {
                let ip: Address = *self.draining.key_at(i);
                let ghost before = self.draining;
                assert(before.keys()[i as int] == ip);
                assert(before.keys().index_of(ip) == i) by {
                    assert(before.keys().no_duplicates());
                }
                assert(before.map()[ip] == before.values()[i as int]);
                assert(before.keys().contains(ip));
                assert(before.map().contains_key(ip));
                let _had = self.draining.remove(&ip);
                assert forall|j: int| 0 <= j < i implies (
                #[trigger] self.draining.values()[j]).deadline > now by {
                    assert(self.draining.values()[j] == before.values()[j]);
                }
                proof {
                    Self::lemma_wf_kept(*old(self), *self);
                }
            } else {
                i += 1;
            }
        }
        proof {
            let done = self.draining;
            assert forall|k: Address| done.map().contains_key(k) implies done.map()[k].deadline > now by {
                let j = done.keys().index_of(k);
                assert(done.keys().contains(k));
                assert(done.values()[j].deadline > now);
            }
            assert(done.map() =~= still_draining(old(self).draining(), now));
        }
    }

    /// How a router changes when a response from an address is remembered.
    pub open spec fn response_recorded(
        pre: Router,
        post: Router,
        address: Address,
        status_code: u16,
    ) -> bool {
        &&& post.health().dom() == pre.health().dom().insert(address)
        &&& forall|k: Address|
            k != address && pre.health().contains_key(k) ==> (#[trigger] post.health()[k])
                == pre.health()[k]
        &&& post.health()[address]@ == window_after(pre.window_of(address), status_code)
        &&& post.draining() == pre.draining()
        &&& post.keys() == pre.keys()
        &&& post.routes() == pre.routes()
        &&& post.prefixes() == pre.prefixes()
    }

    /// Remembers the response of a backend at an IPv4 address for passive health checking.
    pub fn record_backend_response(&mut self, backend_ip: u32, status_code: u16)
        requires
            old(self).wf(),
        ensures
            final(self).wf(),
            Self::response_recorded(
                *old(self),
                *final(self),
                Address::V4(backend_ip),
                status_code,
            ),
    {
        self.record_response(Address::V4(backend_ip), status_code);
    }

    /// Remembers a response from an address for passive health checking.
    pub fn record_response(&mut self, address: Address, status_code: u16)
        requires
            old(self).wf(),
        ensures
            final(self).wf(),
            Self::response_recorded(*old(self), *final(self), address, status_code),
    {
        match self.health.find(&address) {
            Some(i) => {
                let mut h = self.health.replace_at(i, BackendHealth::new());
                h.record_response(status_code);
                let _empty = self.health.replace_at(i, h);
            },
            None => {
                let mut h = BackendHealth::new();
                h.record_response(status_code);
                self.health.insert(&address, h);
            },
        }
        proof {
            Self::lemma_wf_kept(*old(self), *self);
            assert(self.health().dom() =~= old(self).health().dom().insert(address));
        }
    }

    /// The remembered responses from an address.
    pub open spec fn window_of(&self, address: Address) -> Seq<bool> {
        if self.health().contains_key(address) {
            self.health()[address]@
        } else {
            Seq::empty()
        }
    }

    /// The flow hash of a request.
    fn compute_flow_hash(
        &self,
        path_hash: u64,
        src_ip: Option<u32>,
        src_port: Option<u16>,
    ) -> (r: u64)
        ensures
            r == flow_hash(path_hash, src_ip, src_port),
    {
        match (src_ip, src_port) {
            (Some(ip), Some(port)) => path_hash ^ (((ip as u64) << 16) | (port as u64)),
            _ => path_hash,
        }
    }

    /// The route that serves a method among those that share the path of route `i`.
    fn route_for(&self, i: usize, method: HttpMethod) -> (r: usize)
        requires
            self.wf(),
            i < self.routes().len(),
        ensures
            r == self.for_method(i as int, method),
            r < self.routes().len(),
    {
        let path = self.routes.at(i).pattern.as_str();
        let key = RouteKey { method, path_hash: fnv1a_hash(path.as_bytes()) };
        match self.routes.find(&key) {
            Some(j) => {
                assert(self.routes.keys().index_of(key) == j) by {
                    assert(self.routes.keys().no_duplicates());
                }
                assert(self.keys().contains(key));
                if text_eq(self.routes.at(j).pattern.as_str(), path) {
                    j
                } else {
                    i
                }
            },
            None => i,
        }
    }

    /// The position of the route that serves a method and path.
    fn route_index(&self, method: HttpMethod, path: &str, path_hash: u64) -> (r: Option<usize>)
        requires
            self.wf(),
            path_hash == text_hash(path@),
        ensures
            match self.route_of(method, path@) {
                Some(i) => r is Some && r->0 == i && 0 <= i < self.routes().len(),
                None => r is None,
            },
            self.prefix_rule(method, path@),
    {
        let key = RouteKey { method, path_hash };
        let count: usize = self.routes.len();
        match self.routes.find(&key) {
            Some(i) => {
                assert(self.routes.keys().index_of(key) == i) by {
                    assert(self.routes.keys().no_duplicates());
                }
                assert(self.keys().contains(key));
                Some(i)
            },
            None => match tree_at(&self.prefixes, path) {
                Some(v) => {
                    proof {
                        let j = choose|j: int|
                            0 <= j < installed(self.prefixes).len() && (
                            #[trigger] installed(self.prefixes)[j]).1 == v;
                        assert(self.prefixes()[j].1 < count);
                    }
                    let i = self.route_for(v as usize, method);
                    proof {
                        if all_plain(self.prefixes()) {
                            let m = choose|m: int|
                                most_specific(installed(self.prefixes), path@, m) && (
                                #[trigger] installed(self.prefixes)[m]).1 == v;
                            assert(self.prefixes()[m].1 == v);
                        }
                    }
                    Some(i)
                },
                None => None,
            },
        }
    }

    /// Whether a backend may serve requests.
    fn is_available(&self, backend: Backend) -> (r: bool)
        requires
            self.wf(),
        ensures
            r == available(self.health(), self.draining(), backend),
    {
        let healthy: bool = match self.health.get(&backend.address()) {
            Some(h) => h.is_healthy(),
            None => true,
        };
        healthy && !self.draining.contains_key(&backend.address())
    }

    /// The first available backend of a route for a flow hash.
    fn pick(&self, route: &Route, hash: u64) -> (r: Option<Backend>)
        requires
            self.wf(),
            route.wf(),
        ensures
            r == first_available(
                route.backends@,
                route.maglev_table@,
                hash,
                self.health(),
                self.draining(),
                0,
            ),
    {
        let n: usize = route.backends.len();
        if n == 0 {
            return None;
        }
        proof {
            lemma_table_shares(route.backends@);
        }
        let mut tried: Vec<bool> = Vec::new();
        while tried.len() < n
            invariant
                tried.len() <= n,
                forall|j: int| 0 <= j < tried.len() ==> !tried[j],
            decreases n - tried.len(),
        {
            tried.push(false);
        }
        let mut attempt: usize = 0;
        while attempt < n * 10
            invariant
                self.wf(),
                n == route.backends.len(),
                n > 0,
                n * 10 <= usize::MAX,
                attempt <= n * 10,
                route.maglev_table@.len() == COMPACT_MAGLEV_SIZE,
                forall|k: int|
                    0 <= k < COMPACT_MAGLEV_SIZE ==> (#[trigger] route.maglev_table@[k])
                        < route.backends@.len(),
                tried.len() == n,
                forall|j: int|
                    0 <= j < n && tried[j] ==> !available(
                        self.health(),
                        self.draining(),
                        #[trigger] route.backends@[j],
                    ),
                first_available(
                    route.backends@,
                    route.maglev_table@,
                    hash,
                    self.health(),
                    self.draining(),
                    attempt as nat,
                ) == first_available(
                    route.backends@,
                    route.maglev_table@,
                    hash,
                    self.health(),
                    self.draining(),
                    0,
                ),
            decreases n * 10 - attempt,
        {
            let entry = maglev_lookup_compact(
                hash.wrapping_add(attempt as u64),
                route.maglev_table.as_slice(),
            );
            let idx: usize = entry as usize;
            assert(idx < n);
            let backend = route.backends[idx];
            assert(backend == candidate(
                route.backends@,
                route.maglev_table@,
                hash,
                attempt as nat,
            ));
            if !tried[idx] {
                if self.is_available(backend) {
                    return Some(backend);
                }
                tried.set(idx, true);
            }
            attempt += 1;
        }
        None
    }

    /// The selection that a route gives to a request.
    fn select_from(
        &self,
        i: usize,
        path: &str,
        path_hash: u64,
        src_ip: Option<u32>,
        src_port: Option<u16>,
    ) -> (r: Option<RouteMatch>)
        requires
            self.wf(),
            path_hash == text_hash(path@),
            i < self.routes().len(),
        ensures
            self.selected(r, i as int, path@, src_ip, src_port),
    {
        assert(self.routes()[i as int].wf());
        let route = self.routes.at(i);
        let hash = self.compute_flow_hash(path_hash, src_ip, src_port);
        match self.pick(route, hash) {
            Some(backend) => {
                let filters: Option<RequestHeaderModifier> = match &route.request_filters {
                    Some(f) => Some(f.copied()),
                    None => None,
                };
                Some(
                    RouteMatch {
                        backend,
                        pattern: route.pattern.clone(),
                        request_filters: filters,
                        response_filters: None,
                        redirect: None,
                        timeout: None,
                        retry: None,
                    },
                )
            },
            None => None,
        }
    }

    /// Selects the backend for a request. A route that does not serve the method gives none.
    pub fn select_backend(
        &self,
        method: HttpMethod,
        path: &str,
        src_ip: Option<u32>,
        src_port: Option<u16>,
    ) -> (r: Option<RouteMatch>)
        requires
            self.wf(),
        ensures
            self.selection(method, path@, src_ip, src_port, r),
            self.prefix_rule(method, path@),
    {
        let path_hash = fnv1a_hash(path.as_bytes());
        match self.route_index(method, path, path_hash) {
            Some(i) => {
                match &self.routes.at(i).method_matches {
                    Some(methods) => {
                        if !holds_method(methods, method) {
                            return None;
                        }
                    },
                    None => {},
                }
                self.select_from(i, path, path_hash, src_ip, src_port)
            },
            None => None,
        }
    }

    /// Selects the backend for a request with headers. A route whose header conditions are not
    /// met gives none.
    pub fn select_backend_with_headers(
        &self,
        method: HttpMethod,
        path: &str,
        request_headers: Vec<(&str, &str)>,
        src_ip: Option<u32>,
        src_port: Option<u16>,
    ) -> (r: Option<RouteMatch>)
        requires
            self.wf(),
        ensures
            self.header_selection(method, path@, texts(request_headers@), src_ip, src_port, r),
            self.prefix_rule(method, path@),
    {
        let path_hash = fnv1a_hash(path.as_bytes());
        match self.route_index(method, path, path_hash) {
            Some(i) => {
                let conditions = &self.routes.at(i).header_matches;
                if conditions.len() != 0 && !headers_match(
                    conditions.as_slice(),
                    request_headers.as_slice(),
                ) {
                    return None;
                }
                self.select_from(i, path, path_hash, src_ip, src_port)
            },
            None => None,
        }
    }

    /// Selects the backend for a request with query parameters. A route whose query parameter
    /// conditions are not met gives none.
    pub fn select_backend_with_query_params(
        &self,
        method: HttpMethod,
        path: &str,
        query_params: Vec<(&str, &str)>,
        src_ip: Option<u32>,
        src_port: Option<u16>,
    ) -> (r: Option<RouteMatch>)
        requires
            self.wf(),
        ensures
            self.query_selection(method, path@, texts(query_params@), src_ip, src_port, r),
            self.prefix_rule(method, path@),
    {
        let path_hash = fnv1a_hash(path.as_bytes());
        match self.route_index(method, path, path_hash) {
            Some(i) => {
                let conditions = &self.routes.at(i).query_param_matches;
                if conditions.len() != 0 && !query_params_match(
                    conditions.as_slice(),
                    query_params.as_slice(),
                ) {
                    return None;
                }
                self.select_from(i, path, path_hash, src_ip, src_port)
            },
            None => None,
        }
    }
}

/// The draining backends whose deadline has not come.
pub open spec fn still_draining(
    draining: Map<Address, BackendDraining>,
    now: u64,
) -> Map<Address, BackendDraining> {
    Map::new(
        |k: Address| draining.contains_key(k) && draining[k].deadline > now,
        |k: Address| draining[k],
    )
}

proof fn lemma_first_available(
    backends: Seq<Backend>,
    hash: u64,
    health: Map<Address, BackendHealth>,
    draining: Map<Address, BackendDraining>,
    k: nat,
)
    requires
        backends.len() > 0,
    ensures
        match first_available(backends, maglev_table(backends), hash, health, draining, k) {
            Some(b) => backends.contains(b) && available(health, draining, b),
            None => true,
        },
    decreases backends.len() * 10 - k,
{
    if k < backends.len() * 10 {
        lemma_table_shares(backends);
        let entry = table_entry(maglev_table(backends), hash.wrapping_add(k as u64));
        assert(backends[entry as int] == candidate(backends, maglev_table(backends), hash, k));
        if !available(health, draining, candidate(backends, maglev_table(backends), hash, k)) {
            lemma_first_available(backends, hash, health, draining, k + 1);
        }
    }
}

/// A selected backend belongs to its route, is healthy as far as is known, and is not being
/// drained.
pub proof fn lemma_selected_is_available(
    router: Router,
    i: int,
    path: Seq<char>,
    src_ip: Option<u32>,
    src_port: Option<u16>,
)
    requires
        router.wf(),
        0 <= i < router.routes().len(),
    ensures
        match router.backend_of(i, path, src_ip, src_port) {
            Some(b) => router.routes()[i].backends@.contains(b) && available(
                router.health(),
                router.draining(),
                b,
            ),
            None => true,
        },
{
    let route = router.routes()[i];
    assert(route.wf());
    if route.backends@.len() > 0 {
        lemma_first_available(
            route.backends@,
            flow_hash(text_hash(path), src_ip, src_port),
            router.health(),
            router.draining(),
            0,
        );
    }
}

/// A route that has backends, all of which are available, always gives one.
pub proof fn lemma_available_route_selects(
    router: Router,
    i: int,
    path: Seq<char>,
    src_ip: Option<u32>,
    src_port: Option<u16>,
)
    requires
        router.wf(),
        0 <= i < router.routes().len(),
        router.routes()[i].backends@.len() > 0,
        forall|b: Backend| #[trigger]
            router.routes()[i].backends@.contains(b) ==> available(
                router.health(),
                router.draining(),
                b,
            ),
    ensures
        router.backend_of(i, path, src_ip, src_port) is Some,
{
    let route = router.routes()[i];
    assert(route.wf());
    lemma_table_shares(route.backends@);
    let hash = flow_hash(text_hash(path), src_ip, src_port);
    let entry = table_entry(route.maglev_table@, hash.wrapping_add(0));
    assert(route.backends@.contains(route.backends@[entry as int]));
}

/// A route none of whose backends is available gives none.
pub proof fn lemma_unavailable_route_selects_none(
    router: Router,
    i: int,
    path: Seq<char>,
    src_ip: Option<u32>,
    src_port: Option<u16>,
)
    requires
        router.wf(),
        0 <= i < router.routes().len(),
        forall|b: Backend| #[trigger]
            router.routes()[i].backends@.contains(b) ==> !available(
                router.health(),
                router.draining(),
                b,
            ),
    ensures
        router.backend_of(i, path, src_ip, src_port) is None,
{
    lemma_selected_is_available(router, i, path, src_ip, src_port);
}

proof fn lemma_first_available_kept(
    backends: Seq<Backend>,
    table: Seq<u8>,
    hash: u64,
    health: Map<Address, BackendHealth>,
    draining: Map<Address, BackendDraining>,
    address: Address,
    mark: BackendDraining,
    k: nat,
)
    requires
        first_available(backends, table, hash, health, draining, k) is Some,
        address_of(first_available(backends, table, hash, health, draining, k)->0) != address,
    ensures
        first_available(backends, table, hash, health, draining.insert(address, mark), k)
            == first_available(backends, table, hash, health, draining, k),
    decreases backends.len() * 10 - k,
{
    if k < backends.len() * 10 {
        let c = candidate(backends, table, hash, k);
        if !available(health, draining, c) {
            lemma_first_available_kept(backends, table, hash, health, draining, address, mark, k + 1);
        }
    }
}

/// Clients stick: as long as the router does not change, requests from the same client for the
/// same method and path are served by the same backend of the same route, or not at all.
pub proof fn lemma_clients_stick(
    router: Router,
    method: HttpMethod,
    path: Seq<char>,
    src_ip: Option<u32>,
    src_port: Option<u16>,
    first: Option<RouteMatch>,
    second: Option<RouteMatch>,
)
    requires
        router.selection(method, path, src_ip, src_port, first),
        router.selection(method, path, src_ip, src_port, second),
    ensures
        first is Some <==> second is Some,
        first is Some ==> {
            &&& first->0.backend == second->0.backend
            &&& first->0.pattern@ == second->0.pattern@
            &&& same_filters(first->0.request_filters, second->0.request_filters)
        },
{
}

/// Draining one backend moves no client that another backend serves.
pub proof fn lemma_draining_keeps_other_clients(
    pre: Router,
    post: Router,
    address: Address,
    mark: BackendDraining,
    i: int,
    path: Seq<char>,
    src_ip: Option<u32>,
    src_port: Option<u16>,
)
    requires
        post.routes() == pre.routes(),
        post.health() == pre.health(),
        post.draining() == pre.draining().insert(address, mark),
        pre.backend_of(i, path, src_ip, src_port) is Some,
        address_of(pre.backend_of(i, path, src_ip, src_port)->0) != address,
    ensures
        post.backend_of(i, path, src_ip, src_port) == pre.backend_of(i, path, src_ip, src_port),
{
    lemma_first_available_kept(
        pre.routes()[i].backends@,
        pre.routes()[i].maglev_table@,
        flow_hash(text_hash(path), src_ip, src_port),
        pre.health(),
        pre.draining(),
        address,
        mark,
        0,
    );
}

/// A route that was set serves its own method and path, whether or not prefix matching took it,
/// and every other route stays as it was.
pub proof fn lemma_set_route_serves(
    pre: Router,
    post: Router,
    method: HttpMethod,
    path: Seq<char>,
    label: Seq<char>,
    r: Result<(), String>,
    other: RouteKey,
)
    requires
        pre.wf(),
        Router::route_set(pre, post, method, path, label, r),
    ensures
        ({
            let key = RouteKey { method, path_hash: text_hash(path) };
            &&& post.route_of(method, path) == Some(slot(pre.keys(), key))
            &&& post.routes()[slot(pre.keys(), key)].pattern@ == path
            &&& other != key && pre.keys().contains(other) ==> post.keys().contains(other)
                && slot(post.keys(), other) == slot(pre.keys(), other)
                && post.routes()[slot(pre.keys(), other)] == pre.routes()[slot(pre.keys(), other)]
        }),
{
    let key = RouteKey { method, path_hash: text_hash(path) };
    let i = slot(pre.keys(), key);
    assert(post.keys()[i] == key);
    assert(post.keys().contains(key));
    assert(post.keys().no_duplicates());
    assert(post.keys().index_of(key) == i);
    if other != key && pre.keys().contains(other) {
        let j = pre.keys().index_of(other);
        assert(post.keys()[j] == other);
        assert(post.keys().contains(other));
        assert(post.keys().index_of(other) == j);
    }
}

/// A valid router has one key for each route, and no key twice; the key holds the hash of the
/// route's path.
pub proof fn lemma_keys_follow_routes(router: Router)
    requires
        router.wf(),
    ensures
        router.keys().len() == router.routes().len(),
        router.keys().no_duplicates(),
        forall|i: int|
            0 <= i < router.routes().len() ==> (#[trigger] router.keys()[i]).path_hash
                == text_hash(router.routes()[i].pattern@),
        forall|i: int|
            0 <= i < router.prefixes().len() ==> (#[trigger] router.prefixes()[i]).1
                < router.routes().len(),
        router.routes().len() <= usize::MAX,
{
}

/// Prefix matching that knows exactly the paths of the routes knows every one of them and what is
/// below it; it knows literal patterns only where all paths are literal. So it is once a route is
/// set without error, and literal paths are never refused.
pub proof fn lemma_prefixes_follow_routes(
    pre: Router,
    post: Router,
    method: HttpMethod,
    path: Seq<char>,
    label: Seq<char>,
    r: Result<(), String>,
)
    requires
        Router::route_set(pre, post, method, path, label, r),
    ensures
        r is Ok ==> post.synced(),
        plain_paths(paths_of(post.routes())) ==> r is Ok && all_plain(post.prefixes()),
        r is Ok ==> forall|k: int|
            0 <= k < post.routes().len() ==> holds_pattern(
                post.prefixes(),
                (#[trigger] post.routes()[k]).pattern@,
            ) && holds_pattern(post.prefixes(), prefix_pattern(post.routes()[k].pattern@)),
{
    let paths = paths_of(post.routes());
    if plain_paths(paths) {
        lemma_synced_plain(post);
    }
    if r is Ok {
        assert forall|k: int| 0 <= k < post.routes().len() implies holds_pattern(
            post.prefixes(),
            (#[trigger] post.routes()[k]).pattern@,
        ) && holds_pattern(post.prefixes(), prefix_pattern(post.routes()[k].pattern@)) by {
            assert(paths[k] == post.routes()[k].pattern@);
            let j = lemma_first_exists(paths, k);
            lemma_own_known(paths, paths.len(), j);
            let a = post.prefixes().index_of((paths[j], j as u64));
            assert(post.prefixes()[a].0 == paths[k]);
            let l = lemma_leader_exists(paths, k);
            lemma_own_known(paths, paths.len(), l);
            let b = post.prefixes().index_of((prefix_pattern(paths[l]), l as u64));
            assert(post.prefixes()[b].0 == prefix_pattern(paths[k]));
        }
    }
}

/// Where prefix matching knows exactly the paths of the routes and these are literal, it knows
/// literal patterns only.
proof fn lemma_synced_plain(router: Router)
    requires
        router.wf(),
        router.synced(),
        plain_paths(paths_of(router.routes())),
    ensures
        all_plain(router.prefixes()),
{
    let paths = paths_of(router.routes());
    lemma_entries(paths, paths.len());
    assert forall|k: int| 0 <= k < router.prefixes().len() implies is_plain(
        (#[trigger] router.prefixes()[k]).0,
    ) by {
        assert(is_entry(paths, paths.len(), patterns(paths, paths.len())[k]));
        lemma_plain_patterns(paths, router.prefixes()[k].1 as int);
    }
}

/// Whether a route with a literal path matches a request: the request is for the path itself, or
/// for something below it.
pub open spec fn serves(path: Seq<char>, request: Seq<char>) -> bool {
    ||| request == path
    ||| {
        &&& request.len() > trim_slashes(path).len() + 1
        &&& (trim_slashes(path) + "/"@).is_prefix_of(request)
    }
}

/// Whether path `i` is the longest that matches a request: the request's own path comes first, then
/// the one with the longest part before its trailing slashes, then the longer one.
pub open spec fn longest(paths: Seq<Seq<char>>, request: Seq<char>, i: int) -> bool {
    &&& 0 <= i < paths.len()
    &&& serves(paths[i], request)
    &&& forall|j: int|
        0 <= j < paths.len() && serves(#[trigger] paths[j], request) ==> {
            ||| paths[i] == request
            ||| paths[j] != request && trim_slashes(paths[j]).len() < trim_slashes(paths[i]).len()
            ||| {
                &&& paths[j] != request
                &&& trim_slashes(paths[j]) == trim_slashes(paths[i])
                &&& paths[j].len() <= paths[i].len()
            }
        }
}

/// Whether no path ends in more than one slash.
pub open spec fn single_slashes(paths: Seq<Seq<char>>) -> bool {
    forall|i: int|
        0 <= i < paths.len() ==> !((#[trigger] paths[i]).len() >= 2 && paths[i].last() == '/'
            && paths[i][paths[i].len() - 2] == '/')
}

proof fn lemma_single_slash(path: Seq<char>)
    requires
        !(path.len() >= 2 && path.last() == '/' && path[path.len() - 2] == '/'),
    ensures
        path.len() <= trim_slashes(path).len() + 1,
{
    if path.len() > 0 && path.last() == '/' {
        let rest = path.drop_last();
        assert(rest.len() > 0 ==> rest.last() == path[path.len() - 2]);
        assert(trim_slashes(rest) == rest);
    }
}

/// The route that serves a request for which no route is exact is one of the longest path.
proof fn lemma_prefix_is_longest(router: Router, method: HttpMethod, request: Seq<char>)
    requires
        router.wf(),
        router.synced(),
        plain_paths(paths_of(router.routes())),
        router.prefix_rule(method, request),
        !router.keys().contains(RouteKey { method, path_hash: text_hash(request) }),
    ensures
        match router.route_of(method, request) {
            Some(i) => longest(paths_of(router.routes()), request, i),
            None => forall|j: int|
                0 <= j < router.routes().len() ==> !serves(
                    (#[trigger] router.routes()[j]).pattern@,
                    request,
                ),
        },
{
    let paths = paths_of(router.routes());
    let known = router.prefixes();
    lemma_synced_plain(router);
    lemma_entries(paths, paths.len());
    // What matches a request is known under a pattern that covers it.
    assert forall|q: int| 0 <= q < paths.len() && serves(#[trigger] paths[q], request) implies exists|
        k: int,
    |
        0 <= k < known.len() && covers((#[trigger] known[k]).0, request) && literal(
            known[k].0,
        ).len() == if paths[q] == request {
            request.len()
        } else {
            trim_slashes(paths[q]).len() + 1
        } by {
        if paths[q] == request {
            let j = lemma_first_exists(paths, q);
            lemma_own_known(paths, paths.len(), j);
            let a = known.index_of((paths[j], j as u64));
            assert(covers(known[a].0, request));
        } else {
            let l = lemma_leader_exists(paths, q);
            lemma_own_known(paths, paths.len(), l);
            let a = known.index_of((prefix_pattern(paths[l]), l as u64));
            lemma_below_matches(paths[l], request);
            reveal_strlit("/");
            assert(covers(known[a].0, request));
        }
    }
    match router.route_of(method, request) {
        Some(i) => {
            let j = choose|j: int|
                most_specific(known, request, j) && i == router.for_method(
                    (#[trigger] known[j]).1 as int,
                    method,
                );
            let k = known[j].1 as int;
            assert(is_entry(paths, paths.len(), patterns(paths, paths.len())[j]));
            assert(paths[k] == router.routes()[k].pattern@);
            assert(0 <= i < paths.len() && paths[i] == paths[k]);
            lemma_below_braced(trim_slashes(paths[k]));
            lemma_below_matches(paths[k], request);
            reveal_strlit("/");
            assert forall|q: int| 0 <= q < paths.len() && serves(#[trigger] paths[q], request) implies {
                ||| paths[i] == request
                ||| paths[q] != request && trim_slashes(paths[q]).len() < trim_slashes(
                    paths[i],
                ).len()
                ||| {
                    &&& paths[q] != request
                    &&& trim_slashes(paths[q]) == trim_slashes(paths[i])
                    &&& paths[q].len() <= paths[i].len()
                }
            } by {
                let c = choose|c: int|
                    0 <= c < known.len() && covers((#[trigger] known[c]).0, request) && literal(
                        known[c].0,
                    ).len() == if paths[q] == request {
                        request.len()
                    } else {
                        trim_slashes(paths[q]).len() + 1
                    };
                assert(literal(known[c].0).len() <= literal(known[j].0).len());
                if paths[i] != request {
                    assert(known[j].0 == prefix_pattern(paths[k]) && leads(paths, k));
                    if trim_slashes(paths[q]).len() == trim_slashes(paths[k]).len() {
                        let m = trim_slashes(paths[k]).len() as int;
                        assert(request.take(m) =~= trim_slashes(paths[k]));
                        assert(request.take(m) =~= trim_slashes(paths[q]));
                    }
                }
            }
        },
        None => {
            assert forall|q: int| 0 <= q < router.routes().len() implies !serves(
                (#[trigger] router.routes()[q]).pattern@,
                request,
            ) by {
                assert(paths[q] == router.routes()[q].pattern@);
                if serves(paths[q], request) {
                    let c = choose|c: int|
                        0 <= c < known.len() && covers((#[trigger] known[c]).0, request);
                    assert(!covers(known[c].0, request));
                }
            }
        },
    }
}

/// What a router with literal paths selects. The route is one whose path is the longest that
/// matches the request, the method's own among several with that path, and where no path matches,
/// nothing is selected. The selected backend is one of the route's, is not being drained, and has no
/// more than half errors among its last responses; a route with a list of methods serves those only;
/// and where every backend of the route is being drained or fails too often, nothing is selected.
/// The same request to the same router selects the same again.
///
/// A path whose hash is that of another route's path is left out.
pub proof fn lemma_longest_path_serves(
    router: Router,
    method: HttpMethod,
    request: Seq<char>,
    src_ip: Option<u32>,
    src_port: Option<u16>,
    r: Option<RouteMatch>,
    again: Option<RouteMatch>,
)
    requires
        router.wf(),
        router.synced(),
        plain_paths(paths_of(router.routes())),
        forall|i: int|
            0 <= i < router.routes().len() && text_hash((#[trigger] router.routes()[i]).pattern@)
                == text_hash(request) ==> router.routes()[i].pattern@ == request,
        router.prefix_rule(method, request),
        router.selection(method, request, src_ip, src_port, r),
        router.selection(method, request, src_ip, src_port, again),
    ensures
        match router.route_of(method, request) {
            Some(i) => {
                let paths = paths_of(router.routes());
                let route = router.routes()[i];
                &&& longest(paths, request, i)
                &&& forall|j: int|
                    0 <= j < paths.len() && (#[trigger] router.keys()[j]).method == method
                        && paths[j] == paths[i] ==> j == i
                &&& single_slashes(paths) ==> forall|j: int|
                    0 <= j < paths.len() && serves(#[trigger] paths[j], request) ==> paths[j].len()
                        <= paths[i].len()
                &&& r is Some ==> {
                    &&& r->0.pattern@ == route.pattern@
                    &&& route.backends@.contains(r->0.backend)
                    &&& !router.draining().contains_key(address_of(r->0.backend))
                    &&& window_healthy(router.window_of(address_of(r->0.backend)))
                    &&& route.method_matches is Some ==> route.method_matches->0@.contains(method)
                }
                &&& (forall|b: Backend| #[trigger]
                    route.backends@.contains(b) ==> !available(
                        router.health(),
                        router.draining(),
                        b,
                    )) ==> r is None
            },
            None => {
                &&& r is None
                &&& forall|j: int|
                    0 <= j < router.routes().len() ==> !serves(
                        (#[trigger] router.routes()[j]).pattern@,
                        request,
                    )
            },
        },
        r is Some <==> again is Some,
        r is Some ==> r->0.backend == again->0.backend && r->0.pattern@ == again->0.pattern@
            && same_filters(r->0.request_filters, again->0.request_filters),
{
    let paths = paths_of(router.routes());
    let key = RouteKey { method, path_hash: text_hash(request) };
    lemma_clients_stick(router, method, request, src_ip, src_port, r, again);
    if router.keys().contains(key) {
        let i = router.keys().index_of(key);
        assert(router.keys()[i].path_hash == text_hash(router.routes()[i].pattern@));
        assert(paths[i] == request);
    } else {
        lemma_prefix_is_longest(router, method, request);
    }
    match router.route_of(method, request) {
        Some(i) => {
            lemma_selected_is_available(router, i, request, src_ip, src_port);
            assert forall|j: int|
                0 <= j < paths.len() && (#[trigger] router.keys()[j]).method == method && paths[j]
                    == paths[i] implies j == i by {
                let own = RouteKey { method, path_hash: text_hash(paths[j]) };
                assert(router.keys()[j].path_hash == text_hash(router.routes()[j].pattern@));
                assert(router.keys()[j] == own);
                assert(router.keys().contains(own));
                assert(router.keys().index_of(own) == j);
            }
            if single_slashes(paths) {
                reveal_strlit("/");
                assert forall|j: int|
                    0 <= j < paths.len() && serves(#[trigger] paths[j], request) implies paths[j].len()
                    <= paths[i].len() by {
                    lemma_single_slash(paths[j]);
                    lemma_trim_shorter(paths[i]);
                }
            }
        },
        None => {},
    }
}

proof fn lemma_trim_shorter(path: Seq<char>)
    ensures
        trim_slashes(path).len() <= path.len(),
    decreases path.len(),
{
    if path.len() > 0 && path.last() == '/' {
        lemma_trim_shorter(path.drop_last());
    }
}

/// Adding a route is idempotent and replaces what was set before: a route with a literal path among
/// literal paths is always added; from then on its method and path are served by the given backends
/// only, whatever an earlier call had set; and adding it once more succeeds and changes nothing. The
/// routes of all other methods and paths stay as they were.
pub proof fn lemma_adding_is_idempotent(
    pre: Router,
    once: Router,
    twice: Router,
    method: HttpMethod,
    path: Seq<char>,
    backends: Seq<Backend>,
    first: Result<(), String>,
    second: Result<(), String>,
    src_ip: Option<u32>,
    src_port: Option<u16>,
    selected: Option<RouteMatch>,
    other: RouteKey,
)
    requires
        pre.wf(),
        once.wf(),
        Router::route_added(pre, once, method, path, backends, first),
        Router::route_added(once, twice, method, path, backends, second),
        once.selection(method, path, src_ip, src_port, selected),
    ensures
        plain_paths(paths_of(once.routes())) ==> first is Ok,
        plain_paths(paths_of(once.routes())) && pre.synced() ==> once.synced(),
        second is Ok,
        twice == once,
        selected is Some ==> backends.contains(selected->0.backend),
        ({
            let key = RouteKey { method, path_hash: text_hash(path) };
            &&& once.keys().contains(key)
            &&& other != key && pre.keys().contains(other) ==> once.keys().contains(other)
                && slot(once.keys(), other) == slot(pre.keys(), other)
                && once.routes()[slot(pre.keys(), other)] == pre.routes()[slot(pre.keys(), other)]
        }),
        once.keys().len() == once.routes().len(),
{
    let key = RouteKey { method, path_hash: text_hash(path) };
    if !(pre.keys().contains(key) && pre.route_at(method, path).backends@ == backends) {
        lemma_set_route_serves(pre, once, method, path, exact_label(), first, other);
        let i = slot(pre.keys(), key);
        assert(once.keys()[i] == key);
        assert(once.keys().contains(key));
        assert(once.keys().no_duplicates());
        assert(slot(once.keys(), key) == i);
    }
    let i = slot(once.keys(), key);
    assert(once.route_of(method, path) == Some(i));
    lemma_selected_is_available(once, i, path, src_ip, src_port);
}

/// The pattern below a literal path matches exactly the longer paths that continue it after a
/// slash.
pub proof fn lemma_below_matches(path: Seq<char>, request: Seq<char>)
    requires
        brace_free(path),
    ensures
        covers(prefix_pattern(path), request) <==> {
            &&& request.len() > trim_slashes(path).len() + 1
            &&& (trim_slashes(path) + "/"@).is_prefix_of(request)
        },
        literal(prefix_pattern(path)) == trim_slashes(path) + "/"@,
{
    let base = trim_slashes(path);
    reveal_strlit("/{*rest}");
    reveal_strlit("/");
    lemma_below_braced(base);
    assert(literal(below(base)) =~= base + "/"@);
}

/// The window after a history of responses.
pub open spec fn window_of_history(statuses: Seq<u16>) -> Seq<bool>
    decreases statuses.len(),
{
    if statuses.len() == 0 {
        Seq::empty()
    } else {
        window_after(window_of_history(statuses.drop_last()), statuses.last())
    }
}

/// Health is judged by the last hundred responses: the window holds, for each of them, whether it
/// was a server error.
pub proof fn lemma_window_is_last_responses(statuses: Seq<u16>)
    ensures
        ({
            let n = if statuses.len() < 100 {
                statuses.len()
            } else {
                100
            };
            window_of_history(statuses) == Seq::new(
                n,
                |i: int| 500 <= statuses[statuses.len() - n + i] < 600,
            )
        }),
    decreases statuses.len(),
{
    if statuses.len() > 0 {
        lemma_window_is_last_responses(statuses.drop_last());
        let n = if statuses.len() < 100 {
            statuses.len()
        } else {
            100
        };
        assert(window_of_history(statuses) =~= Seq::new(
            n,
            |i: int| 500 <= statuses[statuses.len() - n + i] < 600,
        ));
    }
}

/// A drained backend is passed over until its deadline is reached and the expired marks are
/// cleaned up.
pub proof fn lemma_drained_until_deadline(
    draining: Map<Address, BackendDraining>,
    health: Map<Address, BackendHealth>,
    backend: Backend,
    now: u64,
)
    requires
        draining.contains_key(address_of(backend)),
    ensures
        !available(health, draining, backend),
        now < draining[address_of(backend)].deadline ==> !available(
            health,
            still_draining(draining, now),
            backend,
        ),
        now >= draining[address_of(backend)].deadline ==> !still_draining(draining, now).contains_key(
            address_of(backend),
        ),
{
}

proof fn lemma_count_is_filter(s: Seq<bool>)
    ensures
        count_true(s) == s.filter(|e: bool| e).len(),
    decreases s.len(),
{
    reveal(Seq::filter);
    if s.len() > 0 {
        lemma_count_is_filter(s.drop_last());
    }
}

/// A backend is healthy exactly if among the responses that are remembered of it there are no more
/// errors than others; so one of which nothing is remembered is.
pub proof fn lemma_healthy_by_majority(window: Seq<bool>)
    ensures
        window_healthy(window) <==> window.filter(|e: bool| e).len() <= window.len()
            - window.filter(|e: bool| e).len(),
        window.len() == 0 ==> window_healthy(window),
{
    lemma_count_is_filter(window);
}

/// Whether a backend may be given to a client: it is not being drained, and among the responses that
/// are remembered of its address there are no more errors than others.
pub open spec fn usable(router: Router, b: Backend) -> bool {
    &&& !router.draining().contains_key(address_of(b))
    &&& router.health().contains_key(address_of(b)) ==> {
        let window = router.health()[address_of(b)]@;
        2 * window.filter(|e: bool| e).len() <= window.len()
    }
}

/// The backend that a table holds so many slots behind a hash; hashes wrap around their range, and
/// slots around the table.
pub open spec fn slot_backend(route: Route, hash: u64, k: int) -> Backend {
    let slot = ((hash + k) % 18_446_744_073_709_551_616) % route.maglev_table@.len() as int;
    route.backends@[route.maglev_table@[slot] as int]
}

/// Whether a hash is that of a request: that of its path where the client is not known, else one that
/// differs from it by the client's address and port.
pub open spec fn is_flow_hash(
    hash: u64,
    path: Seq<char>,
    src_ip: Option<u32>,
    src_port: Option<u16>,
) -> bool {
    match (src_ip, src_port) {
        (Some(ip), Some(port)) => hash ^ text_hash(path) == ip * 65536 + port,
        _ => hash == text_hash(path),
    }
}

/// Every request has exactly one flow hash, and two clients that ask for the same path have
/// different ones.
pub proof fn lemma_clients_are_told_apart(
    path: Seq<char>,
    src_ip: Option<u32>,
    src_port: Option<u16>,
    hash: u64,
    other_ip: u32,
    other_port: u16,
)
    ensures
        is_flow_hash(hash, path, src_ip, src_port) <==> hash == flow_hash(
            text_hash(path),
            src_ip,
            src_port,
        ),
        match (src_ip, src_port) {
            (Some(ip), Some(port)) => ip != other_ip || port != other_port ==> flow_hash(
                text_hash(path),
                src_ip,
                src_port,
            ) != flow_hash(text_hash(path), Some(other_ip), Some(other_port)),
            _ => true,
        },
{
    let p = text_hash(path);
    match (src_ip, src_port) {
        (Some(ip), Some(port)) => {
            let c: u64 = ((ip as u64) << 16) | (port as u64);
            let d: u64 = ((other_ip as u64) << 16) | (other_port as u64);
            assert(((ip as u64) << 16) | (port as u64) == ip * 65536 + port) by (bit_vector);
            assert(((other_ip as u64) << 16) | (other_port as u64) == other_ip * 65536 + other_port)
                by (bit_vector);
            assert((p ^ c) ^ p == c) by (bit_vector);
            assert((p ^ d) ^ p == d) by (bit_vector);
            assert(hash ^ p == c ==> hash == p ^ c) by (bit_vector);
        },
        _ => {},
    }
}

proof fn lemma_usable_is_available(router: Router, b: Backend)
    ensures
        usable(router, b) == available(router.health(), router.draining(), b),
{
    if router.health().contains_key(address_of(b)) {
        lemma_count_is_filter(router.health()[address_of(b)]@);
    }
}

proof fn lemma_slot_is_candidate(route: Route, hash: u64, k: nat)
    requires
        route.wf(),
        k < route.backends@.len() * 10,
    ensures
        candidate(route.backends@, route.maglev_table@, hash, k) == slot_backend(
            route,
            hash,
            k as int,
        ),
{
    assert(k <= u64::MAX);
    let sum = hash + k;
    assert(hash.wrapping_add(k as u64) as int == sum % 18_446_744_073_709_551_616);
}

proof fn lemma_first_available_from(
    router: Router,
    route: Route,
    hash: u64,
    from: nat,
    k: nat,
)
    requires
        route.wf(),
        from <= k <= route.backends@.len() * 10,
        forall|j: int| from <= j < k ==> !usable(router, #[trigger] slot_backend(route, hash, j)),
        k < route.backends@.len() * 10 ==> usable(router, slot_backend(route, hash, k as int)),
    ensures
        first_available(
            route.backends@,
            route.maglev_table@,
            hash,
            router.health(),
            router.draining(),
            from,
        ) == if k < route.backends@.len() * 10 {
            Some(slot_backend(route, hash, k as int))
        } else {
            None
        },
    decreases k - from,
{
    if from < route.backends@.len() * 10 {
        lemma_slot_is_candidate(route, hash, from);
        lemma_usable_is_available(router, slot_backend(route, hash, from as int));
        if from < k {
            assert(!usable(router, slot_backend(route, hash, from as int)));
            lemma_first_available_from(router, route, hash, from + 1, k);
        }
    }
}

/// Selection does not fail while it need not. From the slot of its flow hash a request goes through
/// the table of its route, ten slots for every backend of the route. The first slot whose backend is
/// not being drained and does not fail too often decides, however many come before it, and there is
/// no backend only if no such slot comes up.
pub proof fn lemma_selection_goes_through_table(
    router: Router,
    i: int,
    path: Seq<char>,
    src_ip: Option<u32>,
    src_port: Option<u16>,
    hash: u64,
    k: int,
)
    requires
        router.wf(),
        0 <= i < router.routes().len(),
        is_flow_hash(hash, path, src_ip, src_port),
        0 <= k < 10 * router.routes()[i].backends@.len(),
    ensures
        ({
            let route = router.routes()[i];
            &&& usable(router, slot_backend(route, hash, k)) && (forall|j: int|
                0 <= j < k ==> !usable(router, #[trigger] slot_backend(route, hash, j)))
                ==> router.backend_of(i, path, src_ip, src_port) == Some(
                slot_backend(route, hash, k),
            )
            &&& usable(router, slot_backend(route, hash, k)) ==> router.backend_of(
                i,
                path,
                src_ip,
                src_port,
            ) is Some
            &&& (forall|j: int|
                0 <= j < 10 * route.backends@.len() ==> !usable(
                    router,
                    #[trigger] slot_backend(route, hash, j),
                )) ==> router.backend_of(i, path, src_ip, src_port) is None
        }),
{
    let route = router.routes()[i];
    assert(route.wf());
    lemma_clients_are_told_apart(path, src_ip, src_port, hash, 0, 0);
    if forall|j: int|
        0 <= j < 10 * route.backends@.len() ==> !usable(
            router,
            #[trigger] slot_backend(route, hash, j),
        ) {
        lemma_first_available_from(router, route, hash, 0, (route.backends@.len() * 10) as nat);
    }
    if usable(router, slot_backend(route, hash, k)) {
        let least = lemma_least_usable(router, route, hash, k as nat);
        lemma_first_available_from(router, route, hash, 0, least);
        if forall|j: int| 0 <= j < k ==> !usable(router, #[trigger] slot_backend(route, hash, j)) {
            assert(least == k) by {
                if least < k {
                    assert(!usable(router, slot_backend(route, hash, least as int)));
                }
            }
        }
    }
}

proof fn lemma_least_usable(router: Router, route: Route, hash: u64, k: nat) -> (least: nat)
    requires
        usable(router, slot_backend(route, hash, k as int)),
    ensures
        least <= k,
        usable(router, slot_backend(route, hash, least as int)),
        forall|j: int| 0 <= j < least ==> !usable(router, #[trigger] slot_backend(route, hash, j)),
    decreases k,
{
    if forall|j: int| 0 <= j < k ==> !usable(router, #[trigger] slot_backend(route, hash, j)) {
        k
    } else {
        let j = choose|j: int|
            0 <= j < k && usable(router, #[trigger] slot_backend(route, hash, j));
        lemma_least_usable(router, route, hash, j as nat)
    }
}

/// Whether a selection hands on what a route gives: a backend where the route gives one, with the
/// path of the route and its changes to request headers, and nothing else.
pub open spec fn hands_on(route: Route, backend: Option<Backend>, r: Option<RouteMatch>) -> bool {
    match r {
        None => backend is None,
        Some(m) => {
            &&& backend == Some(m.backend)
            &&& m.pattern@ == route.pattern@
            &&& m.request_filters is Some <==> route.request_filters is Some
            &&& m.request_filters is Some ==> m.request_filters->0.operations@
                == route.request_filters->0.operations@
            &&& m.response_filters is None
            &&& m.redirect is None
            &&& m.timeout is None
            &&& m.retry is None
        },
    }
}

/// The conditions of a route decide whether it serves a request, and nothing but that: a request that
/// meets them gets what the route gives, and any other gets nothing. A list of methods is met by its
/// methods; a header condition by some header of that name, in whatever letter case, with the value
/// or a value that its expression matches; a query parameter condition by some parameter of exactly
/// that name, likewise. Without conditions a route serves every request.
pub proof fn lemma_conditions_decide(
    router: Router,
    method: HttpMethod,
    path: Seq<char>,
    headers: Seq<(Seq<char>, Seq<char>)>,
    params: Seq<(Seq<char>, Seq<char>)>,
    src_ip: Option<u32>,
    src_port: Option<u16>,
    plain: Option<RouteMatch>,
    by_headers: Option<RouteMatch>,
    by_params: Option<RouteMatch>,
)
    requires
        router.selection(method, path, src_ip, src_port, plain),
        router.header_selection(method, path, headers, src_ip, src_port, by_headers),
        router.query_selection(method, path, params, src_ip, src_port, by_params),
    ensures
        match router.route_of(method, path) {
            None => plain is None && by_headers is None && by_params is None,
            Some(i) => {
                let route = router.routes()[i];
                let backend = router.backend_of(i, path, src_ip, src_port);
                let method_met = route.method_matches is Some ==> exists|j: int|
                    0 <= j < route.method_matches->0@.len() && route.method_matches->0@[j] == method;
                let headers_met = forall|c: int|
                    0 <= c < route.header_matches@.len() ==> met_by_header(
                        #[trigger] route.header_matches@[c],
                        headers,
                    );
                let params_met = forall|c: int|
                    0 <= c < route.query_param_matches@.len() ==> met_by_param(
                        #[trigger] route.query_param_matches@[c],
                        params,
                    );
                &&& 0 <= i < router.routes().len()
                &&& method_met ==> hands_on(route, backend, plain)
                &&& !method_met ==> plain is None
                &&& headers_met ==> hands_on(route, backend, by_headers)
                &&& !headers_met ==> by_headers is None
                &&& params_met ==> hands_on(route, backend, by_params)
                &&& !params_met ==> by_params is None
            },
        },
{
    match router.route_of(method, path) {
        None => {},
        Some(i) => {
            let route = router.routes()[i];
            lemma_headers_met(route.header_matches@, headers, seq![]);
            lemma_params_met(route.query_param_matches@, params, seq![]);
            match route.method_matches {
                Some(list) => {
                    if list@.contains(method) {
                        assert(list@[list@.index_of(method)] == method);
                    }
                },
                None => {},
            }
        },
    }
}

/// A backend is being drained until its deadline comes, and no other mark is touched by a cleanup.
pub proof fn lemma_cleanup_removes_expired(
    draining: Map<Address, BackendDraining>,
    address: Address,
    now: u64,
)
    ensures
        still_draining(draining, now).contains_key(address) <==> draining.contains_key(address)
            && now < draining[address].deadline,
        still_draining(draining, now).contains_key(address) ==> still_draining(
            draining,
            now,
        )[address] == draining[address],
{
}

/// The route of an exact method and path is found before any other. Otherwise the path decides first
/// and the method second: among the routes that share a path, the method's own is taken where there
/// is one.
pub proof fn lemma_method_has_its_own_route(
    router: Router,
    i: int,
    k: int,
    method: HttpMethod,
    path: Seq<char>,
)
    requires
        router.wf(),
        0 <= i < router.routes().len(),
        0 <= k < router.routes().len(),
    ensures
        ({
            let j = router.for_method(i, method);
            &&& 0 <= j < router.routes().len()
            &&& router.routes()[j].pattern@ == router.routes()[i].pattern@
            &&& router.keys()[k].method == method && router.routes()[k].pattern@
                == router.routes()[i].pattern@ ==> j == k
            &&& j == i || router.keys()[j].method == method
        }),
        router.keys()[k].method == method && router.routes()[k].pattern@ == path
            ==> router.route_of(method, path) == Some(k),
{
    let own = RouteKey { method, path_hash: text_hash(router.routes()[i].pattern@) };
    assert(router.keys()[k].path_hash == text_hash(router.routes()[k].pattern@));
    if router.keys()[k].method == method && router.routes()[k].pattern@
        == router.routes()[i].pattern@ {
        assert(router.keys()[k] == own);
        assert(router.keys().contains(own));
        assert(router.keys().index_of(own) == k);
    }
    let asked = RouteKey { method, path_hash: text_hash(path) };
    if router.keys()[k].method == method && router.routes()[k].pattern@ == path {
        assert(router.keys()[k] == asked);
        assert(router.keys().contains(asked));
        assert(router.keys().index_of(asked) == k);
    }
}

proof fn lemma_build_error_names_path(paths: Seq<Seq<char>>, i: nat, label: Seq<char>) -> (k: int)
    requires
        build_error(paths, i, label) is Some,
    ensures
        0 <= k < paths.len(),
        (label + paths[k] + ": "@).is_prefix_of(build_error(paths, i, label)->0) || (
        "Failed to add prefix route "@ + paths[k] + ": "@).is_prefix_of(
            build_error(paths, i, label)->0,
        ),
    decreases paths.len() - i,
{
    let path = paths[i as int];
    let own = refusal(patterns(paths, i), path);
    let below_it = refusal(with_own(paths, i), prefix_pattern(path));
    if first_of(paths, i as int) && own is Some {
        let start = label + path + ": "@;
        let text = insert_error(label, path, own->0);
        assert(text.subrange(0, start.len() as int) =~= start);
        i as int
    } else if leads(paths, i as int) && below_it is Some {
        let start = "Failed to add prefix route "@ + path + ": "@;
        let text = insert_error("Failed to add prefix route "@, path, below_it->0);
        assert(text.subrange(0, start.len() as int) =~= start);
        i as int
    } else {
        lemma_build_error_names_path(paths, i + 1, label)
    }
}

/// A route is set even where prefix matching refuses a path; the error then names a path that a
/// route has, prefix matching stays as it was, and backends keep their health and their draining.
pub proof fn lemma_refused_path_is_named(
    pre: Router,
    post: Router,
    method: HttpMethod,
    path: Seq<char>,
    label: Seq<char>,
    r: Result<(), String>,
)
    requires
        Router::route_set(pre, post, method, path, label, r),
    ensures
        r matches Err(text) ==> {
            &&& exists|k: int|
                0 <= k < post.routes().len() && ((label + (
                #[trigger] post.routes()[k]).pattern@ + ": "@).is_prefix_of(text@) || (
                "Failed to add prefix route "@ + post.routes()[k].pattern@ + ": "@).is_prefix_of(
                    text@,
                ))
            &&& post.prefixes() == pre.prefixes()
        },
        post.health() == pre.health(),
        post.draining() == pre.draining(),
{
    if r is Err {
        let paths = paths_of(post.routes());
        let k = lemma_build_error_names_path(paths, 0, label);
        assert(paths[k] == post.routes()[k].pattern@);
    }
}

/// A response is remembered for its own backend alone: its window then ends with whether the status
/// was that of a server error, no other backend's window changes, and neither routes nor draining do.
pub proof fn lemma_response_is_remembered(
    pre: Router,
    post: Router,
    address: Address,
    status_code: u16,
    other: Address,
)
    requires
        Router::response_recorded(pre, post, address, status_code),
    ensures
        ({
            let before = pre.window_of(address);
            let after = post.window_of(address);
            &&& after.len() > 0
            &&& after.last() <==> 500 <= status_code <= 599
            &&& before.len() < 100 ==> after.drop_last() == before
            &&& before.len() == 100 ==> after.len() == 100 && after.drop_last()
                == before.drop_first()
        }),
        other != address ==> post.window_of(other) == pre.window_of(other),
        post.routes() == pre.routes(),
        post.keys() == pre.keys(),
        post.prefixes() == pre.prefixes(),
        post.draining() == pre.draining(),
{
    assert(post.health().dom().contains(address));
    assert(post.health().dom().contains(other) <==> pre.health().dom().contains(other) || other
        == address);
    if other != address && pre.health().contains_key(other) {
        assert(post.health()[other] == pre.health()[other]);
    }
    let before = pre.window_of(address);
    let after = post.window_of(address);
    if before.len() < 100 {
        assert(after.drop_last() =~= before);
    }
    if before.len() == 100 {
        assert(after.drop_last() =~= before.drop_first());
    }
}

/// Every pattern that prefix matching knows leads to a route that it belongs to: one whose path it is,
/// or below whose path it matches.
pub proof fn lemma_patterns_lead_to_their_routes(router: Router, k: int)
    requires
        router.wf(),
        router.synced(),
        0 <= k < router.prefixes().len(),
    ensures
        ({
            let (pattern, i) = router.prefixes()[k];
            &&& i < router.routes().len()
            &&& {
                ||| pattern == router.routes()[i as int].pattern@
                ||| pattern == trim_slashes(router.routes()[i as int].pattern@) + "/{*rest}"@
            }
        }),
{
    let paths = paths_of(router.routes());
    lemma_entries(paths, paths.len());
    let e = router.prefixes()[k];
    assert(is_entry(paths, paths.len(), e));
}

/// Where no route is exact, what prefix matching finds decides, whatever the patterns are: the path
/// that it finds is served by the method's own route there or by the route that the path leads to,
/// and where it finds none, no route serves the request.
pub proof fn lemma_prefix_decides_where_none_is_exact(
    router: Router,
    method: HttpMethod,
    path: Seq<char>,
)
    requires
        !router.keys().contains(RouteKey { method, path_hash: text_hash(path) }),
    ensures
        found(router.prefixes(), path) is None <==> router.route_of(method, path) is None,
        found(router.prefixes(), path) matches Some(v) ==> router.route_of(method, path) == Some(
            router.for_method(v as int, method),
        ),
{
}

} // verus!
