//! Route filters: header modification, redirects, timeouts and retries.

use vstd::prelude::*;
use vstd::string::*;

verus! {

/// The status with which a redirect answers.
#[derive(Debug, Clone, Copy, PartialEq, Eq, Structural)]
pub enum RedirectStatusCode {
    /// 301 Moved Permanently
    MovedPermanently,
    /// 302 Found
    Found,
}

impl Default for RedirectStatusCode {
    fn default() -> (r: Self)
        ensures
            r == RedirectStatusCode::Found,
    {
        RedirectStatusCode::Found
    }
}

impl RedirectStatusCode {
    /// The numeric status.
    pub open spec fn status(self) -> u16 {
        match self {
            RedirectStatusCode::MovedPermanently => 301,
            RedirectStatusCode::Found => 302,
        }
    }

    /// The numeric status.
    pub fn as_u16(&self) -> (r: u16)
        ensures
            r == self.status(),
    {
        match self {
            RedirectStatusCode::MovedPermanently => 301,
            RedirectStatusCode::Found => 302,
        }
    }
}

/// A redirect: what is `None` is taken over from the request.
#[derive(Debug, Clone, PartialEq, Eq)]
pub struct RequestRedirect {
    /// The status to answer with
    pub status_code: RedirectStatusCode,
    /// Scheme to redirect to, such as `https`
    pub scheme: Option<String>,
    /// Host to redirect to, such as `new.example.com`
    pub hostname: Option<String>,
    /// Port to redirect to
    pub port: Option<u16>,
    /// Path to redirect to; it replaces the whole path
    pub path: Option<String>,
}

impl Default for RequestRedirect {
    fn default() -> (r: Self)
        ensures
            r == (RequestRedirect {
                status_code: RedirectStatusCode::Found,
                scheme: None,
                hostname: None,
                port: None,
                path: None,
            }),
    {
        RequestRedirect {
            status_code: RedirectStatusCode::Found,
            scheme: None,
            hostname: None,
            port: None,
            path: None,
        }
    }
}

impl RequestRedirect {
    /// A redirect with status 302 that changes nothing.
    pub fn new() -> (r: Self)
        ensures
            r == (RequestRedirect {
                status_code: RedirectStatusCode::Found,
                scheme: None,
                hostname: None,
                port: None,
                path: None,
            }),
    {
        Self::default()
    }

    /// Sets the status.
    pub fn status_code(self, code: RedirectStatusCode) -> (r: Self)
        ensures
            r == (RequestRedirect { status_code: code, ..self }),
    {
        let mut out = self;
        out.status_code = code;
        out
    }

    /// Sets the scheme.
    pub fn scheme(self, scheme: String) -> (r: Self)
        ensures
            r == (RequestRedirect { scheme: Some(scheme), ..self }),
    {
        let mut out = self;
        out.scheme = Some(scheme);
        out
    }

    /// Sets the host.
    pub fn hostname(self, hostname: String) -> (r: Self)
        ensures
            r == (RequestRedirect { hostname: Some(hostname), ..self }),
    {
        let mut out = self;
        out.hostname = Some(hostname);
        out
    }

    /// Sets the port.
    pub fn port(self, port: u16) -> (r: Self)
        ensures
            r == (RequestRedirect { port: Some(port), ..self }),
    {
        let mut out = self;
        out.port = Some(port);
        out
    }

    /// Sets the path.
    pub fn path(self, path: String) -> (r: Self)
        ensures
            r == (RequestRedirect { path: Some(path), ..self }),
    {
        let mut out = self;
        out.path = Some(path);
        out
    }
}

/// One change to a header collection.
#[derive(Debug, Clone, PartialEq, Eq)]
pub enum HeaderModifierOp {
    /// Replace all values of a header by one
    Replace { name: String, value: String },
    /// Add one more value to a header
    Add { name: String, value: String },
    /// Remove a header with all its values
    Remove { name: String },
}

/// A header change over plain texts.
pub ghost enum HeaderChange {
    Replace(Seq<char>, Seq<char>),
    Add(Seq<char>, Seq<char>),
    Remove(Seq<char>),
}

impl View for HeaderModifierOp {
    type V = HeaderChange;

    open spec fn view(&self) -> HeaderChange {
        match *self {
            HeaderModifierOp::Replace { name, value } => HeaderChange::Replace(name@, value@),
            HeaderModifierOp::Add { name, value } => HeaderChange::Add(name@, value@),
            HeaderModifierOp::Remove { name } => HeaderChange::Remove(name@),
        }
    }
}

/// The changes that a list of operations makes, in order.
pub open spec fn changes(ops: Seq<HeaderModifierOp>) -> Seq<HeaderChange> {
    Seq::new(ops.len(), |i: int| ops[i]@)
}

impl HeaderModifierOp {
    /// A copy of this operation.
    pub fn copied(&self) -> (r: HeaderModifierOp)
        ensures
            r == *self,
    {
        match self {
            HeaderModifierOp::Replace { name, value } => HeaderModifierOp::Replace {
                name: name.clone(),
                value: value.clone(),
            },
            HeaderModifierOp::Add { name, value } => HeaderModifierOp::Add {
                name: name.clone(),
                value: value.clone(),
            },
            HeaderModifierOp::Remove { name } => HeaderModifierOp::Remove { name: name.clone() },
        }
    }
}

/// Copies a list of operations.
pub(crate) fn copy_operations(ops: &Vec<HeaderModifierOp>) -> (r: Vec<HeaderModifierOp>)
    ensures
        r@ == ops@,
{
    let mut out: Vec<HeaderModifierOp> = Vec::new();
    let mut i: usize = 0;
    while i < ops.len()
        invariant
            i <= ops.len(),
            out@ == ops@.take(i as int),
        decreases ops.len() - i,
    {
        out.push(ops[i].copied());
        assert(ops@.take(i as int + 1) =~= ops@.take(i as int).push(ops[i as int]));
        i += 1;
    }
    assert(ops@.take(i as int) =~= ops@);
    out
}

/// The header changes that a route makes to requests before they are forwarded.
#[derive(Debug, Clone, PartialEq, Eq)]
pub struct RequestHeaderModifier {
    /// The operations, in the order in which they are applied
    pub operations: Vec<HeaderModifierOp>,
}

impl Default for RequestHeaderModifier {
    fn default() -> (r: Self)
        ensures
            r.operations@ == Seq::<HeaderModifierOp>::empty(),
    {
        RequestHeaderModifier { operations: Vec::new() }
    }
}

impl RequestHeaderModifier {
    /// A modifier without operations.
    pub fn new() -> (r: Self)
        ensures
            r.operations@ == Seq::<HeaderModifierOp>::empty(),
    {
        RequestHeaderModifier { operations: Vec::new() }
    }

    /// Adds an operation that replaces a header.
    pub fn set(self, name: String, value: String) -> (r: Self)
        ensures
            r.operations@ == self.operations@.push(HeaderModifierOp::Replace { name, value }),
    {
        let mut out = self;
        out.operations.push(HeaderModifierOp::Replace { name, value });
        out
    }

    /// Adds an operation that adds a value to a header.
    pub fn add(self, name: String, value: String) -> (r: Self)
        ensures
            r.operations@ == self.operations@.push(HeaderModifierOp::Add { name, value }),
    {
        let mut out = self;
        out.operations.push(HeaderModifierOp::Add { name, value });
        out
    }

    /// Adds an operation that removes a header.
    pub fn remove(self, name: String) -> (r: Self)
        ensures
            r.operations@ == self.operations@.push(HeaderModifierOp::Remove { name }),
    {
        let mut out = self;
        out.operations.push(HeaderModifierOp::Remove { name });
        out
    }

    /// A copy of this modifier.
    pub fn copied(&self) -> (r: Self)
        ensures
            r.operations@ == self.operations@,
    {
        RequestHeaderModifier { operations: copy_operations(&self.operations) }
    }
}

/// The header changes that a route makes to responses before they are returned.
#[derive(Debug, Clone, PartialEq, Eq)]
pub struct ResponseHeaderModifier {
    /// The operations, in the order in which they are applied
    pub operations: Vec<HeaderModifierOp>,
}

impl Default for ResponseHeaderModifier {
    fn default() -> (r: Self)
        ensures
            r.operations@ == Seq::<HeaderModifierOp>::empty(),
    {
        ResponseHeaderModifier { operations: Vec::new() }
    }
}

impl ResponseHeaderModifier {
    /// A modifier without operations.
    pub fn new() -> (r: Self)
        ensures
            r.operations@ == Seq::<HeaderModifierOp>::empty(),
    {
        ResponseHeaderModifier { operations: Vec::new() }
    }

    /// Adds an operation that replaces a header.
    pub fn set(self, name: String, value: String) -> (r: Self)
        ensures
            r.operations@ == self.operations@.push(HeaderModifierOp::Replace { name, value }),
    {
        let mut out = self;
        out.operations.push(HeaderModifierOp::Replace { name, value });
        out
    }

    /// Adds an operation that adds a value to a header.
    pub fn add(self, name: String, value: String) -> (r: Self)
        ensures
            r.operations@ == self.operations@.push(HeaderModifierOp::Add { name, value }),
    {
        let mut out = self;
        out.operations.push(HeaderModifierOp::Add { name, value });
        out
    }

    /// Adds an operation that removes a header.
    pub fn remove(self, name: String) -> (r: Self)
        ensures
            r.operations@ == self.operations@.push(HeaderModifierOp::Remove { name }),
    {
        let mut out = self;
        out.operations.push(HeaderModifierOp::Remove { name });
        out
    }
}

/// Time limits of a route, in nanoseconds; what is `None` is not limited.
#[derive(Debug, Clone, Copy, PartialEq, Eq, Structural)]
pub struct Timeout {
    /// For the whole request, retries included
    pub request: Option<u64>,
    /// For one attempt at the backend
    pub backend_request: Option<u64>,
}

impl Default for Timeout {
    fn default() -> (r: Self)
        ensures
            r == (Timeout { request: None, backend_request: None }),
    {
        Timeout { request: None, backend_request: None }
    }
}

impl Timeout {
    /// No time limit.
    pub fn new() -> (r: Self)
        ensures
            r == (Timeout { request: None, backend_request: None }),
    {
        Self::default()
    }

    /// Sets the limit of the whole request.
    pub fn request(self, timeout: u64) -> (r: Self)
        ensures
            r == (Timeout { request: Some(timeout), ..self }),
    {
        let mut out = self;
        out.request = Some(timeout);
        out
    }

    /// Sets the limit of one attempt at the backend.
    pub fn backend_request(self, timeout: u64) -> (r: Self)
        ensures
            r == (Timeout { backend_request: Some(timeout), ..self }),
    {
        let mut out = self;
        out.backend_request = Some(timeout);
        out
    }
}

/// When and how often a failed request is tried again.
#[derive(Debug, Clone, PartialEq, Eq)]
pub struct RetryConfig {
    /// Attempts after the first
    pub max_retries: u32,
    /// Response statuses that are worth another attempt
    pub retry_statuses: Vec<u16>,
    /// Whether a failed connection is worth another attempt
    pub retry_on_connection_error: bool,
    /// The delay before the first retry, in nanoseconds
    pub base_delay: u64,
    /// The longest delay before a retry, in nanoseconds
    pub max_delay: u64,
}

/// Two to the power of `n`.
pub open spec fn doublings(n: nat) -> nat
    decreases n,
{
    if n == 0 {
        1
    } else {
        2 * doublings((n - 1) as nat)
    }
}

impl RetryConfig {
    /// The delay before the retry that follows `attempt` earlier ones: doubled each time, up to
    /// the longest delay.
    pub open spec fn delay(&self, attempt: u32) -> nat {
        let d = self.base_delay as nat * doublings(attempt as nat);
        if d < self.max_delay {
            d
        } else {
            self.max_delay as nat
        }
    }

    /// Whether a response status is worth another attempt.
    pub fn should_retry_status(&self, status: u16) -> (r: bool)
        ensures
            r == self.retry_statuses@.contains(status),
    {
        let mut i: usize = 0;
        while i < self.retry_statuses.len()
            invariant
                i <= self.retry_statuses.len(),
                forall|j: int| 0 <= j < i ==> self.retry_statuses[j] != status,
            decreases self.retry_statuses.len() - i,
        {
            if self.retry_statuses[i] == status {
                return true;
            }
            i += 1;
        }
        false
    }

    /// The delay before the retry that follows `attempt` earlier ones.
    pub fn calculate_delay(&self, attempt: u32) -> (r: u64)
        ensures
            r == self.delay(attempt),
    {
        if self.base_delay == 0 {
            return 0;
        }
        let mut delay: u64 = self.base_delay;
        assert(self.base_delay as nat * doublings(0) == self.base_delay) by (nonlinear_arith)
            requires
                doublings(0) == 1,
        ;
        let mut i: u32 = 0;
        while i < attempt && delay < self.max_delay
            invariant
                i <= attempt,
                0 < self.base_delay,
                delay == self.base_delay as nat * doublings(i as nat),
            decreases attempt - i,
        {
            assert(self.base_delay as nat * doublings(i as nat + 1) == 2 * (self.base_delay as nat
                * doublings(i as nat))) by (nonlinear_arith)
                requires
                    doublings(i as nat + 1) == 2 * doublings(i as nat),
            ;
            if delay > u64::MAX / 2 {
                proof {
                    lemma_doublings_monotonic(self.base_delay as nat, i as nat + 1, attempt as nat);
                }
                return self.max_delay;
            }
            delay = delay * 2;
            i += 1;
        }
        if delay < self.max_delay {
            delay
        } else {
            proof {
                lemma_doublings_monotonic(self.base_delay as nat, i as nat, attempt as nat);
            }
            self.max_delay
        }
    }
}

proof fn lemma_doublings_monotonic(base: nat, i: nat, j: nat)
    requires
        i <= j,
    ensures
        base * doublings(i) <= base * doublings(j),
    decreases j,
{
    if i < j {
        lemma_doublings_monotonic(base, i, (j - 1) as nat);
        assert(base * doublings((j - 1) as nat) <= base * (2 * doublings((j - 1) as nat)))
            by (nonlinear_arith);
    }
}

/// The delay before the first retry is the base delay, and each further one is twice the one before
/// it, but never more than the longest delay.
pub proof fn lemma_delay_doubles(config: &RetryConfig, i: u32)
    ensures
        config.base_delay <= config.max_delay ==> config.delay(0) == config.base_delay,
        config.base_delay >= config.max_delay ==> config.delay(0) == config.max_delay,
        i < u32::MAX ==> {
            let next = config.delay((i + 1) as u32);
            &&& 2 * config.delay(i) <= config.max_delay ==> next == 2 * config.delay(i)
            &&& 2 * config.delay(i) >= config.max_delay ==> next == config.max_delay
        },
{
    let base = config.base_delay as nat;
    assert(base * doublings(0) == base) by (nonlinear_arith)
        requires
            doublings(0) == 1,
    ;
    if i < u32::MAX {
        let d = doublings(i as nat);
        assert(doublings(i as nat + 1) == 2 * d);
        assert(base * (2 * d) == 2 * (base * d)) by (nonlinear_arith);
    }
}

/// The delay before a retry never shrinks from one retry to the next and never exceeds the
/// longest delay.
pub proof fn lemma_delay_grows(config: &RetryConfig, i: u32, j: u32)
    requires
        i <= j,
    ensures
        config.delay(i) <= config.delay(j) <= config.max_delay,
{
    lemma_doublings_monotonic(config.base_delay as nat, i as nat, j as nat);
}

/// Operations stand for changes one for one, each for the change that it is named after, with its own
/// name and value.
pub proof fn lemma_operations_are_changes(ops: Seq<HeaderModifierOp>, i: int)
    requires
        0 <= i < ops.len(),
    ensures
        changes(ops).len() == ops.len(),
        match ops[i] {
            HeaderModifierOp::Replace { name, value } => changes(ops)[i] == HeaderChange::Replace(
                name@,
                value@,
            ),
            HeaderModifierOp::Add { name, value } => changes(ops)[i] == HeaderChange::Add(
                name@,
                value@,
            ),
            HeaderModifierOp::Remove { name } => changes(ops)[i] == HeaderChange::Remove(name@),
        },
{
}

/// A redirect is permanent or temporary, and its status says which.
pub proof fn lemma_redirect_statuses(code: RedirectStatusCode)
    ensures
        code == RedirectStatusCode::MovedPermanently <==> code.status() == 301,
        code == RedirectStatusCode::Found <==> code.status() == 302,
{
}

} // verus!
