//! Circuit breakers: stop sending requests to a backend that keeps failing, and probe it again
//! after a while.

use vstd::prelude::*;
use vstd::string::*;
use crate::table::Table;
use crate::time::{elapsed, time_since, SECOND};

verus! {

/// The probe requests that a half-open breaker lets through, and the successes that close it.
pub const HALF_OPEN_MAX_REQUESTS: u32 = 3;

/// The state of a breaker.
#[derive(Debug, Clone, Copy, PartialEq, Eq, Structural)]
pub enum CircuitState {
    /// Requests pass, failures are counted
    Closed,
    /// Requests are blocked until the timeout is over
    Open,
    /// A few requests pass to probe the backend
    HalfOpen,
}

/// What a breaker knows.
pub ghost struct BreakerView {
    pub state: CircuitState,
    pub failure_threshold: u32,
    pub timeout: u64,
    /// Consecutive failures
    pub failures: nat,
    /// Successes of probes
    pub successes: nat,
    /// Probes let through
    pub probes: nat,
    pub last_failure: Option<u64>,
}

impl BreakerView {
    /// A new breaker.
    pub open spec fn fresh(failure_threshold: u32, timeout: u64) -> BreakerView {
        BreakerView {
            state: CircuitState::Closed,
            failure_threshold,
            timeout,
            failures: 0,
            successes: 0,
            probes: 0,
            last_failure: None,
        }
    }

    /// The failures that open a closed breaker.
    pub open spec fn limit(self) -> nat {
        if self.failure_threshold == 0 {
            1
        } else {
            self.failure_threshold as nat
        }
    }

    /// What holds of a breaker in every state that it can reach.
    pub open spec fn valid(self) -> bool {
        &&& self.failures <= self.limit()
        &&& self.state == CircuitState::Closed ==> self.failures < self.limit()
        &&& self.state != CircuitState::Closed ==> self.failures == self.limit()
        &&& self.successes < HALF_OPEN_MAX_REQUESTS
        &&& self.probes <= HALF_OPEN_MAX_REQUESTS
        &&& self.state == CircuitState::Open ==> self.last_failure is Some
        &&& self.state != CircuitState::HalfOpen ==> self.successes == 0
    }

    /// Whether an open breaker may be probed.
    pub open spec fn ready(self, now: u64) -> bool {
        self.last_failure is Some && elapsed(self.last_failure->0, now) >= self.timeout
    }

    /// The breaker when a request asks to pass: an open one whose timeout is over becomes
    /// half-open.
    pub open spec fn woken(self, now: u64) -> BreakerView {
        if self.state == CircuitState::Open && self.ready(now) {
            BreakerView { state: CircuitState::HalfOpen, probes: 0, ..self }
        } else {
            self
        }
    }

    /// Whether a request passes.
    pub open spec fn allows(self, now: u64) -> bool {
        match self.woken(now).state {
            CircuitState::Closed => true,
            CircuitState::Open => false,
            CircuitState::HalfOpen => self.woken(now).probes < HALF_OPEN_MAX_REQUESTS,
        }
    }

    /// The breaker after a request asked to pass.
    pub open spec fn asked(self, now: u64) -> BreakerView {
        let s = self.woken(now);
        if s.state == CircuitState::HalfOpen && s.probes < HALF_OPEN_MAX_REQUESTS {
            BreakerView { probes: s.probes + 1, ..s }
        } else {
            s
        }
    }

    /// The breaker after a request succeeded.
    pub open spec fn succeeded(self) -> BreakerView {
        match self.state {
            CircuitState::Closed => BreakerView { failures: 0, ..self },
            CircuitState::HalfOpen => if self.successes + 1 >= HALF_OPEN_MAX_REQUESTS {
                BreakerView {
                    state: CircuitState::Closed,
                    failures: 0,
                    successes: 0,
                    last_failure: None,
                    ..self
                }
            } else {
                BreakerView { successes: self.successes + 1, ..self }
            },
            CircuitState::Open => self,
        }
    }

    /// The breaker after a request failed.
    pub open spec fn failed(self, now: u64) -> BreakerView {
        match self.state {
            CircuitState::Closed => BreakerView {
                failures: self.failures + 1,
                last_failure: Some(now),
                state: if self.failures + 1 >= self.failure_threshold {
                    CircuitState::Open
                } else {
                    CircuitState::Closed
                },
                ..self
            },
            CircuitState::HalfOpen => BreakerView {
                state: CircuitState::Open,
                successes: 0,
                probes: 0,
                last_failure: Some(now),
                ..self
            },
            CircuitState::Open => BreakerView { last_failure: Some(now), ..self },
        }
    }
}

/// A circuit breaker.
#[derive(Debug)]
pub struct CircuitBreaker {
    state: CircuitState,
    failure_threshold: u32,
    success_count: u32,
    failure_count: u32,
    timeout: u64,
    last_failure_time: Option<u64>,
    half_open_requests: u32,
}

impl View for CircuitBreaker {
    type V = BreakerView;

    closed spec fn view(&self) -> BreakerView {
        BreakerView {
            state: self.state,
            failure_threshold: self.failure_threshold,
            timeout: self.timeout,
            failures: self.failure_count as nat,
            successes: self.success_count as nat,
            probes: self.half_open_requests as nat,
            last_failure: self.last_failure_time,
        }
    }
}

impl CircuitBreaker {
    /// A closed breaker that opens after the given consecutive failures and may be probed again
    /// after the timeout.
    pub fn new(failure_threshold: u32, timeout: u64) -> (r: Self)
        ensures
            r@ == BreakerView::fresh(failure_threshold, timeout),
            r@.valid(),
    {
        CircuitBreaker {
            state: CircuitState::Closed,
            failure_threshold,
            success_count: 0,
            failure_count: 0,
            timeout,
            last_failure_time: None,
            half_open_requests: 0,
        }
    }

    /// Whether a request may pass.
    pub fn allow_request(&mut self, now: u64) -> (r: bool)
        requires
            old(self)@.valid(),
        ensures
            r == old(self)@.allows(now),
            final(self)@ == old(self)@.asked(now),
            final(self)@.valid(),
    {
        if self.state == CircuitState::Open && self.should_attempt_reset(now) {
            self.state = CircuitState::HalfOpen;
            self.half_open_requests = 0;
        }
        match self.state {
            CircuitState::Closed => true,
            CircuitState::Open => false,
            CircuitState::HalfOpen => {
                if self.half_open_requests < HALF_OPEN_MAX_REQUESTS {
                    self.half_open_requests = self.half_open_requests + 1;
                    true
                } else {
                    false
                }
            },
        }
    }

    /// Records that a request succeeded.
    pub fn record_success(&mut self)
        requires
            old(self)@.valid(),
        ensures
            final(self)@ == old(self)@.succeeded(),
            final(self)@.valid(),
    {
        match self.state {
            CircuitState::Closed => {
                self.failure_count = 0;
            },
            CircuitState::HalfOpen => {
                self.success_count = self.success_count + 1;
                if self.success_count >= HALF_OPEN_MAX_REQUESTS {
                    self.state = CircuitState::Closed;
                    self.failure_count = 0;
                    self.success_count = 0;
                    self.last_failure_time = None;
                }
            },
            CircuitState::Open => {},
        }
    }

    /// Records that a request failed.
    pub fn record_failure(&mut self, now: u64)
        requires
            old(self)@.valid(),
        ensures
            final(self)@ == old(self)@.failed(now),
            final(self)@.valid(),
    {
        match self.state {
            CircuitState::Closed => {
                self.failure_count = self.failure_count + 1;
                self.last_failure_time = Some(now);
                if self.failure_count >= self.failure_threshold {
                    self.state = CircuitState::Open;
                }
            },
            CircuitState::HalfOpen => {
                self.state = CircuitState::Open;
                self.success_count = 0;
                self.half_open_requests = 0;
                self.last_failure_time = Some(now);
            },
            CircuitState::Open => {
                self.last_failure_time = Some(now);
            },
        }
    }

    /// The current state.
    pub fn state(&self) -> (r: CircuitState)
        ensures
            r == self@.state,
    {
        self.state
    }

    /// The consecutive failures so far.
    pub fn failure_count(&self) -> (r: u32)
        ensures
            r == self@.failures,
    {
        self.failure_count
    }

    /// Whether an open breaker may be probed.
    fn should_attempt_reset(&self, now: u64) -> (r: bool)
        ensures
            r == self@.ready(now),
    {
        match self.last_failure_time {
            Some(last) => time_since(last, now) >= self.timeout,
            None => false,
        }
    }

    /// Closes the breaker and forgets what it counted.
    pub fn reset(&mut self)
        ensures
            final(self)@ == BreakerView::fresh(old(self)@.failure_threshold, old(self)@.timeout),
            final(self)@.valid(),
    {
        self.state = CircuitState::Closed;
        self.failure_count = 0;
        self.success_count = 0;
        self.last_failure_time = None;
        self.half_open_requests = 0;
    }
}

/// The text of a state, as metrics label it.
pub open spec fn state_text(state: CircuitState) -> Seq<char> {
    match state {
        CircuitState::Closed => "Closed"@,
        CircuitState::Open => "Open"@,
        CircuitState::HalfOpen => "HalfOpen"@,
    }
}

/// The text of a state, as metrics label it.
pub fn state_to_str(state: CircuitState) -> (r: &'static str)
    ensures
        r@ == state_text(state),
{
    match state {
        CircuitState::Closed => "Closed",
        CircuitState::Open => "Open",
        CircuitState::HalfOpen => "HalfOpen",
    }
}

/// The number of a state, as metrics show it.
pub open spec fn state_number(state: CircuitState) -> i64 {
    match state {
        CircuitState::Closed => 0,
        CircuitState::Open => 1,
        CircuitState::HalfOpen => 2,
    }
}

/// The metrics of one call at a breaker: the number of the new state, and the labels of the
/// transition where the state changed.
pub fn state_metrics(before: CircuitState, after: CircuitState) -> (r: (
    i64,
    Option<(&'static str, &'static str)>,
))
    ensures
        r.0 == state_number(after),
        r.1 is Some <==> before != after,
        match r.1 {
            Some(labels) => labels.0@ == state_text(before) && labels.1@ == state_text(after),
            None => true,
        },
{
    let value: i64 = match after {
        CircuitState::Closed => 0,
        CircuitState::Open => 1,
        CircuitState::HalfOpen => 2,
    };
    if before != after {
        (value, Some((state_to_str(before), state_to_str(after))))
    } else {
        (value, None)
    }
}

/// The breakers of all backends, created as they are asked for.
pub struct CircuitBreakerManager {
    breakers: Table<String, CircuitBreaker>,
    default_failure_threshold: u32,
    default_timeout: u64,
}

impl CircuitBreakerManager {
    /// The breakers, by backend.
    pub closed spec fn breakers(&self) -> Map<Seq<char>, CircuitBreaker> {
        self.breakers.map()
    }

    /// The failure threshold of new breakers.
    pub closed spec fn threshold(&self) -> u32 {
        self.default_failure_threshold
    }

    /// The timeout of new breakers.
    pub closed spec fn timeout(&self) -> u64 {
        self.default_timeout
    }

    /// All breakers are in states that breakers can reach.
    pub closed spec fn wf(&self) -> bool {
        &&& self.breakers.wf()
        &&& forall|k: Seq<char>| #[trigger]
            self.breakers().contains_key(k) ==> self.breakers()[k]@.valid()
    }

    /// What is known of a backend: its breaker, or a new one.
    pub open spec fn of(&self, backend_id: Seq<char>) -> BreakerView {
        if self.breakers().contains_key(backend_id) {
            self.breakers()[backend_id]@
        } else {
            BreakerView::fresh(self.threshold(), self.timeout())
        }
    }

    /// Whether one manager differs from another in the breaker of one backend only, which is as
    /// given.
    pub open spec fn changed_to(
        pre: CircuitBreakerManager,
        post: CircuitBreakerManager,
        backend_id: Seq<char>,
        breaker: BreakerView,
    ) -> bool {
        &&& post.wf()
        &&& post.threshold() == pre.threshold()
        &&& post.timeout() == pre.timeout()
        &&& post.breakers().dom() == pre.breakers().dom().insert(backend_id)
        &&& post.breakers()[backend_id]@ == breaker
        &&& forall|k: Seq<char>|
            k != backend_id && pre.breakers().contains_key(k) ==> (#[trigger] post.breakers()[k])
                == pre.breakers()[k]
    }

    /// No breaker yet.
    pub fn new(failure_threshold: u32, timeout: u64) -> (r: Self)
        ensures
            r.wf(),
            r.breakers() == Map::<Seq<char>, CircuitBreaker>::empty(),
            r.threshold() == failure_threshold,
            r.timeout() == timeout,
    {
        CircuitBreakerManager {
            breakers: Table::new(),
            default_failure_threshold: failure_threshold,
            default_timeout: timeout,
        }
    }

    /// The position of a backend's breaker, which is created where there is none.
    fn position_of(&mut self, backend_id: &str) -> (r: usize)
        requires
            old(self).wf(),
        ensures
            Self::changed_to(
                *old(self),
                *final(self),
                backend_id@,
                old(self).of(backend_id@),
            ),
            old(self).breakers().contains_key(backend_id@) ==> *final(self) == *old(self),
            r < final(self).breakers.keys().len(),
            final(self).breakers.keys()[r as int] == backend_id@,
            final(self).breakers.values()[r as int] == final(self).breakers()[backend_id@],
    {
        match self.breakers.find(backend_id) {
            Some(i) => {
                assert(self.breakers().dom() =~= old(self).breakers().dom().insert(backend_id@));
                i
            },
            None => {
                let breaker = CircuitBreaker::new(
                    self.default_failure_threshold,
                    self.default_timeout,
                );
                let at: usize = self.breakers.len();
                self.breakers.insert(backend_id, breaker);
                assert(self.breakers.keys()[at as int] == backend_id@);
                assert(self.breakers().dom() =~= old(self).breakers().dom().insert(backend_id@));
                at
            },
        }
    }

    /// The breaker of a backend, which is created where there is none.
    pub fn get_breaker(&mut self, backend_id: &str) -> (r: &CircuitBreaker)
        requires
            old(self).wf(),
        ensures
            Self::changed_to(
                *old(self),
                *final(self),
                backend_id@,
                old(self).of(backend_id@),
            ),
            *r == final(self).breakers()[backend_id@],
    {
        let i = self.position_of(backend_id);
        self.breakers.at(i)
    }

    /// Whether a request to a backend may pass.
    pub fn allow_request(&mut self, backend_id: &str, now: u64) -> (r: bool)
        requires
            old(self).wf(),
        ensures
            r == old(self).of(backend_id@).allows(now),
            Self::changed_to(
                *old(self),
                *final(self),
                backend_id@,
                old(self).of(backend_id@).asked(now),
            ),
    {
        let i = self.position_of(backend_id);
        let ghost mid = *self;
        let mut breaker = self.breakers.replace_at(i, CircuitBreaker::new(0, 0));
        let r = breaker.allow_request(now);
        let _placeholder = self.breakers.replace_at(i, breaker);
        proof {
            Self::lemma_replaced(*old(self), mid, *self, backend_id@);
        }
        r
    }

    /// Records that a request to a backend succeeded.
    pub fn record_success(&mut self, backend_id: &str)
        requires
            old(self).wf(),
        ensures
            Self::changed_to(
                *old(self),
                *final(self),
                backend_id@,
                old(self).of(backend_id@).succeeded(),
            ),
    {
        let i = self.position_of(backend_id);
        let ghost mid = *self;
        let mut breaker = self.breakers.replace_at(i, CircuitBreaker::new(0, 0));
        breaker.record_success();
        let _placeholder = self.breakers.replace_at(i, breaker);
        proof {
            Self::lemma_replaced(*old(self), mid, *self, backend_id@);
        }
    }

    /// Records that a request to a backend failed.
    pub fn record_failure(&mut self, backend_id: &str, now: u64)
        requires
            old(self).wf(),
        ensures
            Self::changed_to(
                *old(self),
                *final(self),
                backend_id@,
                old(self).of(backend_id@).failed(now),
            ),
    {
        let i = self.position_of(backend_id);
        let ghost mid = *self;
        let mut breaker = self.breakers.replace_at(i, CircuitBreaker::new(0, 0));
        breaker.record_failure(now);
        let _placeholder = self.breakers.replace_at(i, breaker);
        proof {
            Self::lemma_replaced(*old(self), mid, *self, backend_id@);
        }
    }

    proof fn lemma_replaced(pre: Self, mid: Self, post: Self, backend_id: Seq<char>)
        requires
            mid.wf(),
            pre.breakers().dom().insert(backend_id) == mid.breakers().dom(),
            mid.threshold() == pre.threshold(),
            mid.timeout() == pre.timeout(),
            post.threshold() == pre.threshold(),
            post.timeout() == pre.timeout(),
            forall|k: Seq<char>|
                k != backend_id && pre.breakers().contains_key(k) ==> (
                #[trigger] mid.breakers()[k]) == pre.breakers()[k],
            post.breakers.wf(),
            post.breakers()[backend_id]@.valid(),
            exists|x: CircuitBreaker, y: CircuitBreaker|
                post.breakers() == (#[trigger] mid.breakers().insert(backend_id, x).insert(
                    backend_id,
                    y,
                )),
        ensures
            Self::changed_to(pre, post, backend_id, post.breakers()[backend_id]@),
    {
        assert(post.breakers().dom() =~= pre.breakers().dom().insert(backend_id));
        assert forall|k: Seq<char>| #[trigger] post.breakers().contains_key(k) implies (
        post.breakers()[k])@.valid() by {
            if k != backend_id {
                assert(mid.breakers().contains_key(k));
            }
        }
        assert forall|k: Seq<char>|
            k != backend_id && pre.breakers().contains_key(k) implies (
        #[trigger] post.breakers()[k]) == pre.breakers()[k] by {
            assert(mid.breakers()[k] == pre.breakers()[k]);
        }
    }

    /// The state of a backend's breaker, where it has one.
    pub fn get_state(&self, backend_id: &str) -> (r: Option<CircuitState>)
        requires
            self.wf(),
        ensures
            r == if self.breakers().contains_key(backend_id@) {
                Some(self.breakers()[backend_id@]@.state)
            } else {
                None
            },
    {
        match self.breakers.get(backend_id) {
            Some(b) => Some(b.state()),
            None => None,
        }
    }

    /// Forgets the breaker of a backend.
    pub fn remove_backend(&mut self, backend_id: &str)
        requires
            old(self).wf(),
        ensures
            final(self).wf(),
            final(self).breakers() == old(self).breakers().remove(backend_id@),
            final(self).threshold() == old(self).threshold(),
            final(self).timeout() == old(self).timeout(),
    {
        let _had = self.breakers.remove(backend_id);
        assert forall|k: Seq<char>| #[trigger] self.breakers().contains_key(k) implies (
        self.breakers()[k])@.valid() by {
            assert(old(self).breakers().contains_key(k));
        }
    }
}

impl Default for CircuitBreakerManager {
    /// Five failures open a breaker for thirty seconds.
    fn default() -> (r: Self)
        ensures
            r.wf(),
            r.breakers() == Map::<Seq<char>, CircuitBreaker>::empty(),
            r.threshold() == 5,
            r.timeout() == 30_000_000_000,
    {
        CircuitBreakerManager::new(5, 30 * SECOND)
    }
}

/// A breaker after failures at the given instants, one after the other.
pub open spec fn after_failures(b: BreakerView, times: Seq<u64>) -> BreakerView
    decreases times.len(),
{
    if times.len() == 0 {
        b
    } else {
        after_failures(b, times.drop_last()).failed(times.last())
    }
}

/// A new breaker stays closed until its threshold of consecutive failures is reached, and is open
/// from then on, whatever else fails.
pub proof fn lemma_opens_at_threshold(failure_threshold: u32, timeout: u64, times: Seq<u64>)
    ensures
        ({
            let b = after_failures(BreakerView::fresh(failure_threshold, timeout), times);
            &&& times.len() < b.limit() ==> b.state == CircuitState::Closed && b.failures
                == times.len()
            &&& times.len() >= b.limit() ==> b.state == CircuitState::Open && b.last_failure
                == Some(times.last())
            &&& b.valid()
            &&& b.failure_threshold == failure_threshold
        }),
    decreases times.len(),
{
    if times.len() > 0 {
        lemma_opens_at_threshold(failure_threshold, timeout, times.drop_last());
    }
}

/// An open breaker lets nothing pass until its timeout since the last failure is over, and then
/// lets a request pass and is half-open.
pub proof fn lemma_open_until_timeout(b: BreakerView, now: u64)
    requires
        b.valid(),
        b.state == CircuitState::Open,
    ensures
        b.allows(now) <==> elapsed(b.last_failure->0, now) >= b.timeout,
        !b.allows(now) ==> b.asked(now) == b,
        b.allows(now) ==> b.asked(now).state == CircuitState::HalfOpen && b.asked(now).probes == 1,
{
}

/// A breaker after requests asked to pass at the given instants, and how many did pass.
pub open spec fn after_asking(b: BreakerView, times: Seq<u64>) -> (BreakerView, nat)
    decreases times.len(),
{
    if times.len() == 0 {
        (b, 0)
    } else {
        let (before, passed) = after_asking(b, times.drop_last());
        (
            before.asked(times.last()),
            passed + if before.allows(times.last()) {
                1nat
            } else {
                0nat
            },
        )
    }
}

/// A half-open breaker lets every request pass until it has let three of them pass, and no more
/// until a result is recorded.
pub proof fn lemma_half_open_limits_probes(b: BreakerView, times: Seq<u64>)
    requires
        b.valid(),
        b.state == CircuitState::HalfOpen,
    ensures
        ({
            let (after, passed) = after_asking(b, times);
            &&& after.state == CircuitState::HalfOpen
            &&& after.probes == b.probes + passed
            &&& b.probes + passed <= 3
            &&& b.probes + times.len() <= 3 ==> passed == times.len()
            &&& b.probes + times.len() >= 3 ==> b.probes + passed == 3
            &&& after == (BreakerView { probes: after.probes, ..b })
        }),
    decreases times.len(),
{
    if times.len() > 0 {
        lemma_half_open_limits_probes(b, times.drop_last());
    }
}

/// A breaker after a number of successes.
pub open spec fn after_successes(b: BreakerView, n: nat) -> BreakerView
    decreases n,
{
    if n == 0 {
        b
    } else {
        after_successes(b, (n - 1) as nat).succeeded()
    }
}

/// A half-open breaker closes on its third success and not before, and opens again on any
/// failure.
pub proof fn lemma_half_open_decides(b: BreakerView, n: nat, now: u64)
    requires
        b.valid(),
        b.state == CircuitState::HalfOpen,
        b.successes == 0,
    ensures
        n < HALF_OPEN_MAX_REQUESTS ==> {
            &&& after_successes(b, n).state == CircuitState::HalfOpen
            &&& after_successes(b, n).successes == n
            &&& after_successes(b, n).failed(now).state == CircuitState::Open
        },
        n == HALF_OPEN_MAX_REQUESTS ==> {
            &&& after_successes(b, n).state == CircuitState::Closed
            &&& after_successes(b, n).failures == 0
        },
    decreases n,
{
    if n > 0 {
        lemma_half_open_decides(b, (n - 1) as nat, now);
    }
}

/// A closed breaker lets every request pass, whatever it has counted, and is not changed by that.
pub proof fn lemma_closed_lets_all_pass(b: BreakerView, times: Seq<u64>, now: u64)
    requires
        b.state == CircuitState::Closed,
    ensures
        b.allows(now),
        b.asked(now) == b,
        after_asking(b, times) == (b, times.len()),
    decreases times.len(),
{
    if times.len() > 0 {
        lemma_closed_lets_all_pass(b, times.drop_last(), now);
    }
}

/// A closed breaker opens exactly when its failures since the last success reach the threshold, of
/// which there is at least one; until then it lets every request pass, and once open it stays so
/// whatever else fails.
pub proof fn lemma_failures_add_up(b: BreakerView, times: Seq<u64>, now: u64)
    requires
        b.valid(),
        b.state == CircuitState::Closed,
    ensures
        ({
            let after = after_failures(b, times);
            let total = b.failures + times.len();
            &&& times.len() > 0 && total >= b.failure_threshold <==> after.state
                == CircuitState::Open
            &&& after.state == CircuitState::Open || after.state == CircuitState::Closed
            &&& after.state == CircuitState::Closed ==> after.failures == total && after.allows(now)
            &&& times.len() > 0 ==> after.last_failure == Some(times.last())
            &&& after.failure_threshold == b.failure_threshold
            &&& after.timeout == b.timeout
            &&& after.successes == 0
            &&& after.probes == b.probes
            &&& after.valid()
        }),
    decreases times.len(),
{
    if times.len() > 0 {
        lemma_failures_add_up(b, times.drop_last(), now);
    }
}

/// A success makes a closed breaker forget its failures and nothing else, so that the whole
/// threshold of failures is needed again; it does nothing to an open breaker.
pub proof fn lemma_success_forgives(b: BreakerView, times: Seq<u64>, now: u64)
    requires
        b.valid(),
    ensures
        b.state == CircuitState::Closed ==> {
            &&& b.succeeded() == (BreakerView { failures: 0, ..b })
            &&& times.len() > 0 && times.len() >= b.failure_threshold <==> after_failures(
                b.succeeded(),
                times,
            ).state == CircuitState::Open
        },
        b.state == CircuitState::Open ==> b.succeeded() == b,
{
    if b.state == CircuitState::Closed {
        lemma_failures_add_up(b.succeeded(), times, now);
    }
}

/// A failure while a breaker is open or half-open leaves it open, and its timeout starts anew: no
/// request passes before that, and then three pass, of which all have to succeed.
pub proof fn lemma_failure_restarts_timeout(b: BreakerView, at: u64, now: u64, times: Seq<u64>)
    requires
        b.valid(),
        b.state != CircuitState::Closed,
    ensures
        ({
            let open = b.failed(at);
            &&& open.state == CircuitState::Open
            &&& open.timeout == b.timeout
            &&& open.failure_threshold == b.failure_threshold
            &&& open.allows(now) <==> (now >= at && now - at >= b.timeout) || b.timeout == 0
            &&& !open.allows(now) ==> open.asked(now) == open
            &&& open.allows(now) ==> {
                let (after, passed) = after_asking(open.asked(now), times);
                &&& after.state == CircuitState::HalfOpen
                &&& after.successes == 0
                &&& times.len() <= 2 ==> passed == times.len()
                &&& times.len() >= 2 ==> passed == 2
            }
        }),
{
    if b.failed(at).allows(now) {
        lemma_half_open_limits_probes(b.failed(at).asked(now), times);
    }
}

/// A backend that has recovered is served again: once the third probe of a half-open breaker
/// succeeds, every request passes, and the breaker opens only after the whole threshold of new
/// failures. A failed probe before that opens it at once.
pub proof fn lemma_recovered_backend_is_served(
    b: BreakerView,
    asks: Seq<u64>,
    failures: Seq<u64>,
    now: u64,
)
    requires
        b.valid(),
        b.state == CircuitState::HalfOpen,
    ensures
        b.successes < 2 ==> b.succeeded() == (BreakerView { successes: b.successes + 1, ..b }),
        b.successes == 2 ==> {
            let closed = b.succeeded();
            &&& closed.state == CircuitState::Closed
            &&& closed.allows(now)
            &&& after_asking(closed, asks) == (closed, asks.len())
            &&& failures.len() > 0 && failures.len() >= b.failure_threshold <==> after_failures(
                closed,
                failures,
            ).state == CircuitState::Open
        },
        b.failed(now).state == CircuitState::Open,
{
    if b.successes == 2 {
        lemma_closed_lets_all_pass(b.succeeded(), asks, now);
        lemma_failures_add_up(b.succeeded(), failures, now);
    }
}

/// A backend that was never heard of is served: its breaker is closed, has counted nothing, and
/// opens at the threshold that all new breakers have.
pub proof fn lemma_new_backend_is_served(
    breakers: CircuitBreakerManager,
    backend_id: Seq<char>,
    now: u64,
    failures: Seq<u64>,
)
    requires
        !breakers.breakers().contains_key(backend_id),
    ensures
        breakers.of(backend_id).state == CircuitState::Closed,
        breakers.of(backend_id).failures == 0,
        breakers.of(backend_id).timeout == breakers.timeout(),
        breakers.of(backend_id).allows(now),
        failures.len() > 0 && failures.len() >= breakers.threshold() <==> after_failures(
            breakers.of(backend_id),
            failures,
        ).state == CircuitState::Open,
{
    lemma_failures_add_up(breakers.of(backend_id), failures, now);
}

/// Every reachable breaker stays valid, and a breaker that opens or becomes half-open does so
/// without earlier probe successes counting.
pub proof fn lemma_breaker_stays_valid(b: BreakerView, now: u64)
    requires
        b.valid(),
    ensures
        b.asked(now).valid(),
        b.succeeded().valid(),
        b.failed(now).valid(),
        b.state == CircuitState::Open && b.allows(now) ==> b.asked(now).successes == 0,
{
}

/// What happens at one backend does not change another backend's breaker.
pub proof fn lemma_backends_are_isolated(
    pre: CircuitBreakerManager,
    post: CircuitBreakerManager,
    backend_id: Seq<char>,
    breaker: BreakerView,
    other: Seq<char>,
)
    requires
        CircuitBreakerManager::changed_to(pre, post, backend_id, breaker),
        other != backend_id,
    ensures
        post.of(other) == pre.of(other),
        post.of(backend_id) == breaker,
{
    assert(post.breakers().dom().contains(backend_id));
    assert(post.breakers().dom().contains(other) == pre.breakers().dom().contains(other));
}

/// Metrics tell the three states apart, by name and by number.
pub proof fn lemma_states_are_told_apart(state: CircuitState)
    ensures
        match state {
            CircuitState::Closed => state_text(state) == "Closed"@ && state_number(state) == 0,
            CircuitState::Open => state_text(state) == "Open"@ && state_number(state) == 1,
            CircuitState::HalfOpen => state_text(state) == "HalfOpen"@ && state_number(state) == 2,
        },
{
}

/// A breaker that closes starts afresh: no failure and no probe success is remembered, nor when the
/// last failure was; and it closes on the third success of a half-open breaker and not before.
pub proof fn lemma_closing_forgets_failures(b: BreakerView)
    requires
        b.valid(),
        b.state == CircuitState::HalfOpen,
    ensures
        b.succeeded().state == CircuitState::Closed <==> b.successes == 2,
        b.successes == 2 ==> {
            &&& b.succeeded().failures == 0
            &&& b.succeeded().successes == 0
            &&& b.succeeded().last_failure is None
        },
        b.successes < 2 ==> b.succeeded() == (BreakerView { successes: b.successes + 1, ..b }),
{
}

} // verus!
