//! Trying a failed request again.

use vstd::prelude::*;
use vstd::string::*;
use crate::backend::{socket_text, Backend, HttpMethod};
use crate::filters::{RetryConfig, Timeout};
use crate::forwarder::{backend_timeout_error, backend_timeout_text, joined};
use crate::text::{decimal, decimal_text, trim_start, trim_start_char};
use crate::time::MILLISECOND;

verus! {

/// How one attempt at a request ended.
#[derive(Debug, Clone, Copy, PartialEq, Eq, Structural)]
pub enum Attempt {
    /// The backend answered with this status
    Answered(u16),
    /// No answer came
    Failed,
    /// Its request could not be built
    Unbuilt,
}

/// What follows an attempt.
#[derive(Debug, Clone, PartialEq, Eq)]
pub enum RetryAction {
    /// Its result is the result of the request
    Finish,
    /// Wait so many nanoseconds, then try again
    RetryAfter(u64),
    /// Wait so many nanoseconds, until the time of the whole request is over, then give up with
    /// this text
    TimeOut(u64, String),
}

/// What follows an attempt, over plain texts.
pub ghost enum RetryActionView {
    Finish,
    RetryAfter(u64),
    TimeOut(u64, Seq<char>),
}

impl View for RetryAction {
    type V = RetryActionView;

    open spec fn view(&self) -> RetryActionView {
        match *self {
            RetryAction::Finish => RetryActionView::Finish,
            RetryAction::RetryAfter(wait) => RetryActionView::RetryAfter(wait),
            RetryAction::TimeOut(wait, text) => RetryActionView::TimeOut(wait, text@),
        }
    }
}

/// Whether the outcome of an attempt is worth another one.
pub open spec fn worth_retrying(config: &RetryConfig, attempt: Attempt) -> bool {
    match attempt {
        Attempt::Answered(status) => config.retry_statuses@.contains(status),
        Attempt::Failed => config.retry_on_connection_error,
        Attempt::Unbuilt => false,
    }
}

/// The wait before the next attempt, where the `done`th is followed by one.
pub open spec fn wait_after(config: &RetryConfig, done: u64, attempt: Attempt) -> Option<u64> {
    if worth_retrying(config, attempt) && done <= config.max_retries {
        Some(config.delay((done - 1) as u32) as u64)
    } else {
        None
    }
}

/// What follows the `done`th attempt, given the time limit of the whole request and how long it
/// has taken so far. The limit covers all attempts and the waits between them.
pub open spec fn action_after(
    config: &RetryConfig,
    done: u64,
    attempt: Attempt,
    limit: Option<u64>,
    elapsed: u64,
) -> RetryActionView {
    let wait = wait_after(config, done, attempt);
    match limit {
        Some(d) if elapsed >= d => RetryActionView::TimeOut(0, overall_timeout_text(d)),
        Some(d) if wait is Some && elapsed + wait->0 >= d => RetryActionView::TimeOut(
            (d - elapsed) as u64,
            overall_timeout_text(d),
        ),
        _ => match wait {
            Some(w) => RetryActionView::RetryAfter(w),
            None => RetryActionView::Finish,
        },
    }
}

/// The time that an attempt may take: that of one attempt at the backend, and no more than is left
/// of the whole request.
pub open spec fn time_for_attempt(timeout: Option<Timeout>, elapsed: u64) -> Option<u64> {
    match timeout {
        None => None,
        Some(t) => match (t.request, t.backend_request) {
            (None, one) => one,
            (Some(d), None) => Some(if elapsed < d {
                (d - elapsed) as u64
            } else {
                0
            }),
            (Some(d), Some(one)) => Some(if elapsed >= d {
                0
            } else if one <= d - elapsed {
                one
            } else {
                (d - elapsed) as u64
            }),
        },
    }
}

/// The time that an attempt may take.
pub fn attempt_limit(timeout: &Option<Timeout>, elapsed: u64) -> (r: Option<u64>)
    ensures
        r == time_for_attempt(*timeout, elapsed),
{
    match timeout {
        None => None,
        Some(t) => match t.request {
            None => t.backend_request,
            Some(d) => {
                let left: u64 = if elapsed < d {
                    d - elapsed
                } else {
                    0
                };
                match t.backend_request {
                    Some(one) if one <= left => Some(one),
                    _ => Some(left),
                }
            },
        },
    }
}

/// The text of an attempt that took too long: that of the whole request where its time is over,
/// else that of one attempt at the backend.
pub fn attempt_timeout_error(timeout: &Timeout, elapsed: u64) -> (r: String)
    requires
        timeout.request is Some || timeout.backend_request is Some,
    ensures
        r@ == match (timeout.request, timeout.backend_request) {
            (Some(d), Some(one)) => if elapsed >= d {
                overall_timeout_text(d)
            } else {
                backend_timeout_text(one)
            },
            (Some(d), None) => overall_timeout_text(d),
            (None, Some(one)) => backend_timeout_text(one),
            (None, None) => Seq::empty(),
        },
{
    match (timeout.request, timeout.backend_request) {
        (Some(d), Some(one)) => if elapsed >= d {
            overall_timeout_error(d)
        } else {
            backend_timeout_error(one)
        },
        (Some(d), None) => overall_timeout_error(d),
        (None, Some(one)) => backend_timeout_error(one),
        (None, None) => String::new(),
    }
}

/// The attempts at one request.
pub struct Retry {
    /// Attempts made so far
    pub done: u64,
}

impl Retry {
    /// No attempt yet.
    pub fn new() -> (r: Self)
        ensures
            r.done == 0,
    {
        Retry { done: 0 }
    }

    /// Takes note of an attempt's outcome; what follows it, given the time limit of the whole
    /// request and how long it has taken so far.
    pub fn execute_with_retry(
        &mut self,
        config: &RetryConfig,
        attempt: Attempt,
        limit: Option<u64>,
        elapsed: u64,
    ) -> (r: RetryAction)
        requires
            old(self).done <= config.max_retries,
        ensures
            final(self).done == old(self).done + 1,
            r@ == action_after(config, final(self).done, attempt, limit, elapsed),
    {
        self.done = self.done + 1;
        let again: bool = match attempt {
            Attempt::Answered(status) => config.should_retry_status(status),
            Attempt::Failed => config.retry_on_connection_error,
            Attempt::Unbuilt => false,
        };
        let wait: Option<u64> = if again && self.done <= config.max_retries as u64 {
            Some(config.calculate_delay((self.done - 1) as u32))
        } else {
            None
        };
        match limit {
            Some(d) => {
                if elapsed >= d {
                    return RetryAction::TimeOut(0, overall_timeout_error(d));
                }
                match wait {
                    Some(w) => if w >= d - elapsed {
                        return RetryAction::TimeOut(d - elapsed, overall_timeout_error(d));
                    },
                    None => {},
                }
            },
            None => {},
        }
        match wait {
            Some(w) => RetryAction::RetryAfter(w),
            None => RetryAction::Finish,
        }
    }
}

/// Whether requests of a method may be sent twice.
pub open spec fn is_retryable(method: HttpMethod) -> bool {
    method == HttpMethod::GET || method == HttpMethod::HEAD
}

/// Whether a request is tried again at all: its route says how, and its method may be sent twice.
pub fn uses_retry(method: HttpMethod, retry: &Option<RetryConfig>) -> (r: bool)
    ensures
        r == (is_retryable(method) && retry is Some),
{
    (method == HttpMethod::GET || method == HttpMethod::HEAD) && retry.is_some()
}

/// The method of another attempt at a request: HEAD stays HEAD, and anything else is a GET.
pub fn retry_method(method: HttpMethod) -> (r: HttpMethod)
    ensures
        r == if method == HttpMethod::HEAD {
            HttpMethod::HEAD
        } else {
            HttpMethod::GET
        },
{
    match method {
        HttpMethod::HEAD => HttpMethod::HEAD,
        _ => HttpMethod::GET,
    }
}

/// The address of another attempt at a request.
pub open spec fn retry_uri_text(backend: Backend, path: Seq<char>) -> Seq<char> {
    "http://"@ + socket_text(backend) + "/"@ + trim_start(path, '/')
}

/// The address of another attempt at a request.
pub fn retry_uri(backend: Backend, path: &str) -> (r: String)
    ensures
        r@ == retry_uri_text(backend, path@),
{
    let mut s = "http://".to_owned();
    let addr = backend.socket_addr();
    s.append(addr.as_str());
    s.append("/");
    let rest = trim_start_char(path, '/');
    s.append(rest.as_str());
    s
}

/// The text of an attempt that could not be built.
pub fn retry_build_error(why: &str) -> (r: String)
    ensures
        r@ == "Failed to build retry request: "@ + why@,
{
    joined("Failed to build retry request: ", why)
}

/// The text of an attempt that could not be sent.
pub fn retry_send_error(why: &str) -> (r: String)
    ensures
        r@ == "Retry request failed: "@ + why@,
{
    joined("Retry request failed: ", why)
}

/// The text of a request that took too long overall.
pub open spec fn overall_timeout_text(timeout: u64) -> Seq<char> {
    "TIMEOUT: Request exceeded "@ + decimal((timeout / MILLISECOND) as nat) + "ms overall timeout"@
}

/// The text of a request that took too long overall.
pub fn overall_timeout_error(timeout: u64) -> (r: String)
    ensures
        r@ == overall_timeout_text(timeout),
{
    let mut s = "TIMEOUT: Request exceeded ".to_owned();
    let ms = decimal_text(timeout / MILLISECOND);
    s.append(ms.as_str());
    s.append("ms overall timeout");
    s
}

/// Whether a request goes on after each of a row of attempts, without a time limit.
pub open spec fn goes_on(config: &RetryConfig, attempts: Seq<Attempt>) -> bool {
    forall|i: int|
        0 <= i < attempts.len() ==> action_after(
            config,
            (i + 1) as u64,
            #[trigger] attempts[i],
            None,
            0,
        ) is RetryAfter
}

/// Retries are not cut short and not drawn out. While retries are left, an attempt that was answered
/// with a status that is worth a retry, or that failed where that is worth one, is followed by the
/// delay of that retry and by another attempt, unless a time limit stops it; any other attempt is
/// the last. What a time limit stops ends when the limit is reached, with the text of that.
pub proof fn lemma_retries_are_made(
    config: &RetryConfig,
    done: u64,
    attempt: Attempt,
    limit: Option<u64>,
    elapsed: u64,
)
    requires
        1 <= done,
    ensures
        ({
            let again = done <= config.max_retries && match attempt {
                Attempt::Answered(status) => exists|i: int|
                    0 <= i < config.retry_statuses@.len() && config.retry_statuses@[i] == status,
                Attempt::Failed => config.retry_on_connection_error,
                Attempt::Unbuilt => false,
            };
            let wait = config.delay((done - 1) as u32);
            let step = action_after(config, done, attempt, limit, elapsed);
            match limit {
                None => {
                    &&& again ==> step == RetryActionView::RetryAfter(wait as u64)
                    &&& !again ==> step == RetryActionView::Finish
                },
                Some(d) => {
                    &&& again && elapsed + wait < d ==> step == RetryActionView::RetryAfter(
                        wait as u64,
                    )
                    &&& !again && elapsed < d ==> step == RetryActionView::Finish
                    &&& elapsed >= d ==> step == RetryActionView::TimeOut(
                        0,
                        overall_timeout_text(d),
                    )
                    &&& again && elapsed < d && elapsed + wait >= d ==> step
                        == RetryActionView::TimeOut(
                        (d - elapsed) as u64,
                        overall_timeout_text(d),
                    )
                },
            }
        }),
{
    if done <= config.max_retries {
        crate::filters::lemma_delay_grows(config, (done - 1) as u32, (done - 1) as u32);
    }
    match attempt {
        Attempt::Answered(status) => {
            if config.retry_statuses@.contains(status) {
                let i = config.retry_statuses@.index_of(status);
                assert(config.retry_statuses@[i] == status);
            }
        },
        _ => {},
    }
}

/// A backend that keeps failing, be it by statuses that are worth a retry or by failed connections
/// where these are, is tried exactly once more often than its route allows retries.
pub proof fn lemma_failing_backend_is_tried_again(config: &RetryConfig, attempts: Seq<Attempt>)
    requires
        forall|i: int|
            0 <= i < attempts.len() ==> match #[trigger] attempts[i] {
                Attempt::Answered(status) => config.retry_statuses@.contains(status),
                Attempt::Failed => config.retry_on_connection_error,
                Attempt::Unbuilt => false,
            },
    ensures
        goes_on(config, attempts) <==> attempts.len() <= config.max_retries,
{
    if attempts.len() <= config.max_retries {
        assert forall|i: int| 0 <= i < attempts.len() implies action_after(
            config,
            (i + 1) as u64,
            #[trigger] attempts[i],
            None,
            0,
        ) is RetryAfter by {
            lemma_retries_are_made(config, (i + 1) as u64, attempts[i], None, 0);
        }
    } else {
        let i = config.max_retries as int;
        lemma_retries_are_made(config, (i + 1) as u64, attempts[i], None, 0);
        assert(!(action_after(config, (i + 1) as u64, attempts[i], None, 0) is RetryAfter));
    }
}

/// An attempt may take as long as each limit that is set allows, and is limited only where one is.
pub proof fn lemma_attempt_obeys_each_limit(timeout: Option<Timeout>, elapsed: u64)
    ensures
        match (timeout, time_for_attempt(timeout, elapsed)) {
            (None, time) => time is None,
            (Some(t), None) => t.request is None && t.backend_request is None,
            (Some(t), Some(time)) => {
                &&& t.backend_request is Some ==> time <= t.backend_request->0
                &&& t.request is Some ==> time <= t.request->0 && (elapsed + time
                    <= t.request->0 || time == 0)
                &&& {
                    ||| t.backend_request == Some(time)
                    ||| t.request is Some && elapsed + time == t.request->0
                    ||| t.request is Some && elapsed >= t.request->0 && time == 0
                }
            },
        },
{
}

/// Only requests that may be sent twice are: those of the methods GET and HEAD.
pub proof fn lemma_only_safe_methods_are_retried(method: HttpMethod)
    ensures
        is_retryable(method) <==> method == HttpMethod::GET || method == HttpMethod::HEAD,
{
}

/// A request is over after at most one attempt more than its route allows retries, and the waits
/// between attempts never shrink.
pub proof fn lemma_retries_are_bounded(config: &RetryConfig, done: u64, a: Attempt, b: Attempt)
    requires
        1 <= done < u64::MAX,
    ensures
        done > config.max_retries ==> wait_after(config, done, a) is None,
        wait_after(config, done, a) is Some && wait_after(config, (done + 1) as u64, b) is Some
            ==> wait_after(config, done, a)->0 <= wait_after(config, (done + 1) as u64, b)->0
            <= config.max_delay,
{
    if done < config.max_retries {
        crate::filters::lemma_delay_grows(config, (done - 1) as u32, done as u32);
    }
}

/// The time limit of a request covers all its attempts and the waits between them. The request goes
/// on, or ends with what an attempt gave, only before the limit; a wait and the attempt after it end
/// by the limit; and where the attempts and waits would take longer, the request ends at the limit
/// with the text of that.
pub proof fn lemma_limit_covers_all_attempts(
    config: &RetryConfig,
    done: u64,
    attempt: Attempt,
    timeout: Timeout,
    elapsed: u64,
)
    requires
        timeout.request is Some,
    ensures
        ({
            let d = timeout.request->0;
            match action_after(config, done, attempt, timeout.request, elapsed) {
                RetryActionView::Finish => elapsed < d,
                RetryActionView::RetryAfter(wait) => {
                    &&& elapsed + wait < d
                    &&& time_for_attempt(Some(timeout), (elapsed + wait) as u64) is Some
                    &&& elapsed + wait + time_for_attempt(
                        Some(timeout),
                        (elapsed + wait) as u64,
                    )->0 <= d
                },
                RetryActionView::TimeOut(wait, text) => {
                    &&& elapsed >= d ==> wait == 0
                    &&& elapsed < d ==> elapsed + wait == d
                    &&& text == overall_timeout_text(d)
                },
            }
        }),
{
}

/// Another attempt goes to its own backend for the same path: one slash behind the address, then the
/// path without the slashes that it begins with.
pub proof fn lemma_retry_asks_for_same_path(backend: Backend, path: Seq<char>)
    requires
        path.len() > 0 ==> path[0] != '/',
    ensures
        retry_uri_text(backend, path) == "http://"@ + socket_text(backend) + "/"@ + path,
        retry_uri_text(backend, seq!['/'] + path) == retry_uri_text(backend, path),
        retry_uri_text(backend, seq!['/', '/'] + path) == retry_uri_text(backend, path),
{
    assert(trim_start(path, '/') == path);
    let once = seq!['/'] + path;
    assert(once[0] == '/');
    assert(once.drop_first() =~= path);
    assert(trim_start(once, '/') == path);
    let twice = seq!['/', '/'] + path;
    assert(twice[0] == '/');
    assert(twice.drop_first() =~= once);
    assert(trim_start(twice, '/') == path);
}

/// The text of a request that took too long overall begins as that of a timeout and holds the limit
/// in milliseconds.
pub proof fn lemma_overall_timeout_is_told(timeout: u64)
    ensures
        overall_timeout_text(timeout) == "TIMEOUT: Request exceeded "@ + decimal(
            (timeout as int / 1_000_000) as nat,
        ) + "ms overall timeout"@,
{
}

} // verus!
