use hyper::header::{HeaderMap, HeaderValue};
use rauta::backend::{Backend, HttpMethod};
use rauta::filters::{
    HeaderModifierOp, RedirectStatusCode, RequestHeaderModifier, RequestRedirect,
    ResponseHeaderModifier, RetryConfig, Timeout,
};
use rauta::forwarder::{
    backend_uri, forward_headers, ipv4_to_string, is_hop_by_hop_header, skips_body,
    strip_hop_by_hop, Forward, ForwardEvent, ForwardPhase, ForwardStep,
};
use rauta::headers::{
    apply_header_filters, apply_request_filters, apply_response_filters, has_room_for,
    read_header, visible_text, MAX_HEADER_NAMES,
};
use rauta::http2_pool::PoolError;
use rauta::protocol::{is_h2_alpn, is_h2c, HttpProtocol, ProtocolCache};
use rauta::retry::{
    attempt_limit, attempt_timeout_error, overall_timeout_error, retry_build_error,
    retry_method, retry_send_error, retry_uri, uses_retry, Attempt, Retry, RetryAction,
};
use rauta::time::{time_since, MILLISECOND, SECOND};

fn local() -> Backend {
    Backend::new(0x7F000001, 9000, 100)
}

fn map(pairs: &[(&'static str, &'static str)]) -> HeaderMap<HeaderValue> {
    let mut headers = HeaderMap::new();
    for (name, value) in pairs {
        headers.append(*name, HeaderValue::from_static(value));
    }
    headers
}

#[test]
fn test_is_hop_by_hop_header() {
    assert!(is_hop_by_hop_header("connection"));
    assert!(is_hop_by_hop_header("Connection"));
    assert!(is_hop_by_hop_header("keep-alive"));
    assert!(is_hop_by_hop_header("transfer-encoding"));
    assert!(!is_hop_by_hop_header("content-type"));
    assert!(!is_hop_by_hop_header("x-custom-header"));
}

#[test]
fn test_ipv4_to_string() {
    assert_eq!(ipv4_to_string(0x7F000001), "127.0.0.1");
    assert_eq!(ipv4_to_string(0xC0A80001), "192.168.0.1");
    assert_eq!(ipv4_to_string(0x0A000101), "10.0.1.1");
}

#[test]
fn every_neighbour_header_is_known_in_any_case() {
    for name in [
        "connection",
        "keep-alive",
        "proxy-authenticate",
        "proxy-authorization",
        "te",
        "trailer",
        "transfer-encoding",
        "upgrade",
    ] {
        assert!(is_hop_by_hop_header(name));
        assert!(is_hop_by_hop_header(&name.to_uppercase()));
    }
    assert!(!is_hop_by_hop_header(""));
    assert!(!is_hop_by_hop_header("host"));
}

#[test]
fn forwarded_headers_leave_neighbour_headers_behind() {
    let headers = map(&[
        ("host", "gateway.example"),
        ("connection", "close"),
        ("upgrade", "websocket"),
        ("x-a", "1"),
        ("x-a", "2"),
    ]);
    let out = forward_headers(&headers, local());
    assert_eq!(out.get("host").unwrap(), "127.0.0.1:9000");
    assert!(out.get("connection").is_none());
    assert!(out.get("upgrade").is_none());
    let all: Vec<&HeaderValue> = out.get_all("x-a").iter().collect();
    assert_eq!(all, vec!["1", "2"]);
    // the request itself is left alone
    assert_eq!(headers.get("connection").unwrap(), "close");
    assert_eq!(headers.get("host").unwrap(), "gateway.example");

    let mut response = map(&[("te", "trailers"), ("content-type", "text/plain")]);
    strip_hop_by_hop(&mut response);
    assert_eq!(response.len(), 1);
    assert_eq!(response.get("content-type").unwrap(), "text/plain");
}

#[test]
fn some_methods_carry_no_body() {
    assert!(skips_body("GET"));
    assert!(skips_body("HEAD"));
    assert!(skips_body("DELETE"));
    assert!(!skips_body("POST"));
    assert!(!skips_body("get"));
}

#[test]
fn the_backend_is_addressed_with_the_target_of_the_request() {
    assert_eq!(backend_uri(local(), Some("/a?b=c")), "http://127.0.0.1:9000/a?b=c");
    assert_eq!(backend_uri(local(), None), "http://127.0.0.1:9000/");
}

fn fails(step: ForwardStep, text: &str) -> bool {
    matches!(step, ForwardStep::Fail(t) if t == text)
}

#[test]
fn a_known_http1_backend_is_asked_over_http1() {
    let mut cache = ProtocolCache::new();
    let (mut forward, step) = Forward::start("GET", false, None);
    assert_eq!(forward.protocol, None);
    cache.learn("127.0.0.1:9000", HttpProtocol::Http1);
    assert!(matches!(step, ForwardStep::Build));
    let step = forward.forward_to_backend(ForwardEvent::Built, local(), &mut cache);
    assert!(matches!(step, ForwardStep::SendHttp1));
    let step = forward.forward_to_backend(
        ForwardEvent::SendFailed("gone".to_string()),
        local(),
        &mut cache,
    );
    assert!(fails(step, "Backend connection failed: gone"));
    assert_eq!(forward.phase, ForwardPhase::Over);
}

#[test]
fn an_unknown_backend_falls_back_to_http1_and_is_remembered() {
    let mut cache = ProtocolCache::new();
    let (mut forward, step) = Forward::start("POST", true, Some(2 * SECOND));
    assert!(matches!(step, ForwardStep::ReadBody));
    let step = forward.forward_to_backend(ForwardEvent::BodyRead, local(), &mut cache);
    assert!(matches!(step, ForwardStep::Build));
    let step = forward.forward_to_backend(ForwardEvent::Built, local(), &mut cache);
    assert!(matches!(step, ForwardStep::Connect));
    let step = forward.forward_to_backend(ForwardEvent::Connected, local(), &mut cache);
    assert!(matches!(step, ForwardStep::SendHttp2));
    assert_eq!(cache.get("127.0.0.1:9000"), None);
    let step = forward.forward_to_backend(
        ForwardEvent::SendFailed("reset".to_string()),
        local(),
        &mut cache,
    );
    assert!(matches!(step, ForwardStep::SendFallback));
    assert_eq!(cache.get("127.0.0.1:9000"), Some(HttpProtocol::Http1));
    let step = forward.forward_to_backend(ForwardEvent::Responded, local(), &mut cache);
    assert!(matches!(step, ForwardStep::Finish));
}

/// A request that has come to a phase.
fn at(phase: ForwardPhase, protocol: Option<HttpProtocol>, by_worker: bool) -> Forward {
    Forward { phase, protocol, by_worker, timeout: Some(1500 * MILLISECOND) }
}

#[test]
fn every_failure_has_its_text() {
    let mut cache = ProtocolCache::new();
    let mut run = |mut f: Forward, e: ForwardEvent| f.forward_to_backend(e, local(), &mut cache);
    let why = || "x".to_string();
    assert!(fails(
        run(at(ForwardPhase::Body, None, false), ForwardEvent::BodyFailed(why())),
        "Failed to read request body: x"
    ));
    assert!(fails(
        run(at(ForwardPhase::Building, None, false), ForwardEvent::BuildFailed(why())),
        "Failed to build backend request: x"
    ));
    assert!(fails(
        run(
            at(ForwardPhase::Connecting, None, true),
            ForwardEvent::Refused(PoolError::NoCapacity)
        ),
        "Failed to get HTTP/2 connection from worker: No connections have capacity"
    ));
    assert!(fails(
        run(
            at(ForwardPhase::Connecting, None, false),
            ForwardEvent::Refused(PoolError::ConnectionFailed(why()))
        ),
        "Failed to get HTTP/2 connection: Connection failed: x"
    ));
    assert!(fails(
        run(
            at(ForwardPhase::Connecting, None, true),
            ForwardEvent::Refused(PoolError::CircuitBreakerOpen)
        ),
        "Circuit breaker open"
    ));
    assert!(fails(
        run(
            at(ForwardPhase::Http2, Some(HttpProtocol::Http2), false),
            ForwardEvent::SendFailed(why())
        ),
        "HTTP/2 backend connection failed: x"
    ));
    assert!(fails(
        run(
            at(ForwardPhase::Fallback, None, false),
            ForwardEvent::FallbackBuildFailed(why())
        ),
        "Failed to build fallback request: x"
    ));
    assert!(fails(
        run(at(ForwardPhase::Http1, None, false), ForwardEvent::TimedOut),
        "TIMEOUT: Backend request exceeded 1500ms timeout"
    ));
}

#[test]
fn protocols_are_learned_by_address() {
    let mut cache = ProtocolCache::new();
    cache.set_backend_protocol_http2("10.0.0.1", 80);
    assert_eq!(cache.get("10.0.0.1:80"), Some(HttpProtocol::Http2));
    assert_eq!(cache.get("10.0.0.1:81"), None);
    cache.learn("10.0.0.1:80", HttpProtocol::Http1);
    assert_eq!(cache.get("10.0.0.1:80"), Some(HttpProtocol::Http1));
    assert!(is_h2c(b"PRI * HTTP/2.0\r\n\r\nSM\r\n\r\n"));
    assert!(is_h2c(b"PRI * HTTP/2.0\r\n\r\nSM\r\n\r\nmore"));
    assert!(!is_h2c(b"PRI * HTTP/2.0\r\n"));
    assert!(!is_h2c(b"GET / HTTP/1.1\r\nHost: aaaaaaaa\r\n"));
    assert!(is_h2_alpn(Some(b"h2")));
    assert!(!is_h2_alpn(Some(b"http/1.1")));
    assert!(!is_h2_alpn(None));
}

fn retry_config() -> RetryConfig {
    RetryConfig {
        max_retries: 2,
        retry_statuses: vec![502, 503],
        retry_on_connection_error: true,
        base_delay: 10 * MILLISECOND,
        max_delay: 35 * MILLISECOND,
    }
}

#[test]
fn retries_back_off_and_end() {
    let config = retry_config();
    assert!(config.should_retry_status(503));
    assert!(!config.should_retry_status(500));
    assert_eq!(config.calculate_delay(0), 10 * MILLISECOND);
    assert_eq!(config.calculate_delay(1), 20 * MILLISECOND);
    assert_eq!(config.calculate_delay(2), 35 * MILLISECOND);
    assert_eq!(config.calculate_delay(60), 35 * MILLISECOND);
    let mut retry = Retry::new();
    assert_eq!(
        retry.execute_with_retry(&config, Attempt::Answered(503), None, 0),
        RetryAction::RetryAfter(10 * MILLISECOND)
    );
    assert_eq!(
        retry.execute_with_retry(&config, Attempt::Failed, None, 0),
        RetryAction::RetryAfter(20 * MILLISECOND)
    );
    assert_eq!(
        retry.execute_with_retry(&config, Attempt::Answered(502), None, 0),
        RetryAction::Finish
    );
    assert_eq!(
        Retry::new().execute_with_retry(&config, Attempt::Answered(200), None, 0),
        RetryAction::Finish
    );
    assert_eq!(
        Retry::new().execute_with_retry(&config, Attempt::Unbuilt, None, 0),
        RetryAction::Finish
    );
}

#[test]
fn the_overall_limit_covers_attempts_and_waits() {
    let config = retry_config();
    let limit = Some(100 * MILLISECOND);
    let text = "TIMEOUT: Request exceeded 100ms overall timeout".to_string();
    let failed = |elapsed: u64| {
        Retry::new().execute_with_retry(&config, Attempt::Failed, limit, elapsed * MILLISECOND)
    };
    // The wait of 10 ms ends before the limit, at it, and behind it
    assert_eq!(failed(89), RetryAction::RetryAfter(10 * MILLISECOND));
    assert_eq!(failed(90), RetryAction::TimeOut(10 * MILLISECOND, text.clone()));
    assert_eq!(failed(95), RetryAction::TimeOut(5 * MILLISECOND, text.clone()));
    assert_eq!(failed(100), RetryAction::TimeOut(0, text.clone()));
    assert_eq!(failed(300), RetryAction::TimeOut(0, text.clone()));
    // An answer counts only within the limit
    let answered = |elapsed: u64| {
        Retry::new().execute_with_retry(
            &config,
            Attempt::Answered(200),
            limit,
            elapsed * MILLISECOND,
        )
    };
    assert_eq!(answered(99), RetryAction::Finish);
    assert_eq!(answered(100), RetryAction::TimeOut(0, text));
}

#[test]
fn an_attempt_gets_no_more_than_is_left() {
    let both = Timeout::new().request(100).backend_request(30);
    assert_eq!(attempt_limit(&None, 5), None);
    assert_eq!(attempt_limit(&Some(Timeout::new()), 5), None);
    assert_eq!(attempt_limit(&Some(Timeout::new().backend_request(30)), 500), Some(30));
    assert_eq!(attempt_limit(&Some(Timeout::new().request(100)), 40), Some(60));
    assert_eq!(attempt_limit(&Some(both), 70), Some(30));
    assert_eq!(attempt_limit(&Some(both), 71), Some(29));
    assert_eq!(attempt_limit(&Some(both), 100), Some(0));
    let both = Timeout::new().request(3 * SECOND).backend_request(SECOND);
    assert_eq!(
        attempt_timeout_error(&both, 2 * SECOND),
        "TIMEOUT: Backend request exceeded 1000ms timeout"
    );
    assert_eq!(
        attempt_timeout_error(&both, 3 * SECOND),
        "TIMEOUT: Request exceeded 3000ms overall timeout"
    );
    let one = Timeout::new().backend_request(SECOND);
    assert_eq!(
        attempt_timeout_error(&one, 9 * SECOND),
        "TIMEOUT: Backend request exceeded 1000ms timeout"
    );
    let whole = Timeout::new().request(SECOND);
    assert_eq!(
        attempt_timeout_error(&whole, 0),
        "TIMEOUT: Request exceeded 1000ms overall timeout"
    );
}

#[test]
fn a_retry_is_a_head_or_a_get() {
    assert_eq!(retry_method(HttpMethod::HEAD), HttpMethod::HEAD);
    assert_eq!(retry_method(HttpMethod::GET), HttpMethod::GET);
    assert_eq!(retry_method(HttpMethod::POST), HttpMethod::GET);
}

#[test]
fn a_known_http2_backend_does_not_fall_back() {
    let mut cache = ProtocolCache::new();
    cache.set_backend_protocol_http2("127.0.0.1", 9000);
    let (mut forward, _) = Forward::start("GET", false, None);
    let step = forward.forward_to_backend(ForwardEvent::Built, local(), &mut cache);
    assert!(matches!(step, ForwardStep::Connect));
    assert_eq!(forward.protocol, Some(HttpProtocol::Http2));
    forward.forward_to_backend(ForwardEvent::Connected, local(), &mut cache);
    let step = forward.forward_to_backend(
        ForwardEvent::SendFailed("reset".to_string()),
        local(),
        &mut cache,
    );
    assert!(fails(step, "HTTP/2 backend connection failed: reset"));
    assert_eq!(cache.get("127.0.0.1:9000"), Some(HttpProtocol::Http2));
}

#[test]
fn only_safe_methods_are_retried() {
    let retry = Some(retry_config());
    assert!(uses_retry(HttpMethod::GET, &retry));
    assert!(uses_retry(HttpMethod::HEAD, &retry));
    assert!(!uses_retry(HttpMethod::POST, &retry));
    assert!(!uses_retry(HttpMethod::GET, &None));
    assert_eq!(retry_uri(local(), "//a/b"), "http://127.0.0.1:9000/a/b");
    assert_eq!(retry_build_error("x"), "Failed to build retry request: x");
    assert_eq!(retry_send_error("x"), "Retry request failed: x");
    assert_eq!(
        overall_timeout_error(3 * SECOND),
        "TIMEOUT: Request exceeded 3000ms overall timeout"
    );
}

#[test]
fn header_changes_are_made_in_order() {
    let mut headers = map(&[("x-a", "1"), ("x-b", "2"), ("x-b", "3")]);
    let changes = RequestHeaderModifier::new()
        .set("X-A".to_string(), "new".to_string())
        .add("x-a".to_string(), "more".to_string())
        .remove("X-B".to_string())
        .remove("x-none".to_string());
    assert_eq!(apply_request_filters(&mut headers, &changes), Ok(()));
    let all: Vec<&HeaderValue> = headers.get_all("x-a").iter().collect();
    assert_eq!(all, vec!["new", "more"]);
    assert!(headers.get("x-b").is_none());

    let mut response = map(&[("server", "backend")]);
    let changes = ResponseHeaderModifier::new().remove("Server".to_string());
    assert_eq!(apply_response_filters(&mut response, &changes), Ok(()));
    assert!(response.is_empty());
}

#[test]
fn a_change_that_cannot_be_made_ends_the_changes() {
    let mut headers = map(&[]);
    let changes = vec![
        HeaderModifierOp::Replace { name: "a".to_string(), value: "1".to_string() },
        HeaderModifierOp::Add { name: "b c".to_string(), value: "2".to_string() },
        HeaderModifierOp::Replace { name: "d".to_string(), value: "3".to_string() },
    ];
    assert_eq!(
        apply_header_filters(&mut headers, &changes),
        Err("Invalid header name 'b c': invalid HTTP header name".to_string())
    );
    assert_eq!(headers.len(), 1);
    let changes = vec![HeaderModifierOp::Add {
        name: "a".to_string(),
        value: "x\r\ny".to_string(),
    }];
    assert_eq!(
        apply_header_filters(&mut headers, &changes),
        Err("Invalid header value 'x\r\ny': failed to parse header value".to_string())
    );
    let changes = vec![HeaderModifierOp::Remove { name: "".to_string() }];
    assert!(apply_header_filters(&mut headers, &changes).is_err());
    assert_eq!(headers.get("a").unwrap(), "1");
}

#[test]
fn header_values_are_read_as_visible_text() {
    let mut headers = map(&[("host", "a.example"), ("host", "b.example")]);
    headers.insert("x-bytes", HeaderValue::from_bytes(&[200, 201]).unwrap());
    assert_eq!(read_header(&headers, "Host"), Some("a.example".to_string()));
    assert_eq!(read_header(&headers, "x-bytes"), None);
    assert_eq!(read_header(&headers, "x-none"), None);
    assert_eq!(visible_text(&vec![104, 105, 9]), Some("hi\t".to_string()));
    assert_eq!(visible_text(&vec![104, 10]), None);
    assert!(has_room_for(&headers, 10));
    assert!(!has_room_for(&headers, MAX_HEADER_NAMES));
}

#[test]
fn filters_are_built_step_by_step() {
    let redirect = RequestRedirect::new()
        .status_code(RedirectStatusCode::MovedPermanently)
        .scheme("https".to_string())
        .hostname("new.example".to_string())
        .port(8443)
        .path("/there".to_string());
    assert_eq!(redirect.status_code.as_u16(), 301);
    assert_eq!(redirect.port, Some(8443));
    assert_eq!(RequestRedirect::default().status_code.as_u16(), 302);
    assert_eq!(RedirectStatusCode::default(), RedirectStatusCode::Found);
    let timeout = Timeout::new().request(5).backend_request(3);
    assert_eq!(timeout, Timeout { request: Some(5), backend_request: Some(3) });
    assert_eq!(Timeout::default().request, None);
    assert!(RequestHeaderModifier::default().operations.is_empty());
    assert!(ResponseHeaderModifier::default().operations.is_empty());
    let filters = RequestHeaderModifier::new().remove("a".to_string());
    assert_eq!(filters.copied(), filters);
}

#[test]
fn time_never_runs_backwards() {
    assert_eq!(time_since(5, 9), 4);
    assert_eq!(time_since(9, 5), 0);
}
