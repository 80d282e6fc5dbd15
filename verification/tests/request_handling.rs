use hyper::header::{HeaderMap, HeaderValue};
use rauta::backend::{Backend, HttpMethod};
use rauta::circuit_breaker::{CircuitBreakerManager, CircuitState};
use rauta::filters::{RequestHeaderModifier, RequestRedirect, ResponseHeaderModifier};
use rauta::forwarder::is_hop_by_hop_header;
use rauta::metrics::metrics_content_type;
use rauta::rate_limiter::{RateLimiter, TOKEN_PER_SECOND};
use rauta::request_handler::{
    build_circuit_breaker_response, build_error_response, build_not_found_response,
    build_rate_limit_response, build_redirect_response, check_request, choose_request_id,
    error_to_response, finalize_response, handle_request, method_to_str, parse_method,
    record_not_found_metrics, record_request_metrics, request_id, serve_metrics_endpoint,
    status_to_str, AnsweredBy, Decision, Reply, RequestHead, WorkerSelector,
};
use rauta::router::{RouteMatch, Router};
use rauta::server::{after_accept, bind_error, AcceptStep, Connections, DrainStep, DRAIN_POLL};
use rauta::time::SECOND;
use rauta::worker::{new_workers, Worker};

const NOW: u64 = 500 * SECOND;

fn backend() -> Backend {
    Backend::new(0x0A000001, 8080, 100)
}

fn head(method: &str, path: &str) -> RequestHead {
    RequestHead {
        method: method.to_string(),
        scheme: None,
        authority: None,
        host: None,
        port: None,
        path: path.to_string(),
        path_and_query: Some(path.to_string()),
        headers: HeaderMap::new(),
    }
}

fn route_match() -> RouteMatch {
    RouteMatch {
        backend: backend(),
        pattern: "/api".to_string(),
        request_filters: None,
        response_filters: None,
        redirect: None,
        timeout: None,
        retry: None,
    }
}

fn header<'a>(reply: &'a Reply, name: &str) -> Option<&'a str> {
    reply.headers.iter().find(|h| h.0 == name).map(|h| h.1.as_str())
}

#[test]
fn test_is_hop_by_hop() {
    assert!(is_hop_by_hop_header("connection"));
    assert!(is_hop_by_hop_header("Connection"));
    assert!(is_hop_by_hop_header("keep-alive"));
    assert!(!is_hop_by_hop_header("content-type"));
}

#[test]
fn test_method_to_str() {
    assert_eq!(method_to_str(&HttpMethod::GET), "GET");
    assert_eq!(method_to_str(&HttpMethod::POST), "POST");
    assert_eq!(method_to_str(&HttpMethod::ALL), "ALL");
}

#[test]
fn test_status_to_str() {
    assert_eq!(status_to_str(200), "200");
    assert_eq!(status_to_str(404), "404");
    assert_eq!(status_to_str(500), "500");
    assert_eq!(status_to_str(999), "other");
}

#[test]
fn method_texts_are_read_back() {
    for m in [
        HttpMethod::GET,
        HttpMethod::POST,
        HttpMethod::PUT,
        HttpMethod::DELETE,
        HttpMethod::HEAD,
        HttpMethod::OPTIONS,
        HttpMethod::PATCH,
    ] {
        assert_eq!(parse_method(method_to_str(&m)), Some(m));
    }
    assert_eq!(parse_method("ALL"), None);
    assert_eq!(parse_method("TRACE"), None);
}

#[test]
fn workers_take_turns() {
    let mut selector = WorkerSelector::new(3);
    let turns: Vec<usize> = (0..7).map(|_| selector.select()).collect();
    assert_eq!(turns, vec![0, 1, 2, 0, 1, 2, 0]);
}

#[test]
fn answers_have_their_status_headers_and_text() {
    let r = build_error_response(418, "short");
    assert_eq!((r.status, r.body.as_str()), (418, "short"));
    assert_eq!(header(&r, "Content-Type"), Some("text/plain"));
    let r = build_not_found_response("id-1");
    assert_eq!((r.status, r.body.as_str()), (404, "Not Found"));
    assert_eq!(header(&r, "X-Request-ID"), Some("id-1"));
    let r = build_rate_limit_response();
    assert_eq!((r.status, r.body.as_str()), (429, "Rate limit exceeded"));
    assert_eq!(header(&r, "Retry-After"), Some("1"));
    let r = build_circuit_breaker_response();
    assert_eq!(r.status, 503);
    assert_eq!(header(&r, "Retry-After"), Some("30"));
    let r = error_to_response("TIMEOUT: late", "id-2");
    assert_eq!((r.status, r.body.as_str()), (504, "TIMEOUT: late"));
    assert_eq!(header(&r, "X-Request-ID"), Some("id-2"));
    assert_eq!(error_to_response("broken", "id").status, 500);
}

#[test]
fn a_redirect_keeps_what_it_does_not_change() {
    let mut request = head("GET", "/old");
    request.scheme = Some("http".to_string());
    request.host = Some("gw.example".to_string());
    request.port = Some(8080);
    let r = build_redirect_response(&request, &RequestRedirect::new()).unwrap();
    assert_eq!(r.status, 302);
    assert_eq!(header(&r, "Location"), Some("http://gw.example:8080/old"));
    let redirect = RequestRedirect::new()
        .scheme("https".to_string())
        .hostname("new.example".to_string())
        .port(443)
        .path("/new".to_string());
    let r = build_redirect_response(&request, &redirect).unwrap();
    assert_eq!(header(&r, "Location"), Some("https://new.example:443/new"));
}

#[test]
fn a_redirect_needs_a_host() {
    let mut request = head("GET", "/old");
    assert_eq!(
        build_redirect_response(&request, &RequestRedirect::new()).err(),
        Some("Cannot determine redirect host".to_string())
    );
    request.headers.insert("host", HeaderValue::from_static("h.example"));
    let r = build_redirect_response(&request, &RequestRedirect::new()).unwrap();
    assert_eq!(header(&r, "Location"), Some("http://h.example/old"));
    let broken = RequestRedirect::new().path("/a\nb".to_string());
    assert_eq!(
        build_redirect_response(&request, &broken).err(),
        Some("Failed to build redirect response: failed to parse header value".to_string())
    );
}

#[test]
fn request_ids_are_the_clients_or_random() {
    let mut headers = HeaderMap::new();
    let a = request_id(&headers);
    let b = request_id(&headers);
    assert_eq!(a.len(), 36);
    for (i, c) in a.chars().enumerate() {
        if i == 8 || i == 13 || i == 18 || i == 23 {
            assert_eq!(c, '-');
        } else {
            assert!(matches!(c, '0'..='9' | 'a'..='f'));
        }
    }
    assert_eq!(&a[14..15], "4");
    assert!(matches!(&a[19..20], "8" | "9" | "a" | "b"));
    assert_ne!(a, b);
    headers.insert("x-request-id", HeaderValue::from_static("mine"));
    assert_eq!(request_id(&headers), "mine");
    assert_eq!(choose_request_id(Some("x".to_string()), "y".to_string()), "x");
    assert_eq!(choose_request_id(None, "y".to_string()), "y");
}

#[test]
fn a_matched_request_is_forwarded() {
    let mut limiter = RateLimiter::new();
    let mut breakers = CircuitBreakerManager::default();
    let mut request = head("GET", "/api/1");
    let decision = check_request(
        route_match(),
        Some(3),
        &mut request,
        &mut limiter,
        &mut breakers,
        NOW,
    );
    let plan = match decision {
        Decision::Forward(plan) => plan,
        _ => panic!("should forward"),
    };
    assert_eq!(plan.backend, backend());
    assert_eq!(plan.backend_id, "10.0.0.1:8080");
    assert_eq!(plan.pattern, "/api");
    assert_eq!(plan.worker_index, Some(3));
}

#[test]
fn a_limited_request_is_refused_before_the_breaker() {
    let mut limiter = RateLimiter::new();
    limiter.configure_route("/api", TOKEN_PER_SECOND, 1, NOW);
    let mut breakers = CircuitBreakerManager::default();
    let mut request = head("GET", "/api/1");
    let mut ask = || {
        check_request(route_match(), None, &mut request, &mut limiter, &mut breakers, NOW)
    };
    assert!(matches!(ask(), Decision::Forward(_)));
    assert!(matches!(ask(), Decision::Answer(r, AnsweredBy::RateLimit) if r.status == 429));
}

#[test]
fn an_open_breaker_refuses() {
    let mut limiter = RateLimiter::new();
    let mut breakers = CircuitBreakerManager::new(1, 30 * SECOND);
    breakers.record_failure("10.0.0.1:8080", NOW);
    let mut request = head("GET", "/api/1");
    let decision =
        check_request(route_match(), None, &mut request, &mut limiter, &mut breakers, NOW);
    assert!(matches!(decision, Decision::Answer(r, AnsweredBy::Breaker) if r.status == 503));
}

#[test]
fn filters_change_the_request_or_end_it() {
    let mut limiter = RateLimiter::new();
    let mut breakers = CircuitBreakerManager::default();
    let mut request = head("GET", "/api/1");
    let mut m = route_match();
    m.request_filters =
        Some(RequestHeaderModifier::new().set("x-a".to_string(), "1".to_string()));
    let decision = check_request(m, None, &mut request, &mut limiter, &mut breakers, NOW);
    assert!(matches!(decision, Decision::Forward(_)));
    assert_eq!(request.headers.get("x-a").unwrap(), "1");
    let mut m = route_match();
    m.request_filters =
        Some(RequestHeaderModifier::new().set("a b".to_string(), "1".to_string()));
    let decision = check_request(m, None, &mut request, &mut limiter, &mut breakers, NOW);
    assert!(matches!(decision, Decision::Answer(r, AnsweredBy::Filter) if r.status == 500
        && r.body == "Filter error: Invalid header name 'a b': invalid HTTP header name"));
}

#[test]
fn redirects_answer_at_once() {
    let mut limiter = RateLimiter::new();
    let mut breakers = CircuitBreakerManager::default();
    let mut request = head("GET", "/api/1");
    let mut m = route_match();
    m.redirect = Some(RequestRedirect::new());
    let decision = check_request(m, None, &mut request, &mut limiter, &mut breakers, NOW);
    assert!(matches!(decision, Decision::Answer(r, AnsweredBy::Redirect) if r.status == 500
        && r.body == "Redirect error: Cannot determine redirect host"));
}

#[test]
fn requests_are_routed() {
    let mut router = Router::new();
    router.add_route(HttpMethod::GET, "/api", vec![backend()]).unwrap();
    let mut limiter = RateLimiter::new();
    let mut breakers = CircuitBreakerManager::default();
    let mut workers = Some(WorkerSelector::new(2));
    let mut ask = |method: &str, path: &str| {
        let mut request = head(method, path);
        handle_request(
            &mut request,
            "id-3",
            &router,
            &mut workers,
            &mut limiter,
            &mut breakers,
            NOW,
        )
    };
    assert!(matches!(ask("GET", "/metrics"), Decision::ServeMetrics));
    assert!(matches!(ask("POST", "/metrics"), Decision::NotFound(_)));
    assert!(matches!(ask("GET", "/none"), Decision::NotFound(r) if r.status == 404));
    assert!(matches!(ask("GET", "/api/1"), Decision::Forward(p) if p.worker_index == Some(0)));
    assert!(matches!(ask("GET", "/api/1"), Decision::Forward(p) if p.worker_index == Some(1)));
    // a method that is not known is routed as GET
    assert!(matches!(ask("BREW", "/api/1"), Decision::Forward(p) if p.worker_index == Some(0)));
}

#[test]
fn outcomes_are_recorded() {
    let mut router = Router::new();
    router.add_route(HttpMethod::GET, "/api", vec![backend()]).unwrap();
    let mut breakers = CircuitBreakerManager::new(2, 30 * SECOND);
    let mut record = |outcome: Result<u16, String>, worker: Option<usize>| {
        record_request_metrics(
            &outcome,
            HttpMethod::GET,
            "/api",
            worker,
            backend(),
            &mut router,
            &mut breakers,
            NOW,
        )
    };
    let labels = record(Ok(204), Some(12));
    assert_eq!(labels.method, "GET");
    assert_eq!(labels.route, "/api");
    assert_eq!(labels.status, "204");
    assert_eq!(labels.worker, "12");
    let labels = record(Err("TIMEOUT: late".to_string()), None);
    assert_eq!(labels.status, "504");
    assert_eq!(labels.worker, "none");
    assert_eq!(record(Ok(503), None).status, "503");
    assert_eq!(breakers.get_state("10.0.0.1:8080"), Some(CircuitState::Open));
    assert!(router.select_backend(HttpMethod::GET, "/api", None, None).is_none());
    let labels = record_not_found_metrics(HttpMethod::PUT);
    assert_eq!(labels.method, "PUT");
    assert_eq!((labels.route.as_str(), labels.status.as_str()), ("not_found", "404"));
}

#[test]
fn responses_are_filtered_or_replaced() {
    let mut headers = HeaderMap::new();
    headers.insert("server", HeaderValue::from_static("b"));
    let filters = Some(ResponseHeaderModifier::new().remove("server".to_string()));
    assert!(finalize_response(None, &mut headers, &filters, "id").is_none());
    assert!(headers.is_empty());
    let bad = Some(ResponseHeaderModifier::new().add("".to_string(), "x".to_string()));
    let r = finalize_response(None, &mut headers, &bad, "id").unwrap();
    assert_eq!(r.status, 500);
    assert_eq!(
        r.body,
        "Response filter error: Invalid header name '': invalid HTTP header name"
    );
    let r = finalize_response(Some("broken".to_string()), &mut headers, &None, "id").unwrap();
    assert_eq!((r.status, r.body.as_str()), (500, "broken"));
    assert!(finalize_response(None, &mut headers, &None, "id").is_none());
}

#[test]
fn the_metrics_page_is_put_together() {
    assert_eq!(
        serve_metrics_endpoint(b"a 1\n".to_vec(), Some(b"b 2\n".to_vec()), b"c 3\n".to_vec()),
        b"a 1\nb 2\n\nc 3\n".to_vec()
    );
    assert_eq!(serve_metrics_endpoint(b"a".to_vec(), None, vec![]), b"a".to_vec());
    assert_eq!(metrics_content_type(), "text/plain; version=0.0.4; charset=utf-8");
}

#[test]
fn servers_stop_or_go_on_after_a_failed_accept() {
    assert!(matches!(after_accept(None, false), AcceptStep::Serve));
    assert!(matches!(after_accept(Some("x".to_string()), true), AcceptStep::Skip));
    assert!(matches!(
        after_accept(Some("x".to_string()), false),
        AcceptStep::Stop(t) if t == "Failed to accept connection: x"
    ));
    assert_eq!(
        bind_error("127.0.0.1:80", "in use"),
        "Failed to bind to 127.0.0.1:80: in use"
    );
}

#[test]
fn a_draining_server_waits_for_its_connections() {
    let mut connections = Connections::new();
    assert_eq!(connections.serve_with_shutdown(NOW, NOW), DrainStep::Done);
    connections.opened();
    connections.opened();
    assert_eq!(connections.active(), 2);
    assert_eq!(
        connections.serve_with_shutdown(NOW, NOW + 30 * SECOND),
        DrainStep::Wait(DRAIN_POLL)
    );
    assert_eq!(
        connections.serve_with_shutdown(NOW, NOW + 30 * SECOND + 1),
        DrainStep::Forced
    );
    connections.closed();
    connections.closed();
    assert_eq!(connections.serve_with_shutdown(NOW, NOW + 60 * SECOND), DrainStep::Done);
}

#[test]
fn workers_have_pools_of_their_own() {
    let mut workers: Vec<Worker<u32>> = new_workers(2);
    assert_eq!(workers[0].id(), 0);
    assert_eq!(workers[1].id(), 1);
    let pool = workers[1].pools_mut().get_or_create_pool(backend(), NOW);
    assert_eq!(pool.worker_id, 1);
    assert!(workers[1].pools_mut().needs_prewarm(backend()));
    assert!(!workers[0].pools_mut().needs_prewarm(backend()));
    assert_eq!(Worker::<u32>::new(7).id(), 7);
}

#[test]
fn answers_tell_what_was_asked() {
    let said = |by: AnsweredBy| (by.limiter_said(), by.breaker_said());
    assert_eq!(said(AnsweredBy::Routing), (None, None));
    assert_eq!(said(AnsweredBy::Redirect), (None, None));
    assert_eq!(said(AnsweredBy::RateLimit), (Some(false), None));
    assert_eq!(said(AnsweredBy::Filter), (Some(true), None));
    assert_eq!(said(AnsweredBy::Breaker), (Some(true), Some(false)));
}
