use hyper::header::HeaderMap;
use rauta::address::Address;
use rauta::backend::{AddressKind, Backend, HttpMethod};
use rauta::circuit_breaker::CircuitBreakerManager;
use rauta::forwarder::{backend_uri, forward_headers};
use rauta::http2_pool::BackendConnectionPools;
use rauta::listener_manager::{ListenerDecision, ListenerManager};
use rauta::protocol::{HttpProtocol, ProtocolCache};
use rauta::rate_limiter::RateLimiter;
use rauta::request_handler::{record_request_metrics, AnsweredBy, RequestHead};
use rauta::router::Router;

/// The number of an IPv6 address.
fn v6(segments: [u16; 8]) -> u128 {
    segments.iter().fold(0, |n, s| n * 65536 + *s as u128)
}

fn text(segments: [u16; 8]) -> String {
    Backend::from_ipv6(v6(segments), 8080, 100).socket_addr()
}

#[test]
fn ipv6_addresses_are_written_in_short_form() {
    assert_eq!(text([0x2001, 0xdb8, 0, 0, 0, 0, 0, 1]), "[2001:db8::1]:8080");
    assert_eq!(text([0; 8]), "[::]:8080");
    assert_eq!(text([0, 0, 0, 0, 0, 0, 0, 1]), "[::1]:8080");
    assert_eq!(text([0xfe80, 0, 0, 0, 0, 0, 0, 0]), "[fe80::]:8080");
    // A single zero stays, the longest run goes, and of two the first
    assert_eq!(text([1, 2, 3, 0, 5, 6, 7, 8]), "[1:2:3:0:5:6:7:8]:8080");
    assert_eq!(text([1, 0, 0, 2, 0, 0, 0, 3]), "[1:0:0:2::3]:8080");
    assert_eq!(text([1, 0, 0, 2, 0, 0, 3, 4]), "[1::2:0:0:3:4]:8080");
    assert_eq!(text([0xffff; 8]), "[ffff:ffff:ffff:ffff:ffff:ffff:ffff:ffff]:8080");
    assert_eq!(text([0, 0, 0, 0, 0, 0xffff, 0x0a00, 0x0105]), "[::ffff:10.0.1.5]:8080");
    assert_eq!(text([0, 0, 0, 0, 0, 0, 0x0a00, 0x0105]), "[::a00:105]:8080");
}

#[test]
fn every_kind_of_address_has_its_text() {
    let v4 = Backend::new(0x0A000105, 8080, 100);
    assert_eq!(v4.socket_addr(), "10.0.1.5:8080");
    assert_eq!(v4.address(), Address::V4(0x0A000105));
    let v6 = Backend::from_ipv6(1, 443, 100);
    assert_eq!(v6.address(), Address::V6(1));
    assert_eq!(backend_uri(v6, Some("/a?b=c")), "http://[::1]:443/a?b=c");
    let sent = forward_headers(&HeaderMap::new(), v6);
    assert_eq!(sent.get("host").unwrap(), "[::1]:443");
    let none = Backend { kind: AddressKind::Unknown, ..v4 };
    assert_eq!(none.socket_addr(), "unknown:8080");
    assert_eq!(none.address(), Address::Unknown);
}

#[test]
fn health_is_kept_by_whole_address() {
    let one = Backend::from_ipv6(1, 80, 100);
    let two = Backend::from_ipv6(2, 80, 100);
    let mut router = Router::new();
    router.add_route(HttpMethod::GET, "/a", vec![one, two]).unwrap();
    let mut breakers = CircuitBreakerManager::default();
    for _ in 0..10 {
        record_request_metrics(
            &Ok(500),
            HttpMethod::GET,
            "/a",
            None,
            one,
            &mut router,
            &mut breakers,
            0,
        );
    }
    for port in 0..50 {
        let m = router.select_backend(HttpMethod::GET, "/a", Some(7), Some(port)).unwrap();
        assert_eq!(m.backend, two);
    }
    // An IPv4 address is none of these
    router.drain_backend(0, 10, 0);
    assert!(router.select_backend(HttpMethod::GET, "/a", Some(7), Some(1)).is_some());
}

#[test]
fn pools_tell_addresses_apart() {
    let mut pools: BackendConnectionPools<u32> = BackendConnectionPools::default();
    pools.get_or_create_pool(Backend::from_ipv6(1, 80, 100), 0).add_connection(1, 0);
    assert_eq!(pools.get_or_create_pool(Backend::from_ipv6(2, 80, 100), 0).connections.len(), 0);
    assert_eq!(pools.get_or_create_pool(Backend::from_ipv6(1, 80, 1), 0).connections.len(), 1);
    assert_eq!(pools.get_or_create_pool(Backend::new(1, 80, 100), 0).connections.len(), 0);
}

#[test]
fn a_marked_backend_is_spoken_to_in_http2() {
    for (host, backend) in [
        ("10.0.1.5", Backend::new(0x0A000105, 8080, 100)),
        ("::1", Backend::from_ipv6(1, 8080, 100)),
        ("2001:db8::1", Backend::from_ipv6(v6([0x2001, 0xdb8, 0, 0, 0, 0, 0, 1]), 8080, 100)),
    ] {
        let mut router = Router::new();
        router.add_route(HttpMethod::GET, "/", vec![backend]).unwrap();
        let mut limiter = RateLimiter::new();
        let mut breakers = CircuitBreakerManager::default();
        let mut cache = ProtocolCache::new();
        let head = RequestHead {
            method: "GET".to_string(),
            scheme: None,
            authority: Some("example.com".to_string()),
            host: Some("example.com".to_string()),
            port: None,
            path: "/".to_string(),
            path_and_query: None,
            headers: HeaderMap::new(),
        };
        let mut use_http2 = |cache: &ProtocolCache| match ListenerManager::handle_request(
            &head,
            &router,
            &mut limiter,
            &mut breakers,
            cache,
            0,
        ) {
            ListenerDecision::Forward(plan) => plan.use_http2,
            ListenerDecision::Answer(..) => panic!("the backend can be reached"),
        };
        assert!(!use_http2(&cache));
        cache.set_backend_protocol_http2(host, 8081);
        assert!(!use_http2(&cache));
        cache.set_backend_protocol_http2(host, 8080);
        assert!(use_http2(&cache));
    }
}

#[test]
fn a_backend_without_usable_address_is_an_internal_error() {
    let lost = Backend { kind: AddressKind::Unknown, ..Backend::new(0, 80, 100) };
    let mut router = Router::new();
    router.add_route(HttpMethod::GET, "/a", vec![lost]).unwrap();
    router.add_route(HttpMethod::GET, "/b", vec![Backend::from_ipv6(1, 80, 100)]).unwrap();
    let mut limiter = RateLimiter::new();
    let mut breakers = CircuitBreakerManager::default();
    let mut cache = ProtocolCache::new();
    cache.learn("[::1]:80", HttpProtocol::Http2);
    let mut decide = |path: &str| {
        let head = RequestHead {
            method: "GET".to_string(),
            scheme: None,
            authority: Some("example.com".to_string()),
            host: Some("example.com".to_string()),
            port: None,
            path: path.to_string(),
            path_and_query: Some(path.to_string()),
            headers: HeaderMap::new(),
        };
        ListenerManager::handle_request(
            &head,
            &router,
            &mut limiter,
            &mut breakers,
            &cache,
            0,
        )
    };
    match decide("/a") {
        ListenerDecision::Answer(reply, by) => {
            assert_eq!(reply.status, 500);
            assert_eq!(reply.body, "Internal Server Error");
            assert_eq!(by, AnsweredBy::Address);
            assert_eq!(by.limiter_said(), Some(true));
            assert_eq!(by.breaker_said(), Some(true));
        }
        ListenerDecision::Forward(_) => panic!("there is nowhere to forward to"),
    }
    match decide("/b") {
        ListenerDecision::Forward(plan) => {
            assert_eq!(plan.backend_id, "[::1]:80");
            assert_eq!(plan.uri, "http://[::1]:80/b");
            // Listeners know what a backend speaks by its address without brackets
            assert!(!plan.use_http2);
        }
        ListenerDecision::Answer(..) => panic!("the backend can be reached"),
    }
}
