use rauta::backend::{Backend, HttpMethod};
use rauta::filters::{HeaderModifierOp, RequestHeaderModifier};
use rauta::matching::{
    headers_match, query_params_match, value_accepted, HeaderMatch, HeaderMatchType,
    QueryParamMatch, QueryParamMatchType,
};
use rauta::router::{BackendDraining, BackendHealth, Router};
use rauta::time::SECOND;
use std::collections::{HashMap, HashSet};

fn ip(a: u8, b: u8, c: u8, d: u8) -> u32 {
    u32::from_be_bytes([a, b, c, d])
}

fn backend(last: u8) -> Backend {
    Backend::new(ip(10, 0, 1, last), 8080, 100)
}

#[test]
fn test_router_select_backend() {
    let mut router = Router::new();

    // Add a route: GET /api/users -> [10.0.1.1:8080, 10.0.1.2:8080]
    let backends = vec![backend(1), backend(2)];
    router
        .add_route(HttpMethod::GET, "/api/users", backends)
        .unwrap();

    // Select backend for this request (no connection info in test)
    let route_match = router
        .select_backend(HttpMethod::GET, "/api/users", None, None)
        .expect("Should find backend");

    // Should select one of the two backends
    let backend_ip = route_match.backend.ipv4;
    assert!(backend_ip == ip(10, 0, 1, 1) || backend_ip == ip(10, 0, 1, 2));
    assert_eq!(route_match.backend.port, 8080);
    assert_eq!(route_match.pattern, "/api/users");
}

#[test]
fn test_router_no_route() {
    let router = Router::new();

    // No routes added - should return None
    let route_match = router.select_backend(HttpMethod::GET, "/api/users", None, None);
    assert!(route_match.is_none());
}

#[test]
fn test_router_prefix_matching() {
    let mut router = Router::new();

    // Add route: GET /api/users -> backend (Prefix match)
    router
        .add_route(HttpMethod::GET, "/api/users", vec![backend(1)])
        .unwrap();

    // Exact match should work
    let route_match = router
        .select_backend(HttpMethod::GET, "/api/users", None, None)
        .expect("Exact match should work");
    assert_eq!(route_match.backend.ipv4, ip(10, 0, 1, 1));
    assert_eq!(route_match.pattern, "/api/users");

    // Prefix match should also work: /api/users/123 should match /api/users
    let route_match = router
        .select_backend(HttpMethod::GET, "/api/users/123", None, None)
        .expect("Prefix match should work");
    assert_eq!(route_match.backend.ipv4, ip(10, 0, 1, 1));
    assert_eq!(
        route_match.pattern, "/api/users",
        "Prefix match should return original pattern"
    );

    // Deeper paths should match too
    let route_match = router
        .select_backend(HttpMethod::GET, "/api/users/123/posts", None, None)
        .expect("Deep prefix match should work");
    assert_eq!(route_match.backend.ipv4, ip(10, 0, 1, 1));
    assert_eq!(
        route_match.pattern, "/api/users",
        "Deep prefix match should return original pattern"
    );

    // Non-matching path should NOT match
    let route_match = router.select_backend(HttpMethod::GET, "/api/posts", None, None);
    assert!(
        route_match.is_none(),
        "/api/posts should not match /api/users"
    );
}

#[test]
fn test_router_maglev_distribution() {
    let mut router = Router::new();

    // Add 100 different paths with the same 3 backends
    let backends = vec![backend(1), backend(2), backend(3)];
    for i in 0..100 {
        let path = format!("/api/users/{}", i);
        router
            .add_route(HttpMethod::GET, &path, backends.clone())
            .unwrap();
    }

    // Test distribution across different paths with simulated connections
    let mut distribution: HashMap<u32, u32> = HashMap::new();
    for i in 0..100u32 {
        let path = format!("/api/users/{}", i);

        // Simulate different source IPs/ports for load distribution
        let src_ip = 0x0a000001 + i; // 10.0.0.1 + i
        let src_port = 50000 + (i as u16);

        let route_match = router
            .select_backend(HttpMethod::GET, &path, Some(src_ip), Some(src_port))
            .expect("Should find backend");

        *distribution.entry(route_match.backend.ipv4).or_insert(0) += 1;
    }

    // Each backend should get ~33 requests (within 50% variance for small sample)
    assert_eq!(distribution.len(), 3, "Should use all 3 backends");
    for (ip, count) in distribution.iter() {
        let percentage = (*count as f64) / 100.0;
        assert!(
            percentage > 0.10 && percentage < 0.60,
            "Backend {} got {}% (expected 10-60% for small sample)",
            ip,
            percentage * 100.0
        );
    }
}

#[test]
fn test_router_idempotent_add_route() {
    let mut router = Router::new();
    let backends = vec![backend(1)];

    // Add route first time
    router
        .add_route(HttpMethod::GET, "/api/test", backends.clone())
        .expect("First add should succeed");

    // Add same route again (idempotent - should succeed)
    router
        .add_route(HttpMethod::GET, "/api/test", backends.clone())
        .expect("Second add should succeed (idempotent)");

    // Verify route still works
    let route_match = router
        .select_backend(HttpMethod::GET, "/api/test", None, None)
        .expect("Should find backend after duplicate add");
    assert_eq!(route_match.backend.ipv4, ip(10, 0, 1, 1));
}

#[test]
fn test_router_update_route_backends() {
    let mut router = Router::new();

    // Add route with first backend
    router
        .add_route(HttpMethod::GET, "/api/test", vec![backend(1)])
        .expect("First add should succeed");

    // Update route with different backend
    router
        .add_route(HttpMethod::GET, "/api/test", vec![backend(2)])
        .expect("Update should succeed");

    // Verify new backend is used
    let route_match = router
        .select_backend(HttpMethod::GET, "/api/test", None, None)
        .expect("Should find backend after update");
    assert_eq!(
        route_match.backend.ipv4,
        ip(10, 0, 1, 2),
        "Should use updated backend"
    );
}

/// Test passive health checking - track 5xx responses
#[test]
fn test_passive_health_checking_excludes_unhealthy_backend() {
    let mut router = Router::new();
    router
        .add_route(HttpMethod::GET, "/api/test", vec![backend(1), backend(2)])
        .expect("Should add route");

    // Simulate 10 requests to backend 10.0.1.1 - all return 500 (unhealthy)
    for _ in 0..10 {
        router.record_backend_response(ip(10, 0, 1, 1), 500);
    }

    // Simulate 10 requests to backend 10.0.1.2 - all return 200 (healthy)
    for _ in 0..10 {
        router.record_backend_response(ip(10, 0, 1, 2), 200);
    }

    // Now when we select a backend, it should ONLY return the healthy one (10.0.1.2)
    let mut selected_backends = HashSet::new();
    for i in 0..100u32 {
        let route_match = router
            .select_backend(
                HttpMethod::GET,
                "/api/test",
                Some(0x0100007f + i), // Vary source IP
                Some((i % 65535) as u16),
            )
            .expect("Should find backend");

        selected_backends.insert(route_match.backend.ipv4);
    }

    assert_eq!(
        selected_backends.len(),
        1,
        "Should only use 1 healthy backend"
    );
    assert!(
        selected_backends.contains(&ip(10, 0, 1, 2)),
        "Should only use healthy backend 10.0.1.2"
    );
    assert!(
        !selected_backends.contains(&ip(10, 0, 1, 1)),
        "Should NOT use unhealthy backend 10.0.1.1"
    );
}

#[test]
fn test_router_connection_draining() {
    let mut router = Router::new();
    router
        .add_route(HttpMethod::GET, "/api/users", vec![backend(1), backend(2)])
        .expect("Add route should succeed");

    // Mark first backend for draining (30 second grace period)
    let backend_to_drain = ip(10, 0, 1, 1);
    router.drain_backend(backend_to_drain, 30 * SECOND, 0);

    // NEW connections should NOT go to draining backend
    for i in 0..100u32 {
        let src_ip = Some(0x0a000001 + i); // Vary IP to test distribution
        let src_port = Some((50000 + i) as u16);

        let route_match = router
            .select_backend(HttpMethod::GET, "/api/users", src_ip, src_port)
            .expect("Should find backend");

        assert_ne!(
            route_match.backend.ipv4, backend_to_drain,
            "New connections should NOT go to draining backend (attempt {})",
            i
        );
        assert_eq!(
            route_match.backend.ipv4,
            ip(10, 0, 1, 2),
            "Should route to healthy backend only"
        );
    }

    assert!(
        router.is_backend_draining(backend_to_drain),
        "Backend should be marked as draining"
    );
}

#[test]
fn test_router_weighted_backends_canary_deployment() {
    let mut router = Router::new();

    // 90% stable, 10% canary
    let stable_backend = Backend::new(ip(10, 0, 1, 1), 8080, 90);
    let canary_backend = Backend::new(ip(10, 0, 1, 2), 8080, 10);
    router
        .add_route(
            HttpMethod::GET,
            "/api/users",
            vec![stable_backend, canary_backend],
        )
        .expect("Add route should succeed");

    // Test distribution over 1000 requests
    let mut distribution: HashMap<u32, u32> = HashMap::new();
    for i in 0..1000u32 {
        let src_ip = Some(0x0a000001 + i);
        let src_port = Some((50000 + (i % 60000)) as u16);

        let route_match = router
            .select_backend(HttpMethod::GET, "/api/users", src_ip, src_port)
            .expect("Should find backend");

        *distribution.entry(route_match.backend.ipv4).or_insert(0) += 1;
    }

    // Check distribution matches weights (within 10% variance for 1000 samples)
    let stable_count = distribution.get(&stable_backend.ipv4).copied().unwrap_or(0);
    let canary_count = distribution.get(&canary_backend.ipv4).copied().unwrap_or(0);

    let stable_pct = (stable_count as f64) / 1000.0;
    let canary_pct = (canary_count as f64) / 1000.0;

    assert!(
        (0.80..=1.00).contains(&stable_pct),
        "Stable should get 80-100% of traffic (got {:.1}%)",
        stable_pct * 100.0
    );
    assert!(
        (0.00..=0.20).contains(&canary_pct),
        "Canary should get 0-20% of traffic (got {:.1}%)",
        canary_pct * 100.0
    );
}

fn exact_header(name: &str, value: &str) -> HeaderMatch {
    HeaderMatch {
        name: name.to_string(),
        value: value.to_string(),
        match_type: HeaderMatchType::Exact,
    }
}

fn regex_header(name: &str, value: &str) -> HeaderMatch {
    HeaderMatch {
        name: name.to_string(),
        value: value.to_string(),
        match_type: HeaderMatchType::RegularExpression,
    }
}

fn exact_param(name: &str, value: &str) -> QueryParamMatch {
    QueryParamMatch {
        name: name.to_string(),
        value: value.to_string(),
        match_type: QueryParamMatchType::Exact,
    }
}

fn regex_param(name: &str, value: &str) -> QueryParamMatch {
    QueryParamMatch {
        name: name.to_string(),
        value: value.to_string(),
        match_type: QueryParamMatchType::RegularExpression,
    }
}

#[test]
fn test_header_match_exact() {
    let mut router = Router::new();

    // Add route with header match: X-Version = "v1"
    router
        .add_route_with_headers(
            HttpMethod::GET,
            "/api/test",
            vec![backend(1)],
            vec![exact_header("X-Version", "v1")],
        )
        .expect("Should add route with headers");

    // Request WITH matching header should succeed
    let headers = vec![("X-Version", "v1")];
    let route_match = router
        .select_backend_with_headers(HttpMethod::GET, "/api/test", headers, None, None)
        .expect("Should match with correct header");
    assert_eq!(route_match.backend.ipv4, ip(10, 0, 1, 1));

    // Request WITHOUT matching header should fail
    let headers = vec![("X-Version", "v2")];
    let route_match =
        router.select_backend_with_headers(HttpMethod::GET, "/api/test", headers, None, None);
    assert!(
        route_match.is_none(),
        "Should NOT match with incorrect header value"
    );
}

#[test]
fn test_header_match_regex() {
    let mut router = Router::new();

    // Add route with regex header match: X-Version matches "v[0-9]+"
    router
        .add_route_with_headers(
            HttpMethod::GET,
            "/api/test",
            vec![backend(2)],
            vec![regex_header("X-Version", "v[0-9]+")],
        )
        .expect("Should add route with regex headers");

    // Request WITH matching header (v1, v2, v99) should succeed
    for version in &["v1", "v2", "v99"] {
        let headers = vec![("X-Version", *version)];
        let route_match = router
            .select_backend_with_headers(HttpMethod::GET, "/api/test", headers, None, None)
            .unwrap_or_else(|| panic!("Should match header {}", version));
        assert_eq!(route_match.backend.ipv4, ip(10, 0, 1, 2));
    }

    // Request WITHOUT matching header should fail
    let headers = vec![("X-Version", "beta")];
    let route_match =
        router.select_backend_with_headers(HttpMethod::GET, "/api/test", headers, None, None);
    assert!(
        route_match.is_none(),
        "Should NOT match with non-matching regex"
    );
}

#[test]
fn test_header_match_multiple_headers() {
    let mut router = Router::new();

    // Add route with multiple header matches
    router
        .add_route_with_headers(
            HttpMethod::GET,
            "/api/test",
            vec![backend(3)],
            vec![
                exact_header("X-Version", "v1"),
                exact_header("X-Environment", "production"),
            ],
        )
        .expect("Should add route with multiple headers");

    // Request WITH ALL matching headers should succeed
    let headers = vec![("X-Version", "v1"), ("X-Environment", "production")];
    let route_match = router
        .select_backend_with_headers(HttpMethod::GET, "/api/test", headers, None, None)
        .expect("Should match with all headers");
    assert_eq!(route_match.backend.ipv4, ip(10, 0, 1, 3));

    // Request WITH ONLY ONE matching header should fail
    let headers = vec![("X-Version", "v1")]; // Missing X-Environment
    let route_match =
        router.select_backend_with_headers(HttpMethod::GET, "/api/test", headers, None, None);
    assert!(
        route_match.is_none(),
        "Should NOT match when missing required headers"
    );
}

#[test]
fn test_header_match_case_insensitive_name() {
    let mut router = Router::new();

    // Add route with header match: x-version = "v1" (lowercase)
    router
        .add_route_with_headers(
            HttpMethod::GET,
            "/api/test",
            vec![backend(4)],
            vec![exact_header("x-version", "v1")],
        )
        .expect("Should add route");

    // Request with X-Version (uppercase) should match
    let headers = vec![("X-Version", "v1")];
    let route_match = router
        .select_backend_with_headers(HttpMethod::GET, "/api/test", headers, None, None)
        .expect("Should match with case-insensitive header name");
    assert_eq!(route_match.backend.ipv4, ip(10, 0, 1, 4));
}

#[test]
fn test_method_match_single_method() {
    let mut router = Router::new();

    // Add route that ONLY matches POST requests
    router
        .add_route_with_methods(
            HttpMethod::ALL,
            "/api/test",
            vec![Backend::new(ip(10, 0, 2, 1), 8080, 100)],
            vec![HttpMethod::POST],
        )
        .expect("Should add route with method constraint");

    // POST request should match
    let route_match = router
        .select_backend(HttpMethod::POST, "/api/test", None, None)
        .expect("Should match POST request");
    assert_eq!(route_match.backend.ipv4, ip(10, 0, 2, 1));

    // GET request should NOT match
    let route_match = router.select_backend(HttpMethod::GET, "/api/test", None, None);
    assert!(
        route_match.is_none(),
        "Should NOT match GET request when route only allows POST"
    );
}

#[test]
fn test_method_match_multiple_methods() {
    let mut router = Router::new();

    // Add route that matches GET, POST, PUT
    router
        .add_route_with_methods(
            HttpMethod::ALL,
            "/api/test",
            vec![Backend::new(ip(10, 0, 2, 2), 8080, 100)],
            vec![HttpMethod::GET, HttpMethod::POST, HttpMethod::PUT],
        )
        .expect("Should add route with multiple method constraints");

    // GET, POST, PUT should all match
    for method in &[HttpMethod::GET, HttpMethod::POST, HttpMethod::PUT] {
        let route_match = router
            .select_backend(*method, "/api/test", None, None)
            .unwrap_or_else(|| panic!("Should match {:?} request", method));
        assert_eq!(route_match.backend.ipv4, ip(10, 0, 2, 2));
    }

    // DELETE should NOT match
    let route_match = router.select_backend(HttpMethod::DELETE, "/api/test", None, None);
    assert!(
        route_match.is_none(),
        "Should NOT match DELETE request when route only allows GET/POST/PUT"
    );
}

#[test]
fn test_method_match_all_methods() {
    let mut router = Router::new();

    // Add route with NO method constraints (should match all methods)
    router
        .add_route(
            HttpMethod::ALL,
            "/api/test",
            vec![Backend::new(ip(10, 0, 2, 3), 8080, 100)],
        )
        .expect("Should add route without method constraints");

    // All methods should match
    for method in &[
        HttpMethod::GET,
        HttpMethod::POST,
        HttpMethod::PUT,
        HttpMethod::DELETE,
        HttpMethod::HEAD,
        HttpMethod::OPTIONS,
        HttpMethod::PATCH,
    ] {
        let route_match = router
            .select_backend(*method, "/api/test", None, None)
            .unwrap_or_else(|| panic!("Should match {:?} request", method));
        assert_eq!(
            route_match.backend.ipv4,
            ip(10, 0, 2, 3),
            "Route without method constraints should match {:?}",
            method
        );
    }
}

#[test]
fn test_query_param_match_exact() {
    let mut router = Router::new();

    // Add route that ONLY matches requests with ?version=v1
    router
        .add_route_with_query_params(
            HttpMethod::GET,
            "/api/data",
            vec![Backend::new(ip(10, 0, 3, 1), 8080, 100)],
            vec![exact_param("version", "v1")],
        )
        .expect("Should add route with query param matching");

    // Request WITH matching query param should succeed
    let route_match = router
        .select_backend_with_query_params(
            HttpMethod::GET,
            "/api/data",
            vec![("version", "v1")],
            None,
            None,
        )
        .expect("Should match with correct query param");
    assert_eq!(route_match.backend.ipv4, ip(10, 0, 3, 1));

    // Request WITHOUT matching query param should fail
    let route_match = router.select_backend_with_query_params(
        HttpMethod::GET,
        "/api/data",
        vec![("version", "v2")],
        None,
        None,
    );
    assert!(
        route_match.is_none(),
        "Should NOT match with incorrect query param value"
    );
}

#[test]
fn test_query_param_match_regex() {
    let mut router = Router::new();

    // Add route with regex: page matches digits only
    router
        .add_route_with_query_params(
            HttpMethod::GET,
            "/api/list",
            vec![Backend::new(ip(10, 0, 3, 2), 8080, 100)],
            vec![regex_param("page", r"^\d+$")],
        )
        .expect("Should add route with regex query params");

    // Requests WITH matching query params (page=1, page=99) should succeed
    for page in &["1", "99", "12345"] {
        let route_match = router
            .select_backend_with_query_params(
                HttpMethod::GET,
                "/api/list",
                vec![("page", page)],
                None,
                None,
            )
            .unwrap_or_else(|| panic!("Should match page={}", page));
        assert_eq!(route_match.backend.ipv4, ip(10, 0, 3, 2));
    }

    // Request with non-numeric page should fail
    let route_match = router.select_backend_with_query_params(
        HttpMethod::GET,
        "/api/list",
        vec![("page", "abc")],
        None,
        None,
    );
    assert!(
        route_match.is_none(),
        "Should NOT match query param that doesn't match regex"
    );
}

#[test]
fn test_query_param_match_multiple() {
    let mut router = Router::new();

    // Add route requiring BOTH version=v1 AND format=json
    router
        .add_route_with_query_params(
            HttpMethod::GET,
            "/api/export",
            vec![Backend::new(ip(10, 0, 3, 3), 8080, 100)],
            vec![exact_param("version", "v1"), exact_param("format", "json")],
        )
        .expect("Should add route with multiple query params");

    // Request with BOTH query params should match
    let route_match = router
        .select_backend_with_query_params(
            HttpMethod::GET,
            "/api/export",
            vec![("version", "v1"), ("format", "json")],
            None,
            None,
        )
        .expect("Should match with all query params present");
    assert_eq!(route_match.backend.ipv4, ip(10, 0, 3, 3));

    // Request with only ONE query param should fail
    let route_match = router.select_backend_with_query_params(
        HttpMethod::GET,
        "/api/export",
        vec![("version", "v1")],
        None,
        None,
    );
    assert!(
        route_match.is_none(),
        "Should NOT match when missing required query param"
    );
}

#[test]
fn test_filter_set_header() {
    let mut router = Router::new();

    // Create filter that sets X-Custom-Header
    let filter = RequestHeaderModifier::new()
        .set("X-Custom-Header".to_string(), "test-value".to_string());
    router
        .add_route_with_filters(HttpMethod::GET, "/api/users", vec![backend(1)], filter)
        .expect("Should add route with filters");

    // Select backend and verify filter is attached
    let route_match = router
        .select_backend(HttpMethod::GET, "/api/users", None, None)
        .expect("Should find backend");
    assert!(
        route_match.request_filters.is_some(),
        "RouteMatch should have filters attached"
    );

    let filters = route_match.request_filters.unwrap();
    assert_eq!(filters.operations.len(), 1, "Should have 1 filter operation");
    assert!(matches!(
        &filters.operations[0],
        HeaderModifierOp::Replace { name, value }
            if name == "X-Custom-Header" && value == "test-value"
    ));
}

#[test]
fn test_filter_add_header() {
    let mut router = Router::new();

    // Create filter that adds multiple X-Trace-Id headers
    let filter = RequestHeaderModifier::new()
        .add("X-Trace-Id".to_string(), "trace-1".to_string())
        .add("X-Trace-Id".to_string(), "trace-2".to_string());
    router
        .add_route_with_filters(HttpMethod::POST, "/api/events", vec![backend(1)], filter)
        .expect("Should add route with filters");

    let route_match = router
        .select_backend(HttpMethod::POST, "/api/events", None, None)
        .expect("Should find backend");
    assert!(
        route_match.request_filters.is_some(),
        "RouteMatch should have filters attached"
    );

    let filters = route_match.request_filters.unwrap();
    assert_eq!(filters.operations.len(), 2, "Should have 2 filter operations");
}

#[test]
fn test_filter_remove_header() {
    let mut router = Router::new();

    // Create filter that removes Authorization header
    let filter = RequestHeaderModifier::new().remove("Authorization".to_string());
    router
        .add_route_with_filters(HttpMethod::DELETE, "/api/secure", vec![backend(1)], filter)
        .expect("Should add route with filters");

    let route_match = router
        .select_backend(HttpMethod::DELETE, "/api/secure", None, None)
        .expect("Should find backend");
    assert!(
        route_match.request_filters.is_some(),
        "RouteMatch should have filters attached"
    );

    let filters = route_match.request_filters.unwrap();
    assert_eq!(filters.operations.len(), 1, "Should have 1 filter operation");
}

#[test]
fn update_replaces_backends_and_creates_missing_routes() {
    let mut router = Router::new();
    router
        .update_route_backends(HttpMethod::GET, "/a", vec![backend(1)])
        .unwrap();
    assert_eq!(
        router.select_backend(HttpMethod::GET, "/a", None, None).unwrap().backend,
        backend(1)
    );
    router
        .update_route_backends(HttpMethod::GET, "/a", vec![backend(2)])
        .unwrap();
    assert_eq!(
        router.select_backend(HttpMethod::GET, "/a", None, None).unwrap().backend,
        backend(2)
    );
}

#[test]
fn the_longest_prefix_wins() {
    let mut router = Router::new();
    router.add_route(HttpMethod::GET, "/", vec![backend(1)]).unwrap();
    router.add_route(HttpMethod::GET, "/api", vec![backend(2)]).unwrap();
    router.add_route(HttpMethod::GET, "/api/users", vec![backend(3)]).unwrap();
    let pattern = |path: &str| {
        router.select_backend(HttpMethod::GET, path, None, None).unwrap().pattern
    };
    assert_eq!(pattern("/api/users/7"), "/api/users");
    assert_eq!(pattern("/api/groups"), "/api");
    assert_eq!(pattern("/other"), "/");
    assert_eq!(pattern("/"), "/");
    assert_eq!(pattern("/apis"), "/");
}

#[test]
fn one_path_serves_each_method_with_its_own_backends() {
    let mut router = Router::new();
    router.add_route(HttpMethod::GET, "/api", vec![backend(1)]).unwrap();
    assert_eq!(router.add_route(HttpMethod::POST, "/api", vec![backend(2)]), Ok(()));
    let serving = |method: HttpMethod, path: &str| {
        router.select_backend(method, path, None, None).unwrap().backend
    };
    assert_eq!(serving(HttpMethod::GET, "/api"), backend(1));
    assert_eq!(serving(HttpMethod::POST, "/api"), backend(2));
    // Below the path each method finds its own route too; any other method finds the first one
    assert_eq!(serving(HttpMethod::GET, "/api/users"), backend(1));
    assert_eq!(serving(HttpMethod::POST, "/api/users"), backend(2));
    assert_eq!(serving(HttpMethod::PUT, "/api/users"), backend(1));
    assert_eq!(serving(HttpMethod::PUT, "/api"), backend(1));
}

#[test]
fn trailing_slashes_make_no_conflict() {
    for paths in [["/api", "/api/"], ["/api/", "/api"]] {
        let mut router = Router::new();
        for (n, path) in paths.iter().enumerate() {
            router.add_route(HttpMethod::GET, path, vec![backend(n as u8 + 1)]).unwrap();
        }
        let pattern = |path: &str| {
            router.select_backend(HttpMethod::GET, path, None, None).unwrap().pattern
        };
        assert_eq!(pattern("/api"), "/api");
        assert_eq!(pattern("/api/"), "/api/");
        assert_eq!(pattern("/api/users"), "/api/");
    }
}

#[test]
fn every_kind_of_route_may_share_a_path() {
    let mut router = Router::new();
    let filters = RequestHeaderModifier::new().remove("Authorization".to_string());
    router.add_route_with_headers(HttpMethod::GET, "/a", vec![backend(1)], vec![]).unwrap();
    router
        .add_route_with_methods(HttpMethod::PUT, "/a", vec![backend(2)], vec![HttpMethod::PUT])
        .unwrap();
    router.add_route_with_query_params(HttpMethod::POST, "/a", vec![backend(3)], vec![]).unwrap();
    router.add_route_with_filters(HttpMethod::DELETE, "/a", vec![backend(4)], filters).unwrap();
    router.update_route_backends(HttpMethod::HEAD, "/a", vec![backend(5)]).unwrap();
    let methods =
        [HttpMethod::GET, HttpMethod::PUT, HttpMethod::POST, HttpMethod::DELETE, HttpMethod::HEAD];
    for (n, method) in methods.into_iter().enumerate() {
        let m = router.select_backend(method, "/a/b", None, None).unwrap();
        assert_eq!(m.backend, backend(n as u8 + 1));
    }
}

#[test]
fn adding_a_route_again_changes_nothing() {
    let mut router = Router::new();
    router.add_route(HttpMethod::GET, "/a", vec![backend(1)]).unwrap();
    router.add_route(HttpMethod::POST, "/a", vec![backend(2)]).unwrap();
    for _ in 0..2 {
        assert_eq!(router.add_route(HttpMethod::POST, "/a", vec![backend(3)]), Ok(()));
        let m = router.select_backend(HttpMethod::POST, "/a/b", None, None).unwrap();
        assert_eq!(m.backend, backend(3));
        let m = router.select_backend(HttpMethod::GET, "/a/b", None, None).unwrap();
        assert_eq!(m.backend, backend(1));
    }
}

#[test]
fn conflicting_parameters_are_refused() {
    let mut router = Router::new();
    router.add_route(HttpMethod::GET, "/a/{x}/b", vec![backend(1)]).unwrap();
    assert!(router.add_route(HttpMethod::POST, "/a/{y}/b", vec![backend(2)]).is_err());
    // The route itself stays
    let m = router.select_backend(HttpMethod::POST, "/a/{y}/b", None, None).unwrap();
    assert_eq!(m.backend, backend(2));
}

#[test]
fn escaped_braces_are_no_parameters() {
    let mut router = Router::new();
    let path = format!("/{}", "{{x}}/".repeat(30));
    router.add_route(HttpMethod::GET, &path, vec![backend(1)]).unwrap();
    let request = format!("/{}tail", "{x}/".repeat(30));
    let m = router.select_backend(HttpMethod::POST, &request, None, None).unwrap();
    assert_eq!(m.backend, backend(1));
    let many = format!("/{}", "{x}/".repeat(25));
    assert!(router.add_route(HttpMethod::GET, &many, vec![backend(2)]).is_ok());
}

#[test]
fn malformed_patterns_are_refused() {
    let mut router = Router::new();
    assert!(router.add_route(HttpMethod::GET, "/a/{b", vec![backend(1)]).is_err());
}

#[test]
fn a_route_without_backends_selects_none() {
    let mut router = Router::new();
    router.add_route(HttpMethod::GET, "/a", vec![]).unwrap();
    assert!(router.select_backend(HttpMethod::GET, "/a", None, None).is_none());
}

#[test]
fn one_client_stays_with_one_backend() {
    let mut router = Router::new();
    router
        .add_route(HttpMethod::GET, "/a", vec![backend(1), backend(2), backend(3)])
        .unwrap();
    let first = router
        .select_backend(HttpMethod::GET, "/a", Some(7), Some(9))
        .unwrap()
        .backend;
    for _ in 0..10 {
        let again = router
            .select_backend(HttpMethod::GET, "/a", Some(7), Some(9))
            .unwrap()
            .backend;
        assert_eq!(first, again);
    }
}

#[test]
fn draining_ends_at_its_deadline() {
    let mut router = Router::new();
    router.add_route(HttpMethod::GET, "/a", vec![backend(1)]).unwrap();
    router.drain_backend(backend(1).ipv4, 30 * SECOND, 100);
    assert!(router.select_backend(HttpMethod::GET, "/a", None, None).is_none());
    router.cleanup_expired_draining_backends(100 + 30 * SECOND - 1);
    assert!(router.is_backend_draining(backend(1).ipv4));
    router.cleanup_expired_draining_backends(100 + 30 * SECOND);
    assert!(!router.is_backend_draining(backend(1).ipv4));
    assert!(router.select_backend(HttpMethod::GET, "/a", None, None).is_some());
    let mark = BackendDraining::new(5, 10);
    assert!(!mark.is_expired(14));
    assert!(mark.is_expired(15));
}

#[test]
fn health_is_judged_on_the_last_hundred_responses() {
    let mut health = BackendHealth::new();
    assert!(health.is_healthy());
    health.record_response(500);
    assert!(!health.is_healthy());
    health.record_response(200);
    assert!(health.is_healthy());
    for _ in 0..100 {
        health.record_response(503);
    }
    assert!(!health.is_healthy());
    for _ in 0..50 {
        health.record_response(200);
    }
    assert!(health.is_healthy());
    assert!(matches!(health.record_response(404), ()));
    assert!(health.is_healthy());
}

#[test]
fn an_expression_that_does_not_compile_matches_nothing() {
    assert!(!headers_match(&[regex_header("a", "(")], &[("a", "(")]));
    assert!(!query_params_match(&[regex_param("a", "(")], &[("a", "(")]));
    assert!(headers_match(&[], &[]));
    assert!(query_params_match(&[], &[("a", "b")]));
    assert!(!query_params_match(&[exact_param("A", "b")], &[("a", "b")]));
    assert!(value_accepted(false, "x", "x", None));
    assert!(!value_accepted(false, "x", "y", Some(true)));
    assert!(value_accepted(true, "x", "y", Some(true)));
    assert!(!value_accepted(true, "x", "x", Some(false)));
    assert!(!value_accepted(true, "x", "x", None));
}

#[test]
fn most_filter_operations_is_the_longest_list() {
    let mut router = Router::new();
    assert_eq!(router.most_filter_operations(), 0);
    let two = RequestHeaderModifier::new()
        .remove("a".to_string())
        .remove("b".to_string());
    router
        .add_route_with_filters(HttpMethod::GET, "/a", vec![backend(1)], two)
        .unwrap();
    router.add_route(HttpMethod::GET, "/b", vec![backend(1)]).unwrap();
    assert_eq!(router.most_filter_operations(), 2);
}

/// The route among the given ones that serves a path: its own, or the deepest one above it.
fn expected_pattern<'a>(routes: &[&'a str], path: &str) -> Option<&'a str> {
    let mut best: Option<(usize, &'a str)> = None;
    for route in routes {
        let base = format!("{}/", route.trim_end_matches('/'));
        let depth = if *route == path {
            path.len()
        } else if path.len() > base.len() && path.starts_with(&base) {
            base.len()
        } else {
            continue;
        };
        if best.map_or(true, |(d, _)| depth > d) {
            best = Some((depth, route));
        }
    }
    best.map(|(_, r)| r)
}

#[test]
fn every_set_of_literal_routes_is_matched_by_the_deepest() {
    let all = ["/", "/a", "/ab", "/a/b", "/a/bc", "/b", "/a/b/c", "/abc/d"];
    let paths = [
        "/", "//", "/a", "/a/", "/ab", "/abc", "/a/b", "/a/bc", "/a/bcd", "/a/b/", "/a/b/c",
        "/a/b/c/d", "/a/c", "/a/bc/x", "/b", "/b/x", "/abc/d", "/abc/d/e", "/abc/x", "/c", "/ab/c",
        "a", "", "/a//b",
    ];
    for set in 0..(1usize << all.len()) {
        let routes: Vec<&str> =
            (0..all.len()).filter(|i| set & (1 << i) != 0).map(|i| all[i]).collect();
        let mut router = Router::new();
        for route in &routes {
            router.add_route(HttpMethod::GET, route, vec![backend(1)]).unwrap();
        }
        for path in paths {
            let found = router.select_backend(HttpMethod::GET, path, None, None);
            assert_eq!(
                found.as_ref().map(|m| m.pattern.as_str()),
                expected_pattern(&routes, path),
                "routes {:?}, path {:?}",
                routes,
                path
            );
        }
    }
}

#[test]
fn a_default_router_has_no_routes() {
    let router = Router::default();
    assert!(router.select_backend(HttpMethod::GET, "/", None, None).is_none());
}
