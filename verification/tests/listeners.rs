use hyper::header::{HeaderMap, HeaderValue};
use rauta::backend::{Backend, HttpMethod};
use rauta::circuit_breaker::{CircuitBreakerManager, CircuitState};
use rauta::health_checker::{
    BackendHealthState, HealthCheckConfig, HealthChecker, HealthStatus, ProbeResult,
};
use rauta::listener_manager::{
    protocol_to_str, BackendOutcome, GatewayRef, ListenerConfig, ListenerDecision,
    ListenerManager, Protocol, RegisterStep,
};
use rauta::protocol::{HttpProtocol, ProtocolCache};
use rauta::rate_limiter::{RateLimiter, TOKEN_PER_SECOND};
use rauta::request_handler::RequestHead;
use rauta::router::Router;
use rauta::time::SECOND;

const NOW: u64 = 700 * SECOND;

fn gateway(namespace: &str, name: &str) -> GatewayRef {
    GatewayRef {
        namespace: namespace.to_string(),
        name: name.to_string(),
        listener_name: "http".to_string(),
        hostname: None,
    }
}

fn http(port: u16) -> ListenerConfig {
    ListenerConfig { port, protocol: Protocol::HTTP }
}

fn https(port: u16) -> ListenerConfig {
    ListenerConfig { port, protocol: Protocol::HTTPS }
}

/// Registers a gateway; a port that is not open is bound without trouble.
fn register(
    manager: &mut ListenerManager,
    config: ListenerConfig,
    gateway: GatewayRef,
) -> Result<(), String> {
    match manager.register_gateway(config, gateway.clone()) {
        RegisterStep::Registered => Ok(()),
        RegisterStep::Refused(why) => Err(why),
        RegisterStep::Bind(_) => manager.finish_registration(config, gateway, Ok(())),
    }
}

#[test]
fn test_shared_listener_multiple_gateways_same_port() {
    let mut manager = ListenerManager::new(false);
    let gateway1 = gateway("default", "gateway-1");
    let mut gateway2 = gateway("conformance", "gateway-2");
    gateway2.hostname = Some("*.example.com".to_string());

    // Register first Gateway
    register(&mut manager, http(0), gateway1).expect("First Gateway should succeed");
    let listeners = manager.list_listeners();
    assert_eq!(listeners.len(), 1, "Should have 1 listener");
    let actual_port = listeners[0].0;
    assert_eq!(listeners[0].2, 1, "Should have 1 Gateway registered");

    // Register second Gateway on SAME port - should SUCCEED
    register(&mut manager, http(actual_port), gateway2).expect("Second Gateway should share port");

    // Verify still only 1 listener, but 2 Gateways
    let listeners = manager.list_listeners();
    assert_eq!(listeners.len(), 1, "Should still have 1 listener");
    assert_eq!(listeners[0].2, 2, "Should have 2 Gateways registered");
}

#[test]
fn test_unregister_gateway_keeps_listener_alive() {
    let mut manager = ListenerManager::new(false);
    let gateway1 = gateway("default", "gateway-1");
    let gateway2 = gateway("default", "gateway-2");
    register(&mut manager, http(0), gateway1.clone()).unwrap();
    let actual_port = manager.list_listeners()[0].0;
    register(&mut manager, http(actual_port), gateway2).unwrap();

    // Unregister first Gateway
    let shut = manager
        .unregister_gateway(actual_port, &gateway1)
        .expect("Should unregister gateway1");
    assert!(!shut);

    // Listener should still exist (gateway2 still using it)
    let listeners = manager.list_listeners();
    assert_eq!(listeners.len(), 1, "Listener should still exist");
    assert_eq!(listeners[0].2, 1, "Should have 1 Gateway left");
}

#[test]
fn test_unregister_last_gateway_shuts_down_listener() {
    let mut manager = ListenerManager::new(false);
    let gateway = gateway("default", "gateway-1");
    register(&mut manager, http(0), gateway.clone()).unwrap();
    let actual_port = manager.list_listeners()[0].0;

    // Unregister only Gateway
    let shut = manager
        .unregister_gateway(actual_port, &gateway)
        .expect("Should unregister gateway");
    assert!(shut);

    // Listener should be shut down
    let listeners = manager.list_listeners();
    assert_eq!(listeners.len(), 0, "Listener should be shut down");
}

#[test]
fn test_protocol_mismatch_rejected() {
    let mut manager = ListenerManager::new(false);
    register(&mut manager, http(0), gateway("default", "gateway-1")).unwrap();

    // Try to register HTTPS on same port - should FAIL
    let actual_port = manager.list_listeners()[0].0;
    let mut gateway2 = gateway("default", "gateway-2");
    gateway2.listener_name = "https".to_string();
    let result = register(&mut manager, https(actual_port), gateway2);
    assert!(
        result.is_err(),
        "Should reject protocol mismatch on same port"
    );
    let text = result.unwrap_err();
    assert!(text.contains("already bound with protocol"));
    assert_eq!(text, "Port 0 already bound with protocol HTTP, cannot bind with HTTPS");
}

#[test]
fn test_idempotent_registration() {
    let mut manager = ListenerManager::new(false);
    let gateway = gateway("default", "gateway-1");
    register(&mut manager, http(0), gateway.clone()).unwrap();

    // Register same Gateway again - should be idempotent
    let actual_port = manager.list_listeners()[0].0;
    register(&mut manager, http(actual_port), gateway).unwrap();

    // Should still have 1 listener with 1 Gateway
    let listeners = manager.list_listeners();
    assert_eq!(listeners.len(), 1);
    assert_eq!(listeners[0].2, 1, "Should still have only 1 Gateway");
}

#[test]
fn listeners_are_refused_with_a_reason() {
    let mut manager = ListenerManager::new(false);
    assert!(matches!(
        manager.register_gateway(https(443), gateway("a", "b")),
        RegisterStep::Refused(t)
            if t == "HTTPS listener requires TLS configuration. Use ListenerManager::with_tls()"
    ));
    assert!(matches!(
        manager.register_gateway(http(80), gateway("a", "b")),
        RegisterStep::Bind(t) if t == "0.0.0.0:80"
    ));
    assert_eq!(
        manager.finish_registration(http(80), gateway("a", "b"), Err("in use".to_string())),
        Err("Failed to bind to 0.0.0.0:80: in use".to_string())
    );
    assert_eq!(
        manager.unregister_gateway(80, &gateway("a", "b")),
        Err("No listener on port 80".to_string())
    );
    register(&mut manager, http(80), gateway("a", "b")).unwrap();
    assert_eq!(
        manager.unregister_gateway(80, &gateway("a", "c")),
        Err("Gateway a/c/http not registered on port 80".to_string())
    );
    assert!(gateway("a", "b").same(&gateway("a", "b")));
    assert!(!gateway("a", "b").same(&gateway("b", "b")));
    assert_eq!(protocol_to_str(Protocol::HTTPS), "HTTPS");
}

#[test]
fn shutdown_closes_every_listener() {
    let mut manager = ListenerManager::new(true);
    register(&mut manager, http(80), gateway("a", "b")).unwrap();
    register(&mut manager, https(443), gateway("a", "b")).unwrap();
    assert_eq!(manager.shutdown(), vec![80, 443]);
    assert!(manager.list_listeners().is_empty());
}

fn head(method: &str, path: &str, host: Option<&'static str>) -> RequestHead {
    let mut headers = HeaderMap::new();
    if let Some(h) = host {
        headers.insert("host", HeaderValue::from_static(h));
    }
    RequestHead {
        method: method.to_string(),
        scheme: None,
        authority: None,
        host: None,
        port: None,
        path: path.to_string(),
        path_and_query: Some(format!("{}?x=1", path)),
        headers,
    }
}

#[test]
fn requests_at_a_listener_are_decided() {
    let backend = Backend::new(0x0A000001, 8080, 100);
    let mut router = Router::new();
    router.add_route(HttpMethod::GET, "/api", vec![backend]).unwrap();
    let mut limiter = RateLimiter::new();
    limiter.configure_route("/api", TOKEN_PER_SECOND, 2, NOW);
    let mut breakers = CircuitBreakerManager::new(1, 30 * SECOND);
    let mut cache = ProtocolCache::new();
    cache.learn("10.0.0.1:8080", HttpProtocol::Http2);
    let status = |d: ListenerDecision| match d {
        ListenerDecision::Answer(r, _) => r.status,
        ListenerDecision::Forward(_) => 0,
    };
    let mut ask = |h: RequestHead, breakers: &mut CircuitBreakerManager| {
        ListenerManager::handle_request(&h, &router, &mut limiter, breakers, &cache, NOW)
    };
    assert_eq!(status(ask(head("GET", "/api", None), &mut breakers)), 400);
    assert_eq!(status(ask(head("BREW", "/api", Some("h")), &mut breakers)), 405);
    assert_eq!(status(ask(head("GET", "/none", Some("h")), &mut breakers)), 404);
    match ask(head("GET", "/api", Some("h")), &mut breakers) {
        ListenerDecision::Forward(plan) => {
            assert_eq!(plan.backend, backend);
            assert_eq!(plan.backend_id, "10.0.0.1:8080");
            assert_eq!(plan.uri, "http://10.0.0.1:8080/api?x=1");
            assert!(plan.use_http2);
        }
        ListenerDecision::Answer(_, _) => panic!("should forward"),
    }
    breakers.record_failure("10.0.0.1:8080", NOW);
    assert_eq!(status(ask(head("GET", "/api", Some("h")), &mut breakers)), 503);
    assert_eq!(status(ask(head("GET", "/api", Some("h")), &mut breakers)), 429);
}

#[test]
fn outcomes_at_a_listener_are_recorded() {
    let mut breakers = CircuitBreakerManager::new(2, 30 * SECOND);
    assert!(ListenerManager::record_outcome(
        &mut breakers,
        "b",
        BackendOutcome::Responded(200),
        NOW
    )
    .is_none());
    let reply = ListenerManager::record_outcome(
        &mut breakers,
        "b",
        BackendOutcome::Unreachable,
        NOW,
    )
    .unwrap();
    assert_eq!((reply.status, reply.body.as_str()), (502, "Bad Gateway"));
    ListenerManager::record_outcome(&mut breakers, "b", BackendOutcome::Responded(500), NOW);
    assert_eq!(breakers.get_state("b"), Some(CircuitState::Open));
    assert_eq!(ListenerManager::build_unreadable_body_response().status, 400);
    assert_eq!(ListenerManager::build_bad_gateway_response().status, 502);
}

#[test]
fn test_default_config() {
    let config = HealthCheckConfig::default();
    assert_eq!(config.interval, 5 * SECOND);
    assert_eq!(config.timeout, 2 * SECOND);
    assert_eq!(config.unhealthy_threshold, 3);
    assert_eq!(config.healthy_threshold, 2);
}

#[test]
fn test_health_checker_creation() {
    let checker = HealthChecker::new(HealthCheckConfig::default());

    // All backends start as healthy (optimistic)
    let backend = Backend::new(0x0A000101, 8080, 100);
    assert!(checker.is_healthy(&backend));
}

#[test]
fn test_health_state_transitions() {
    let config = HealthCheckConfig {
        unhealthy_threshold: 3,
        healthy_threshold: 2,
        ..Default::default()
    };

    let mut state = BackendHealthState::new();
    assert_eq!(state.status, HealthStatus::Healthy);

    // 1 failure - still healthy
    state.record_failure(&config, NOW);
    assert_eq!(state.status, HealthStatus::Healthy);
    assert_eq!(state.consecutive_failures, 1);

    // 2 failures - still healthy
    state.record_failure(&config, NOW);
    assert_eq!(state.status, HealthStatus::Healthy);
    assert_eq!(state.consecutive_failures, 2);

    // 3 failures - now unhealthy
    state.record_failure(&config, NOW);
    assert_eq!(state.status, HealthStatus::Unhealthy);
    assert_eq!(state.consecutive_failures, 3);

    // 1 success - still unhealthy
    state.record_success(10, &config, NOW);
    assert_eq!(state.status, HealthStatus::Unhealthy);
    assert_eq!(state.consecutive_successes, 1);
    assert_eq!(state.consecutive_failures, 0);

    // 2 successes - now healthy
    state.record_success(10, &config, NOW);
    assert_eq!(state.status, HealthStatus::Healthy);
    assert_eq!(state.consecutive_successes, 2);
}

#[test]
fn probes_decide_on_health() {
    let backend = Backend::new(0x0A000101, 8080, 100);
    let mut checker = HealthChecker::new(HealthCheckConfig::default());
    checker.start_checking(&vec![backend]);
    assert_eq!(checker.get_all_statuses(), vec![(backend, HealthStatus::Healthy)]);
    checker.check_backend(backend, ProbeResult::Refused, NOW);
    checker.check_backend(backend, ProbeResult::TimedOut, NOW);
    assert!(checker.is_healthy(&backend));
    let metrics = checker.check_backend(backend, ProbeResult::Refused, NOW);
    assert!(!checker.is_healthy(&backend));
    assert_eq!(metrics.health, 0);
    assert_eq!(metrics.consecutive_failures, 3);
    assert_eq!(metrics.transition, Some(("healthy", "unhealthy")));
    let metrics = checker.check_backend(backend, ProbeResult::Connected(7), NOW);
    assert_eq!(metrics.result, "success");
    assert_eq!(metrics.consecutive_failures, 0);
    assert_eq!(checker.state_of(&backend).last_latency_ms, Some(7));
    let metrics = checker.check_backend(backend, ProbeResult::Connected(8), NOW);
    assert_eq!(metrics.health, 1);
    assert_eq!(metrics.transition, Some(("unhealthy", "healthy")));
    assert!(checker.is_healthy(&backend));
}
