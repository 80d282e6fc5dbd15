use rauta::cli::{failed_step, proof_incident_demo_steps};
use rauta::mcp::{
    rauta_cache_stats, rauta_diagnose, rauta_diff, rauta_drain_backend, rauta_get_route,
    rauta_list_circuit_breakers, rauta_list_listeners, rauta_list_rate_limiters,
    rauta_list_routes, rauta_metrics_snapshot, rauta_quarantine_backend, rauta_status,
    rauta_timeline, rauta_undrain_backend, DiagnoseParams, DrainBackendParams, GetRouteParams,
    ListCircuitBreakersParams, ListRateLimitersParams, ListRoutesParams, MetricsSnapshotParams,
    QuarantineBackendParams, TemporalParams, UndrainBackendParams,
};
use rauta::query::{
    backend_health, get_route, keep_routes, list_circuit_breakers, list_rate_limiters,
    list_routes, metrics_snapshot, temporal_query_pairs, AdminBody, AdminRequest, GatewayCall,
    Labelled, RemoteGatewayQuery, RouteSnapshot, TemporalQuery,
};

fn request(call: &GatewayCall) -> AdminRequest {
    RemoteGatewayQuery::new("http://localhost:9091//").request(call)
}

fn is_get(call: &GatewayCall, path: &str) -> bool {
    let r = request(call);
    !r.post
        && r.url == format!("http://localhost:9091{}", path)
        && r.query.is_empty()
        && matches!(r.body, AdminBody::Empty)
}

fn pair(name: &str, value: &str) -> (String, String) {
    (name.to_string(), value.to_string())
}

#[test]
fn the_status_tool_asks_for_a_snapshot() {
    assert!(matches!(rauta_status(), GatewayCall::Snapshot));
    assert!(is_get(&rauta_status(), "/api/v1/status"));
}

#[test]
fn route_tools_ask_for_routes() {
    let list = rauta_list_routes(ListRoutesParams {
        method: Some("GET".to_string()),
        path_prefix: Some("/api".to_string()),
    });
    assert!(matches!(
        &list,
        GatewayCall::ListRoutes { method_filter: Some(m), path_prefix: Some(p) }
            if m == "GET" && p == "/api"
    ));
    assert!(is_get(&list, "/api/v1/routes"));
    let get = rauta_get_route(GetRouteParams { pattern: "/api".to_string() });
    assert!(matches!(&get, GatewayCall::GetRoute { pattern } if pattern == "/api"));
    assert!(is_get(&get, "/api/v1/routes"));
}

#[test]
fn health_tools_ask_for_breakers_limiters_cache_and_listeners() {
    let breakers = rauta_list_circuit_breakers(ListCircuitBreakersParams {
        state: Some("Open".to_string()),
    });
    assert!(matches!(
        &breakers,
        GatewayCall::ListCircuitBreakers { state_filter: Some(s) } if s == "Open"
    ));
    assert!(is_get(&breakers, "/api/v1/circuit-breakers"));
    let limiters =
        rauta_list_rate_limiters(ListRateLimitersParams { route: Some("/api".to_string()) });
    assert!(matches!(
        &limiters,
        GatewayCall::ListRateLimiters { route_filter: Some(r) } if r == "/api"
    ));
    assert!(is_get(&limiters, "/api/v1/rate-limiters"));
    assert!(is_get(&rauta_cache_stats(), "/api/v1/cache"));
    assert!(is_get(&rauta_list_listeners(), "/api/v1/listeners"));
}

#[test]
fn diagnostics_metrics_and_actions_are_sent() {
    let diagnose = rauta_diagnose(DiagnoseParams {
        symptom: "no-healthy-backends".to_string(),
        route: Some("/api".to_string()),
        backend: Some("10.0.0.1:8080".to_string()),
        since_seconds: Some(60),
    });
    let r = request(&diagnose);
    assert!(r.post);
    assert_eq!(r.url, "http://localhost:9091/api/v1/diagnose");
    assert_eq!(
        r.query,
        vec![pair("symptom", "no-healthy-backends"), pair("since_seconds", "60")]
    );
    let metrics = rauta_metrics_snapshot(MetricsSnapshotParams {
        metric: Some("http_requests_total".to_string()),
    });
    assert!(is_get(&metrics, "/api/v1/metrics"));
    let r = request(&rauta_drain_backend(DrainBackendParams {
        backend: "10.0.0.1:8080".to_string(),
        timeout: Some(45),
    }));
    assert!(r.post);
    assert_eq!(r.url, "http://localhost:9091/api/v1/backends/drain");
    assert!(matches!(
        r.body,
        AdminBody::Drain { backend, timeout_secs: 45 } if backend == "10.0.0.1:8080"
    ));
    let r = request(&rauta_undrain_backend(UndrainBackendParams {
        backend: "10.0.0.1:8080".to_string(),
    }));
    assert_eq!(r.url, "http://localhost:9091/api/v1/backends/undrain");
    assert!(matches!(r.body, AdminBody::Undrain { backend } if backend == "10.0.0.1:8080"));
    let r = request(&rauta_quarantine_backend(QuarantineBackendParams {
        backend: "10.0.0.1:8080".to_string(),
        ttl_secs: 300,
    }));
    assert_eq!(r.url, "http://localhost:9091/api/v1/backends/quarantine");
    assert!(matches!(
        r.body,
        AdminBody::Quarantine { backend, ttl_secs: 300 } if backend == "10.0.0.1:8080"
    ));
}

#[test]
fn temporal_tools_name_a_part_of_the_history() {
    let params = || TemporalParams {
        since_seconds: Some(60),
        from_sequence: None,
        to_sequence: None,
    };
    let r = request(&rauta_timeline(params()));
    assert!(!r.post);
    assert_eq!(r.url, "http://localhost:9091/api/v1/timeline");
    assert_eq!(r.query, vec![pair("since_seconds", "60")]);
    let r = request(&rauta_diff(params()));
    assert_eq!(r.url, "http://localhost:9091/api/v1/diff");
    assert_eq!(r.query, vec![pair("since_seconds", "60")]);
}

#[test]
fn a_drain_takes_thirty_seconds_by_default() {
    let r = request(&GatewayCall::DrainBackend {
        backend: "b".to_string(),
        timeout_secs: None,
    });
    assert!(matches!(r.body, AdminBody::Drain { timeout_secs: 30, .. }));
}

#[test]
fn a_part_of_the_history_is_named_by_pairs() {
    assert!(temporal_query_pairs(&TemporalQuery::default()).is_empty());
    let query = TemporalQuery {
        since_seconds: Some(1),
        from_sequence: Some(22),
        to_sequence: Some(333),
    };
    assert_eq!(
        temporal_query_pairs(&query),
        vec![
            pair("since_seconds", "1"),
            pair("from_sequence", "22"),
            pair("to_sequence", "333"),
        ]
    );
}

fn routes() -> Vec<RouteSnapshot<u32>> {
    let route = |method: &str, pattern: &str, detail: u32| RouteSnapshot {
        method: method.to_string(),
        pattern: pattern.to_string(),
        detail,
    };
    vec![
        route("GET", "/api/users", 1),
        route("POST", "/api/users", 2),
        route("GET", "/health", 3),
        route("GET", "/api/groups", 4),
    ]
}

fn details(routes: Vec<RouteSnapshot<u32>>) -> Vec<u32> {
    routes.into_iter().map(|r| r.detail).collect()
}

#[test]
fn routes_are_filtered_by_method_and_prefix() {
    assert_eq!(details(list_routes(routes(), None, None)), vec![1, 2, 3, 4]);
    assert_eq!(details(list_routes(routes(), Some("get"), None)), vec![1, 3, 4]);
    assert_eq!(details(list_routes(routes(), Some("get"), Some("/api"))), vec![1, 4]);
    assert_eq!(details(list_routes(routes(), None, Some("/api"))), vec![1, 2, 4]);
    assert!(list_routes(routes(), Some("put"), None).is_empty());
    // without the upper case the method is compared as it is
    assert!(keep_routes(routes(), Some("get"), None).is_empty());
}

#[test]
fn the_first_route_with_a_pattern_is_found() {
    assert_eq!(get_route(routes(), "/api/users").unwrap().detail, 1);
    assert!(get_route(routes(), "/api").is_none());
}

fn labelled(labels: &[&str]) -> Vec<Labelled<()>> {
    labels.iter().map(|l| Labelled { label: l.to_string(), detail: () }).collect()
}

fn labels(items: Vec<Labelled<()>>) -> Vec<String> {
    items.into_iter().map(|i| i.label).collect()
}

#[test]
fn other_lists_are_filtered_by_label() {
    let states = || labelled(&["Open", "Closed", "OPEN"]);
    assert_eq!(labels(list_circuit_breakers(states(), Some("open"))), vec!["Open", "OPEN"]);
    assert_eq!(list_circuit_breakers(states(), None).len(), 3);
    let limited = || labelled(&["/api", "/api/v2", "/x"]);
    assert_eq!(labels(list_rate_limiters(limited(), Some("v2"))), vec!["/api/v2"]);
    assert_eq!(list_rate_limiters(limited(), None).len(), 3);
    assert_eq!(labels(metrics_snapshot(limited(), Some("api"))), vec!["/api", "/api/v2"]);
}

#[test]
fn backends_are_listed_route_by_route() {
    let route = |pattern: &str, backends: Vec<u32>| RouteSnapshot {
        method: "GET".to_string(),
        pattern: pattern.to_string(),
        detail: backends,
    };
    let all = || vec![route("/api/a", vec![1, 2]), route("/b", vec![3]), route("/api/c", vec![4])];
    assert_eq!(backend_health(all(), None), vec![1, 2, 3, 4]);
    assert_eq!(backend_health(all(), Some("api")), vec![1, 2, 4]);
}

#[test]
fn the_incident_demo_has_nine_steps() {
    let steps = proof_incident_demo_steps("c1", "ns1");
    let names: Vec<&str> = steps.iter().map(|s| s.name).collect();
    assert_eq!(
        names,
        vec![
            "create-kind-cluster",
            "install-gateway-api",
            "deploy-rauta",
            "deploy-demo-backend",
            "send-traffic",
            "inject-failure",
            "diagnose",
            "safe-action",
            "recover",
        ]
    );
    assert_eq!(
        steps[0].command,
        "kind create cluster --name c1 --config deploy/kind-config.yaml"
    );
    assert!(steps[2].command.starts_with("kubectl create namespace ns1 --dry-run=client"));
    assert_eq!(steps[7].command, "rauta backends quarantine 127.0.0.1:8080 --ttl=300");
    assert_eq!(
        failed_step(&steps[6], "exit status: 1"),
        "proof step 'diagnose' failed with exit status: 1"
    );
}
