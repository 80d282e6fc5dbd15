use rauta::circuit_breaker::{
    state_metrics, state_to_str, CircuitBreaker, CircuitBreakerManager, CircuitState,
};
use rauta::time::{MILLISECOND, SECOND};

/// An instant at which the tests begin.
const START: u64 = 1_000 * SECOND;

#[test]
fn test_circuit_breaker_starts_closed() {
    let mut breaker = CircuitBreaker::new(5, 30 * SECOND);

    assert_eq!(breaker.state(), CircuitState::Closed);
    assert!(breaker.allow_request(START));
}

#[test]
fn test_circuit_breaker_opens_after_threshold() {
    let mut breaker = CircuitBreaker::new(3, 30 * SECOND);

    // Record 3 failures (threshold)
    for i in 1..=3 {
        breaker.record_failure(START);

        if i < 3 {
            assert_eq!(
                breaker.state(),
                CircuitState::Closed,
                "Circuit should stay Closed until threshold"
            );
        } else {
            assert_eq!(
                breaker.state(),
                CircuitState::Open,
                "Circuit should Open at threshold"
            );
        }
    }

    // Requests should be blocked
    assert!(
        !breaker.allow_request(START),
        "Requests should be blocked in Open state"
    );
}

#[test]
fn test_circuit_breaker_resets_failure_count_on_success() {
    let mut breaker = CircuitBreaker::new(5, 30 * SECOND);

    // Record 2 failures
    breaker.record_failure(START);
    breaker.record_failure(START);
    assert_eq!(breaker.failure_count(), 2);

    // Success resets count
    breaker.record_success();
    assert_eq!(breaker.failure_count(), 0);
    assert_eq!(breaker.state(), CircuitState::Closed);
}

/// A breaker that opened at the start and waits for 100 ms.
fn open_breaker(threshold: u32) -> CircuitBreaker {
    let mut breaker = CircuitBreaker::new(threshold, 100 * MILLISECOND);
    for _ in 0..threshold {
        breaker.record_failure(START);
    }
    assert_eq!(breaker.state(), CircuitState::Open);
    breaker
}

#[test]
fn test_circuit_breaker_half_open_after_timeout() {
    let mut breaker = open_breaker(3);

    assert!(
        breaker.allow_request(START + 150 * MILLISECOND),
        "First request after timeout should be allowed (Half-Open)"
    );
    assert_eq!(breaker.state(), CircuitState::HalfOpen);
}

#[test]
fn test_circuit_breaker_half_open_closes_on_success() {
    let mut breaker = open_breaker(3);
    breaker.allow_request(START + 150 * MILLISECOND);
    assert_eq!(breaker.state(), CircuitState::HalfOpen);

    // Record 3 successful test requests (half_open_max_requests = 3)
    breaker.record_success();
    breaker.record_success();
    breaker.record_success();

    assert_eq!(
        breaker.state(),
        CircuitState::Closed,
        "Circuit should close after successful Half-Open tests"
    );
    assert_eq!(breaker.failure_count(), 0);
}

#[test]
fn test_circuit_breaker_half_open_reopens_on_failure() {
    let mut breaker = open_breaker(3);
    breaker.allow_request(START + 150 * MILLISECOND);
    assert_eq!(breaker.state(), CircuitState::HalfOpen);

    // Any failure in Half-Open reopens circuit
    breaker.record_failure(START + 150 * MILLISECOND);
    assert_eq!(
        breaker.state(),
        CircuitState::Open,
        "Circuit should reopen on Half-Open failure"
    );
}

#[test]
fn test_circuit_breaker_half_open_limited_requests() {
    let mut breaker = open_breaker(3);
    let now = START + 150 * MILLISECOND;

    // Half-Open allows limited requests (max 3)
    assert!(breaker.allow_request(now), "Request 1 should be allowed");
    assert!(breaker.allow_request(now), "Request 2 should be allowed");
    assert!(breaker.allow_request(now), "Request 3 should be allowed");
    assert!(
        !breaker.allow_request(now),
        "Request 4 should be blocked (limit reached)"
    );
}

#[test]
fn test_circuit_breaker_manager_per_backend_isolation() {
    let mut manager = CircuitBreakerManager::new(3, 30 * SECOND);

    // Create backend-2 first (simulate a successful request)
    manager.record_success("backend-2");

    // Fail backend-1
    for _ in 0..3 {
        manager.record_failure("backend-1", START);
    }

    // backend-1 should be Open
    assert_eq!(
        manager.get_state("backend-1"),
        Some(CircuitState::Open),
        "backend-1 should be Open"
    );

    // backend-2 should still be Closed (isolated from backend-1)
    assert_eq!(
        manager.get_state("backend-2"),
        Some(CircuitState::Closed),
        "backend-2 should be Closed (isolated from backend-1)"
    );
    assert!(
        manager.allow_request("backend-2", START),
        "backend-2 should allow requests"
    );
}

#[test]
fn test_circuit_breaker_manager_create_on_demand() {
    let mut manager = CircuitBreakerManager::new(3, 30 * SECOND);

    // get_state on nonexistent backend returns None
    assert_eq!(manager.get_state("new-backend"), None);

    // get_breaker creates a new breaker
    let breaker = manager.get_breaker("new-backend");
    assert_eq!(breaker.state(), CircuitState::Closed);

    // Second access reuses breaker
    manager.record_failure("new-backend", START);
    assert_eq!(manager.get_breaker("new-backend").failure_count(), 1);
}

#[test]
fn test_circuit_breaker_manager_remove_backend() {
    let mut manager = CircuitBreakerManager::new(3, 30 * SECOND);

    // Create breaker for backend
    manager.record_failure("backend-1", START);
    assert_eq!(manager.get_state("backend-1"), Some(CircuitState::Closed));
    assert_eq!(manager.get_breaker("backend-1").failure_count(), 1);

    // Remove backend
    manager.remove_backend("backend-1");
    assert_eq!(
        manager.get_state("backend-1"),
        None,
        "get_state should return None after removal"
    );

    // get_breaker creates a fresh breaker
    let new_breaker = manager.get_breaker("backend-1");
    assert_eq!(new_breaker.state(), CircuitState::Closed);
    assert_eq!(
        new_breaker.failure_count(),
        0,
        "New breaker should have zero failures"
    );
}

#[test]
fn test_circuit_breaker_state_transitions_full_cycle() {
    // 1. Start Closed
    let mut breaker = CircuitBreaker::new(2, 100 * MILLISECOND);
    assert_eq!(breaker.state(), CircuitState::Closed);

    // 2. Fail twice -> Open
    breaker.record_failure(START);
    breaker.record_failure(START);
    assert_eq!(breaker.state(), CircuitState::Open);

    // 3. Timeout -> Half-Open
    breaker.allow_request(START + 150 * MILLISECOND);
    assert_eq!(breaker.state(), CircuitState::HalfOpen);

    // 4. Succeed 3 times -> Closed
    breaker.record_success();
    breaker.record_success();
    breaker.record_success();
    assert_eq!(breaker.state(), CircuitState::Closed);

    // 5. Verify failure count reset
    assert_eq!(breaker.failure_count(), 0);
}

#[test]
fn open_breaker_waits_for_its_timeout() {
    let mut breaker = open_breaker(3);
    assert!(!breaker.allow_request(START + 99 * MILLISECOND));
    assert_eq!(breaker.state(), CircuitState::Open);
    assert!(breaker.allow_request(START + 100 * MILLISECOND));
}

#[test]
fn reset_closes_a_breaker() {
    let mut breaker = open_breaker(3);
    breaker.reset();
    assert_eq!(breaker.state(), CircuitState::Closed);
    assert_eq!(breaker.failure_count(), 0);
    assert!(breaker.allow_request(START));
}

#[test]
fn default_manager_opens_after_five_failures_for_thirty_seconds() {
    let mut manager = CircuitBreakerManager::default();
    for _ in 0..4 {
        manager.record_failure("b", START);
    }
    assert_eq!(manager.get_state("b"), Some(CircuitState::Closed));
    manager.record_failure("b", START);
    assert_eq!(manager.get_state("b"), Some(CircuitState::Open));
    assert!(!manager.allow_request("b", START + 29 * SECOND));
    assert!(manager.allow_request("b", START + 30 * SECOND));
    assert_eq!(manager.get_state("b"), Some(CircuitState::HalfOpen));
}

#[test]
fn states_have_labels_and_gauge_values() {
    assert_eq!(state_to_str(CircuitState::Closed), "Closed");
    assert_eq!(state_to_str(CircuitState::Open), "Open");
    assert_eq!(state_to_str(CircuitState::HalfOpen), "HalfOpen");
    let (gauge, transition) = state_metrics(CircuitState::Closed, CircuitState::Open);
    assert_eq!(gauge, 1);
    assert_eq!(transition, Some(("Closed", "Open")));
    let (gauge, transition) = state_metrics(CircuitState::Closed, CircuitState::Closed);
    assert_eq!(gauge, 0);
    assert_eq!(transition, None);
    assert_eq!(state_metrics(CircuitState::Open, CircuitState::HalfOpen).0, 2);
}
