use rauta::rate_limiter::{
    result_label, RateLimiter, TokenBucket, NANOTOKEN, TOKEN, TOKEN_PER_SECOND,
};
use rauta::time::{MILLISECOND, SECOND};

const START: u64 = 1_000 * SECOND;

/// So many whole tokens, as an amount to acquire.
fn tokens(n: u64) -> u64 {
    n * (TOKEN / NANOTOKEN) as u64
}

/// A rate of so many whole tokens a second.
fn rps(n: u64) -> u64 {
    n * TOKEN_PER_SECOND
}

#[test]
fn test_token_bucket_allows_requests_under_limit() {
    let mut bucket = TokenBucket::new(rps(10), 10, START); // 10 rps, burst 10

    // Should allow first 10 requests (burst capacity)
    for i in 1..=10 {
        assert!(
            bucket.try_acquire(START),
            "Request {} should be allowed (within burst)",
            i
        );
    }

    // Should deny 11th request (bucket empty)
    assert!(
        !bucket.try_acquire(START),
        "Request 11 should be denied (bucket empty)"
    );
}

#[test]
fn test_token_bucket_refills_over_time() {
    let mut bucket = TokenBucket::new(rps(100), 10, START); // 100 rps, burst 10

    // Drain bucket
    for _ in 0..10 {
        bucket.try_acquire(START);
    }
    assert!(!bucket.try_acquire(START), "Bucket should be empty");

    // 100ms later it should have refilled 10 tokens at 100 rps
    assert!(
        bucket.try_acquire(START + 100 * MILLISECOND),
        "Bucket should have refilled after 100ms"
    );
}

#[test]
fn test_token_bucket_burst_capacity() {
    let mut bucket = TokenBucket::new(rps(10), 50, START); // 10 rps, burst 50

    // Should allow 50 requests immediately (burst)
    for i in 1..=50 {
        assert!(
            bucket.try_acquire(START),
            "Request {} should be allowed (within burst of 50)",
            i
        );
    }

    // 51st should fail
    assert!(
        !bucket.try_acquire(START),
        "Request 51 should be denied (burst exceeded)"
    );
}

#[test]
fn test_token_bucket_refill_rate_accuracy() {
    let mut bucket = TokenBucket::new(rps(1000), 10, START); // 1000 rps = 1 token per ms

    // Drain bucket
    for _ in 0..10 {
        bucket.try_acquire(START);
    }

    // 5ms later ~5 requests are allowed
    let now = START + 5 * MILLISECOND;
    let mut allowed = 0;
    for _ in 0..10 {
        if bucket.try_acquire(now) {
            allowed += 1;
        }
    }
    assert!(
        allowed >= 4 && allowed <= 6,
        "Should allow 4-6 requests after 5ms, got {}",
        allowed
    );
    assert_eq!(allowed, 5);
}

#[test]
fn test_token_bucket_weighted_acquire() {
    let mut bucket = TokenBucket::new(rps(10), 10, START);

    // Acquire 5 tokens
    assert!(bucket.try_acquire_n(tokens(5), START), "Should acquire 5 tokens");

    // Acquire 3 more
    assert!(bucket.try_acquire_n(tokens(3), START), "Should acquire 3 more tokens");

    // Try to acquire 5 more (only 2 left)
    assert!(
        !bucket.try_acquire_n(tokens(5), START),
        "Should fail to acquire 5 tokens (only 2 left)"
    );

    // Should still be able to acquire 2
    assert!(
        bucket.try_acquire_n(tokens(2), START),
        "Should acquire remaining 2 tokens"
    );
}

#[test]
fn test_rate_limiter_configure_and_check() {
    let mut limiter = RateLimiter::new();

    // Configure /api route
    limiter.configure_route("/api", rps(10), 10, START);

    // Should allow first 10 requests
    for i in 1..=10 {
        assert!(
            limiter.check_rate_limit("/api", START),
            "Request {} should be allowed",
            i
        );
    }

    // 11th should fail
    assert!(
        !limiter.check_rate_limit("/api", START),
        "Request 11 should be rate limited"
    );
}

#[test]
fn test_rate_limiter_per_route_isolation() {
    let mut limiter = RateLimiter::new();

    // Configure different limits for different routes
    limiter.configure_route("/api", rps(10), 10, START);
    limiter.configure_route("/admin", rps(5), 5, START);

    // Drain /api
    for _ in 0..10 {
        limiter.check_rate_limit("/api", START);
    }

    // /api should be rate limited
    assert!(
        !limiter.check_rate_limit("/api", START),
        "/api should be rate limited"
    );

    // /admin should still be available
    assert!(
        limiter.check_rate_limit("/admin", START),
        "/admin should still be available"
    );
}

#[test]
fn test_rate_limiter_no_config_allows_all() {
    let mut limiter = RateLimiter::new();

    // No rate limit configured - should allow all
    for _ in 0..1000 {
        assert!(
            limiter.check_rate_limit("/unconfigured", START),
            "Unconfigured routes should allow all requests"
        );
    }
}

#[test]
fn test_rate_limiter_remove_route() {
    let mut limiter = RateLimiter::new();

    // Configure and drain
    limiter.configure_route("/api", rps(10), 10, START);
    for _ in 0..10 {
        limiter.check_rate_limit("/api", START);
    }

    // Should be rate limited
    assert!(!limiter.check_rate_limit("/api", START));

    // Remove configuration
    limiter.remove_route("/api");

    // Should now allow (no config = allow all)
    assert!(
        limiter.check_rate_limit("/api", START),
        "Should allow after removing rate limit config"
    );
}

#[test]
fn test_token_bucket_available_tokens() {
    let mut bucket = TokenBucket::new(rps(10), 20, START);
    let shown = |units: u128| units as f64 / TOKEN as f64;

    // Full bucket
    assert!(
        (shown(bucket.available_tokens(START)) - 20.0).abs() < 0.01,
        "Should start with 20 tokens"
    );

    // Acquire 5
    bucket.try_acquire_n(tokens(5), START);
    assert!(
        (shown(bucket.available_tokens(START)) - 15.0).abs() < 0.01,
        "Should have 15 tokens after acquiring 5"
    );

    // Acquire 10 more
    bucket.try_acquire_n(tokens(10), START);
    assert!(
        (shown(bucket.available_tokens(START)) - 5.0).abs() < 0.01,
        "Should have 5 tokens after acquiring 15 total"
    );
}

#[test]
fn a_bucket_never_holds_more_than_its_burst() {
    let mut bucket = TokenBucket::new(rps(1000), 3, START);
    bucket.try_acquire(START);
    assert_eq!(bucket.available_tokens(START + 3600 * SECOND), 3 * TOKEN);
}

#[test]
fn a_slow_rate_adds_fractions_of_a_token() {
    // a token every two seconds
    let mut bucket = TokenBucket::new(TOKEN_PER_SECOND / 2, 1, START);
    assert!(bucket.try_acquire(START));
    assert!(!bucket.try_acquire(START + SECOND));
    assert_eq!(bucket.available_tokens(START + SECOND), TOKEN / 2);
    assert!(bucket.try_acquire(START + 2 * SECOND));
}

#[test]
fn time_that_runs_backwards_adds_nothing() {
    let mut bucket = TokenBucket::new(rps(10), 1, START);
    assert!(bucket.try_acquire(START));
    assert!(!bucket.try_acquire(START - SECOND));
}

#[test]
fn reset_fills_a_bucket() {
    let mut bucket = TokenBucket::new(rps(1), 2, START);
    bucket.try_acquire(START);
    bucket.try_acquire(START);
    bucket.reset(START);
    assert_eq!(bucket.available_tokens(START), 2 * TOKEN);
}

#[test]
fn only_limited_routes_have_tokens() {
    let mut limiter = RateLimiter::default();
    assert_eq!(limiter.available_tokens("/api", START), None);
    limiter.configure_route("/api", rps(1), 4, START);
    assert!(limiter.check_rate_limit("/api", START));
    assert_eq!(limiter.available_tokens("/api", START), Some(3 * TOKEN));
}

#[test]
fn results_have_labels() {
    assert_eq!(result_label(true), "allowed");
    assert_eq!(result_label(false), "rejected");
}
