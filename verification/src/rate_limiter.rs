//! Rate limiting by token buckets, one per route.
//!
//! Tokens are counted exactly, in billionths of billionths: a bucket that gains one billionth of a
//! token per second gains one unit per nanosecond.

use vstd::prelude::*;
use vstd::string::*;
use crate::table::Table;
use crate::time::{elapsed, time_since};

verus! {

/// The units of one token.
pub const TOKEN: u128 = 1_000_000_000_000_000_000;

/// The refill rate of one token per second.
pub const TOKEN_PER_SECOND: u64 = 1_000_000_000;

/// The units of a billionth of a token.
pub const NANOTOKEN: u128 = 1_000_000_000;

/// What a bucket knows; levels are in units.
pub ghost struct BucketView {
    pub capacity: nat,
    pub tokens: nat,
    /// Units gained per nanosecond
    pub rate: nat,
    pub last_refill: u64,
}

impl BucketView {
    /// A full bucket.
    pub open spec fn full(rate: u64, burst: u64, now: u64) -> BucketView {
        BucketView {
            capacity: burst as nat * TOKEN as nat,
            tokens: burst as nat * TOKEN as nat,
            rate: rate as nat,
            last_refill: now,
        }
    }

    /// A bucket never holds more than its capacity.
    pub open spec fn valid(self) -> bool {
        self.tokens <= self.capacity
    }

    /// The bucket at an instant: it gains what its rate gives for the time since the last gain, up
    /// to its capacity.
    pub open spec fn refilled(self, now: u64) -> BucketView {
        let gain = elapsed(self.last_refill, now) * self.rate;
        if gain > 0 {
            BucketView {
                tokens: if self.tokens + gain < self.capacity {
                    self.tokens + gain
                } else {
                    self.capacity
                },
                last_refill: now,
                ..self
            }
        } else {
            self
        }
    }

    /// Whether a bucket gives out an amount, in units. Nothing is always given.
    pub open spec fn grants(self, amount: nat, now: u64) -> bool {
        amount == 0 || self.refilled(now).tokens >= amount
    }

    /// The bucket after it was asked for an amount, in units.
    pub open spec fn asked(self, amount: nat, now: u64) -> BucketView {
        if amount == 0 {
            self
        } else if self.refilled(now).tokens >= amount {
            BucketView {
                tokens: (self.refilled(now).tokens - amount) as nat,
                ..self.refilled(now)
            }
        } else {
            self.refilled(now)
        }
    }
}

/// A token bucket.
#[derive(Debug)]
pub struct TokenBucket {
    capacity: u128,
    tokens: u128,
    refill_rate: u64,
    last_refill: u64,
}

impl View for TokenBucket {
    type V = BucketView;

    closed spec fn view(&self) -> BucketView {
        BucketView {
            capacity: self.capacity as nat,
            tokens: self.tokens as nat,
            rate: self.refill_rate as nat,
            last_refill: self.last_refill,
        }
    }
}

impl TokenBucket {
    /// A full bucket that holds `burst` tokens and gains `rate` billionths of a token per second.
    pub fn new(rate: u64, burst: u64, now: u64) -> (r: Self)
        ensures
            r@ == BucketView::full(rate, burst, now),
            r@.valid(),
    {
        assert(burst as nat * TOKEN as nat <= u128::MAX) by (nonlinear_arith)
            requires
                burst <= u64::MAX,
        ;
        let capacity: u128 = burst as u128 * TOKEN;
        TokenBucket { capacity, tokens: capacity, refill_rate: rate, last_refill: now }
    }

    /// Takes one token, if there is one.
    pub fn try_acquire(&mut self, now: u64) -> (r: bool)
        requires
            old(self)@.valid(),
        ensures
            r == old(self)@.grants(TOKEN as nat, now),
            final(self)@ == old(self)@.asked(TOKEN as nat, now),
            final(self)@.valid(),
    {
        self.try_acquire_n(1_000_000_000, now)
    }

    /// Takes `n` billionths of a token, if there are so many.
    pub fn try_acquire_n(&mut self, n: u64, now: u64) -> (r: bool)
        requires
            old(self)@.valid(),
        ensures
            r == old(self)@.grants(n as nat * NANOTOKEN as nat, now),
            final(self)@ == old(self)@.asked(n as nat * NANOTOKEN as nat, now),
            final(self)@.valid(),
    {
        if n == 0 {
            return true;
        }
        assert(0 < n as nat * NANOTOKEN as nat <= u128::MAX) by (nonlinear_arith)
            requires
                0 < n <= u64::MAX,
        ;
        let amount: u128 = n as u128 * NANOTOKEN;
        self.refill(now);
        if self.tokens >= amount {
            self.tokens = self.tokens - amount;
            true
        } else {
            false
        }
    }

    /// Gains what the time since the last gain gives.
    fn refill(&mut self, now: u64)
        requires
            old(self)@.valid(),
        ensures
            final(self)@ == old(self)@.refilled(now),
            final(self)@.valid(),
    {
        let passed = time_since(self.last_refill, now);
        assert(passed as nat * self.refill_rate as nat <= u128::MAX) by (nonlinear_arith)
            requires
                passed <= u64::MAX,
                self.refill_rate <= u64::MAX,
        ;
        let gain: u128 = passed as u128 * self.refill_rate as u128;
        if gain > 0 {
            let room: u128 = self.capacity - self.tokens;
            if gain < room {
                self.tokens = self.tokens + gain;
            } else {
                self.tokens = self.capacity;
            }
            self.last_refill = now;
        }
    }

    /// The level at an instant, in units.
    pub fn available_tokens(&mut self, now: u64) -> (r: u128)
        requires
            old(self)@.valid(),
        ensures
            final(self)@ == old(self)@.refilled(now),
            final(self)@.valid(),
            r == final(self)@.tokens,
    {
        self.refill(now);
        self.tokens
    }

    /// Fills the bucket.
    pub fn reset(&mut self, now: u64)
        ensures
            final(self)@ == (BucketView {
                tokens: old(self)@.capacity,
                last_refill: now,
                ..old(self)@
            }),
            final(self)@.valid(),
    {
        self.tokens = self.capacity;
        self.last_refill = now;
    }
}

/// The buckets of all routes that are limited.
pub struct RateLimiter {
    buckets: Table<String, TokenBucket>,
}

impl RateLimiter {
    /// The buckets, by route.
    pub closed spec fn buckets(&self) -> Map<Seq<char>, TokenBucket> {
        self.buckets.map()
    }

    /// No bucket holds more than its capacity.
    pub closed spec fn wf(&self) -> bool {
        &&& self.buckets.wf()
        &&& forall|k: Seq<char>| #[trigger]
            self.buckets().contains_key(k) ==> self.buckets()[k]@.valid()
    }

    /// Whether one limiter differs from another in the bucket of one route only, which is as
    /// given.
    pub open spec fn changed_to(
        pre: RateLimiter,
        post: RateLimiter,
        route: Seq<char>,
        bucket: BucketView,
    ) -> bool {
        &&& post.wf()
        &&& post.buckets().dom() == pre.buckets().dom().insert(route)
        &&& post.buckets()[route]@ == bucket
        &&& forall|k: Seq<char>|
            k != route && pre.buckets().contains_key(k) ==> (#[trigger] post.buckets()[k])
                == pre.buckets()[k]
    }

    /// Whether a check of a route at an instant gave this result and left the limiter like this.
    pub open spec fn checked(
        pre: RateLimiter,
        post: RateLimiter,
        route: Seq<char>,
        now: u64,
        r: bool,
    ) -> bool {
        &&& post.wf()
        &&& r == pre.permits(route, now)
        &&& if pre.buckets().contains_key(route) {
            Self::changed_to(pre, post, route, pre.buckets()[route]@.asked(TOKEN as nat, now))
        } else {
            post == pre
        }
    }

    /// Whether a request on a route is within its limit at an instant.
    pub open spec fn permits(&self, route: Seq<char>, now: u64) -> bool {
        self.buckets().contains_key(route) ==> self.buckets()[route]@.grants(TOKEN as nat, now)
    }

    /// No route is limited.
    pub fn new() -> (r: Self)
        ensures
            r.wf(),
            r.buckets() == Map::<Seq<char>, TokenBucket>::empty(),
    {
        RateLimiter { buckets: Table::new() }
    }

    /// Limits a route from now on: `rate` billionths of a request per second, `burst` requests at
    /// once. An earlier limit is replaced.
    pub fn configure_route(&mut self, route: &str, rate: u64, burst: u64, now: u64)
        requires
            old(self).wf(),
        ensures
            Self::changed_to(
                *old(self),
                *final(self),
                route@,
                BucketView::full(rate, burst, now),
            ),
    {
        self.buckets.insert(route, TokenBucket::new(rate, burst, now));
        assert(self.buckets().dom() =~= old(self).buckets().dom().insert(route@));
        assert forall|k: Seq<char>| #[trigger] self.buckets().contains_key(k) implies (
        self.buckets()[k])@.valid() by {
            if k != route@ {
                assert(old(self).buckets().contains_key(k));
            }
        }
    }

    /// Whether a request on a route is within its limit. A route without limit takes every
    /// request.
    pub fn check_rate_limit(&mut self, route: &str, now: u64) -> (r: bool)
        requires
            old(self).wf(),
        ensures
            Self::checked(*old(self), *final(self), route@, now, r),
    {
        match self.buckets.find(route) {
            Some(i) => {
                assert(self.buckets().contains_key(route@));
                let mut bucket = self.buckets.replace_at(i, TokenBucket::new(0, 0, 0));
                let r = bucket.try_acquire(now);
                let _placeholder = self.buckets.replace_at(i, bucket);
                proof {
                    Self::lemma_replaced(*old(self), *self, route@);
                }
                r
            },
            None => true,
        }
    }

    proof fn lemma_replaced(pre: Self, post: Self, route: Seq<char>)
        requires
            pre.wf(),
            pre.buckets().contains_key(route),
            post.buckets.wf(),
            post.buckets()[route]@.valid(),
            exists|x: TokenBucket, y: TokenBucket|
                post.buckets() == (#[trigger] pre.buckets().insert(route, x).insert(route, y)),
        ensures
            Self::changed_to(pre, post, route, post.buckets()[route]@),
    {
        assert(post.buckets().dom() =~= pre.buckets().dom().insert(route));
        assert forall|k: Seq<char>| #[trigger] post.buckets().contains_key(k) implies (
        post.buckets()[k])@.valid() by {
            if k != route {
                assert(pre.buckets().contains_key(k));
            }
        }
    }

    /// Takes the limit off a route.
    pub fn remove_route(&mut self, route: &str)
        requires
            old(self).wf(),
        ensures
            final(self).wf(),
            final(self).buckets() == old(self).buckets().remove(route@),
    {
        let _had = self.buckets.remove(route);
        assert forall|k: Seq<char>| #[trigger] self.buckets().contains_key(k) implies (
        self.buckets()[k])@.valid() by {
            assert(old(self).buckets().contains_key(k));
        }
    }

    /// The level of a route's bucket at an instant, in units, where the route is limited.
    pub fn available_tokens(&mut self, route: &str, now: u64) -> (r: Option<u128>)
        requires
            old(self).wf(),
        ensures
            if old(self).buckets().contains_key(route@) {
                let bucket = old(self).buckets()[route@]@.refilled(now);
                r is Some && r->0 == bucket.tokens && Self::changed_to(
                    *old(self),
                    *final(self),
                    route@,
                    bucket,
                )
            } else {
                r is None && *final(self) == *old(self)
            },
            final(self).wf(),
    {
        match self.buckets.find(route) {
            Some(i) => {
                assert(self.buckets().contains_key(route@));
                let mut bucket = self.buckets.replace_at(i, TokenBucket::new(0, 0, 0));
                let r = bucket.available_tokens(now);
                let _placeholder = self.buckets.replace_at(i, bucket);
                proof {
                    Self::lemma_replaced(*old(self), *self, route@);
                }
                Some(r)
            },
            None => None,
        }
    }
}

impl Default for RateLimiter {
    fn default() -> (r: Self)
        ensures
            r.wf(),
            r.buckets() == Map::<Seq<char>, TokenBucket>::empty(),
    {
        RateLimiter::new()
    }
}

/// The label of a decision, as metrics show it.
pub fn result_label(allowed: bool) -> (r: &'static str)
    ensures
        r@ == if allowed {
            "allowed"@
        } else {
            "rejected"@
        },
{
    if allowed {
        "allowed"
    } else {
        "rejected"
    }
}

/// A bucket after it was asked for amounts at instants, one after the other, and the total that it
/// gave out.
pub open spec fn after_asking(b: BucketView, asks: Seq<(nat, u64)>) -> (BucketView, nat)
    decreases asks.len(),
{
    if asks.len() == 0 {
        (b, 0)
    } else {
        let (before, given) = after_asking(b, asks.drop_last());
        let (amount, now) = asks.last();
        (
            before.asked(amount, now),
            given + if before.grants(amount, now) {
                amount
            } else {
                0
            },
        )
    }
}

/// Whether the instants of a sequence of asks do not run backwards, from a first instant on.
pub open spec fn in_order(asks: Seq<(nat, u64)>, start: u64) -> bool {
    &&& forall|i: int| 0 <= i < asks.len() ==> start <= (#[trigger] asks[i]).1
    &&& forall|i: int, j: int|
        0 <= i < j < asks.len() ==> (#[trigger] asks[i]).1 <= (#[trigger] asks[j]).1
}

/// Over any stretch of time a bucket gives out no more than it held at the start and its rate
/// gives for the time since.
pub proof fn lemma_never_exceeds_rate(b: BucketView, asks: Seq<(nat, u64)>, end: u64)
    requires
        b.valid(),
        in_order(asks, b.last_refill),
        b.last_refill <= end,
        asks.len() > 0 ==> asks.last().1 <= end,
    ensures
        ({
            let (after, given) = after_asking(b, asks);
            &&& after.valid()
            &&& after.rate == b.rate
            &&& after.capacity == b.capacity
            &&& b.last_refill <= after.last_refill <= end
            &&& given + after.tokens <= b.tokens + (after.last_refill - b.last_refill) * b.rate
            &&& given <= b.capacity + (end - b.last_refill) * b.rate
        }),
    decreases asks.len(),
{
    if asks.len() > 0 {
        let rest = asks.drop_last();
        let (amount, now) = asks.last();
        assert(in_order(rest, b.last_refill)) by {
            assert forall|i: int| 0 <= i < rest.len() implies b.last_refill <= (
            #[trigger] rest[i]).1 by {
                assert(rest[i] == asks[i]);
            }
            assert forall|i: int, j: int| 0 <= i < j < rest.len() implies (#[trigger] rest[i]).1
                <= (#[trigger] rest[j]).1 by {
                assert(rest[i] == asks[i] && rest[j] == asks[j]);
            }
        }
        if rest.len() > 0 {
            assert(asks[asks.len() - 2].1 <= asks[asks.len() - 1].1);
        }
        assert(asks[asks.len() - 1].1 >= b.last_refill);
        lemma_never_exceeds_rate(b, rest, now);
        let (before, given) = after_asking(b, rest);
        let mid = before.refilled(now);
        let r = b.rate as int;
        let x = (before.last_refill - b.last_refill) as int;
        let y = (now - before.last_refill) as int;
        assert((x + y) * r == x * r + y * r) by (nonlinear_arith);
        assert(mid.tokens <= before.tokens + y * r);
        assert(before.tokens + given <= b.tokens + x * r);
        assert(x * r >= 0 && y * r >= 0) by (nonlinear_arith)
            requires
                x >= 0,
                y >= 0,
                r >= 0,
        ;
        assert(elapsed(before.last_refill, now) == y);
        assert(mid.tokens + given <= b.tokens + (mid.last_refill - b.last_refill) * r);
    }
    let (after, given) = after_asking(b, asks);
    let p = (after.last_refill - b.last_refill) as int;
    let q = (end - b.last_refill) as int;
    assert(p * b.rate <= q * b.rate) by (nonlinear_arith)
        requires
            0 <= p <= q,
            b.rate >= 0,
    ;
}

/// A full bucket gives out its burst at once, one token at a time, and not one more.
pub proof fn lemma_burst(rate: u64, burst: u64, now: u64, n: nat)
    requires
        n <= burst,
    ensures
        ({
            let asks = Seq::new(n, |i: int| (TOKEN as nat, now));
            let (after, given) = after_asking(BucketView::full(rate, burst, now), asks);
            &&& given == n * TOKEN
            &&& after.tokens == (burst - n) * TOKEN
            &&& after.last_refill == now
            &&& after.grants(TOKEN as nat, now) <==> n < burst
        }),
    decreases n,
{
    let asks = Seq::new(n, |i: int| (TOKEN as nat, now));
    let b = BucketView::full(rate, burst, now);
    if n > 0 {
        lemma_burst(rate, burst, now, (n - 1) as nat);
        assert(asks.drop_last() =~= Seq::new((n - 1) as nat, |i: int| (TOKEN as nat, now)));
        let (before, given) = after_asking(b, asks.drop_last());
        assert(elapsed(now, now) * before.rate == 0) by (nonlinear_arith)
            requires
                elapsed(now, now) == 0,
        ;
    }
    let (after, given) = after_asking(b, asks);
    assert(elapsed(now, now) * after.rate == 0) by (nonlinear_arith)
        requires
            elapsed(now, now) == 0,
    ;
}

/// The level of a bucket is exactly what it held and what its rate gives for the time since, however
/// long that is, up to its capacity. No time is lost and none counts twice: to look at the level in
/// between does not change what it is later.
pub proof fn lemma_level_follows_time(b: BucketView, between: u64, now: u64)
    requires
        b.valid(),
        b.last_refill <= between <= now,
    ensures
        ({
            let earned = b.tokens + (now - b.last_refill) * b.rate;
            &&& earned <= b.capacity ==> b.refilled(now).tokens == earned
            &&& earned >= b.capacity ==> b.refilled(now).tokens == b.capacity
            &&& b.refilled(now).capacity == b.capacity
            &&& b.refilled(now).rate == b.rate
            &&& b.refilled(between).refilled(now).tokens == b.refilled(now).tokens
            &&& b.refilled(b.last_refill) == b
        }),
{
    let r = b.rate as int;
    let x = (between - b.last_refill) as int;
    let y = (now - between) as int;
    assert((x + y) * r == x * r + y * r) by (nonlinear_arith);
    assert(x * r >= 0 && y * r >= 0) by (nonlinear_arith)
        requires
            x >= 0,
            y >= 0,
            r >= 0,
    ;
    assert(x * r == 0 || x * r > 0);
    assert(0 * r == 0) by (nonlinear_arith);
    let mid = b.refilled(between);
    if x * r == 0 {
        assert(mid == b);
    } else {
        assert(mid.last_refill == between);
    }
}

/// A clock that runs backwards gives nothing and takes nothing.
pub proof fn lemma_backward_clock_changes_nothing(b: BucketView, now: u64)
    requires
        now <= b.last_refill,
    ensures
        b.refilled(now) == b,
{
    assert(elapsed(b.last_refill, now) * b.rate == 0) by (nonlinear_arith)
        requires
            elapsed(b.last_refill, now) == 0,
    ;
}

/// A bucket gives out an amount exactly if its level reaches it; the level goes down by what is
/// given, and a refusal takes nothing.
pub proof fn lemma_given_exactly_if_there(b: BucketView, amount: nat, now: u64)
    requires
        b.valid(),
        b.last_refill <= now,
    ensures
        ({
            let earned = b.tokens + (now - b.last_refill) * b.rate;
            let level = if earned < b.capacity {
                earned
            } else {
                b.capacity as int
            };
            let after = b.asked(amount, now);
            &&& amount > 0 ==> (b.grants(amount, now) <==> level >= amount)
            &&& amount == 0 ==> b.grants(amount, now)
            &&& after.refilled(now).tokens == level - if amount <= level {
                amount as int
            } else {
                0
            }
            &&& after.capacity == b.capacity
            &&& after.rate == b.rate
            &&& after.last_refill <= now
        }),
{
    lemma_level_follows_time(b, now, now);
    lemma_level_follows_time(b, b.last_refill, now);
    let after = b.asked(amount, now);
    if amount > 0 {
        let gain = elapsed(b.last_refill, now) * b.rate;
        if gain > 0 {
            assert(after.last_refill == now);
            lemma_backward_clock_changes_nothing(after, now);
        } else {
            assert(after.last_refill == b.last_refill);
            assert(elapsed(after.last_refill, now) * after.rate == gain);
        }
    }
}

/// Asked for single tokens at one instant, a bucket gives out every whole token that it holds, and
/// not one more.
pub proof fn lemma_whole_level_is_given(b: BucketView, now: u64, n: nat)
    requires
        b.valid(),
        b.last_refill <= now,
    ensures
        ({
            let earned = b.tokens + (now - b.last_refill) * b.rate;
            let level = if earned < b.capacity {
                earned
            } else {
                b.capacity as int
            };
            let asks = Seq::new(n, |i: int| (1_000_000_000_000_000_000nat, now));
            let (after, given) = after_asking(b, asks);
            &&& n * 1_000_000_000_000_000_000 <= level ==> given == n * 1_000_000_000_000_000_000
            &&& n * 1_000_000_000_000_000_000 > level ==> given <= level < given
                + 1_000_000_000_000_000_000
            &&& after.refilled(now).tokens == level - given
            &&& after.valid()
            &&& after.last_refill <= now
        }),
    decreases n,
{
    let one = 1_000_000_000_000_000_000nat;
    let asks = Seq::new(n, |i: int| (one, now));
    lemma_level_follows_time(b, now, now);
    if n > 0 {
        let rest = Seq::new((n - 1) as nat, |i: int| (one, now));
        lemma_whole_level_is_given(b, now, (n - 1) as nat);
        assert(asks.drop_last() =~= rest);
        assert(asks.last() == (one, now));
        let (before, given) = after_asking(b, rest);
        lemma_level_follows_time(before, now, now);
        lemma_given_exactly_if_there(before, one, now);
    }
}

/// A bucket that was left alone for as long as its rate takes to fill it is full, however empty it
/// was, and gives out its whole burst again.
pub proof fn lemma_idle_bucket_is_full(b: BucketView, now: u64, burst: nat)
    requires
        b.valid(),
        b.last_refill <= now,
        b.capacity == burst * 1_000_000_000_000_000_000,
        (now - b.last_refill) * b.rate >= b.capacity,
    ensures
        b.refilled(now).tokens == b.capacity,
        ({
            let asks = Seq::new(burst, |i: int| (1_000_000_000_000_000_000nat, now));
            after_asking(b, asks).1 == b.capacity
        }),
{
    lemma_level_follows_time(b, now, now);
    lemma_whole_level_is_given(b, now, burst);
}

/// A route that is limited to so many requests per second earns so many requests in every second:
/// from an empty bucket, `seconds` later there are `per_second * seconds` of them, up to the burst.
/// A new bucket is full.
pub proof fn lemma_rate_is_per_second(
    per_second: u64,
    burst: u64,
    start: u64,
    seconds: u64,
    b: BucketView,
)
    requires
        per_second * 1_000_000_000 <= u64::MAX,
        start + seconds * 1_000_000_000 <= u64::MAX,
        b == (BucketView {
            tokens: 0,
            ..BucketView::full((per_second * 1_000_000_000) as u64, burst, start)
        }),
    ensures
        ({
            let now = (start + seconds * 1_000_000_000) as u64;
            let earned = per_second * seconds;
            &&& earned <= burst ==> b.refilled(now).tokens == earned * 1_000_000_000_000_000_000
            &&& earned >= burst ==> b.refilled(now).tokens == burst * 1_000_000_000_000_000_000
            &&& b.capacity == burst * 1_000_000_000_000_000_000
            &&& BucketView::full((per_second * 1_000_000_000) as u64, burst, start).tokens == burst
                * 1_000_000_000_000_000_000
            &&& b.last_refill == start
        }),
{
    let now = (start + seconds * 1_000_000_000) as u64;
    lemma_level_follows_time(b, now, now);
    let p = per_second as int;
    let t = seconds as int;
    assert((t * 1_000_000_000) * (p * 1_000_000_000) == (p * t) * 1_000_000_000_000_000_000)
        by (nonlinear_arith);
    assert(now - b.last_refill == t * 1_000_000_000);
    assert(b.rate == p * 1_000_000_000);
    let e = p * t;
    let q = burst as int;
    assert(e <= q ==> e * 1_000_000_000_000_000_000 <= q * 1_000_000_000_000_000_000)
        by (nonlinear_arith);
    assert(e >= q ==> e * 1_000_000_000_000_000_000 >= q * 1_000_000_000_000_000_000)
        by (nonlinear_arith);
}

/// A request is within the limit of its route exactly if the route has no limit or its bucket holds
/// a whole token by now.
pub proof fn lemma_permitted_by_level(limiter: RateLimiter, route: Seq<char>, now: u64)
    requires
        limiter.wf(),
        limiter.buckets().contains_key(route) ==> limiter.buckets()[route]@.last_refill <= now,
    ensures
        !limiter.buckets().contains_key(route) ==> limiter.permits(route, now),
        limiter.buckets().contains_key(route) ==> {
            let b = limiter.buckets()[route]@;
            limiter.permits(route, now) <==> {
                &&& b.tokens + (now - b.last_refill) * b.rate >= 1_000_000_000_000_000_000
                &&& b.capacity >= 1_000_000_000_000_000_000
            }
        },
{
    if limiter.buckets().contains_key(route) {
        let b = limiter.buckets()[route]@;
        assert(b.valid());
        lemma_given_exactly_if_there(b, TOKEN as nat, now);
    }
}

/// What happens on one route does not change another route's bucket.
pub proof fn lemma_routes_are_isolated(
    pre: RateLimiter,
    post: RateLimiter,
    route: Seq<char>,
    bucket: BucketView,
    other: Seq<char>,
)
    requires
        RateLimiter::changed_to(pre, post, route, bucket),
        other != route,
    ensures
        post.buckets().contains_key(other) == pre.buckets().contains_key(other),
        pre.buckets().contains_key(other) ==> post.buckets()[other] == pre.buckets()[other],
{
    assert(post.buckets().dom().contains(other) == pre.buckets().dom().contains(other));
}

/// A check takes a whole token exactly if it permits the request, from the bucket of the route alone,
/// after the time since the last one was made good. A route without limit is never touched.
pub proof fn lemma_check_takes_one_token(
    pre: RateLimiter,
    post: RateLimiter,
    route: Seq<char>,
    now: u64,
    r: bool,
    other: Seq<char>,
)
    requires
        pre.wf(),
        RateLimiter::checked(pre, post, route, now, r),
        pre.buckets().contains_key(route) ==> pre.buckets()[route]@.last_refill <= now,
    ensures
        !pre.buckets().contains_key(route) ==> r && post == pre,
        pre.buckets().contains_key(route) ==> {
            let before = pre.buckets()[route]@;
            let after = post.buckets()[route]@;
            let made = before.tokens + (now - before.last_refill) * before.rate;
            let level = if made < before.capacity {
                made
            } else {
                before.capacity as int
            };
            &&& post.buckets().contains_key(route)
            &&& r <==> level >= 1_000_000_000_000_000_000
            &&& after.tokens == if r {
                level - 1_000_000_000_000_000_000
            } else {
                level
            }
            &&& made > before.tokens ==> after.last_refill == now
            &&& made == before.tokens ==> after.last_refill == before.last_refill
            &&& after.capacity == before.capacity
            &&& after.rate == before.rate
        },
        other != route ==> {
            &&& post.buckets().contains_key(other) == pre.buckets().contains_key(other)
            &&& pre.buckets().contains_key(other) ==> post.buckets()[other]
                == pre.buckets()[other]
        },
{
    if pre.buckets().contains_key(route) {
        let b = pre.buckets()[route]@;
        assert(b.valid());
        lemma_level_follows_time(b, now, now);
        lemma_given_exactly_if_there(b, TOKEN as nat, now);
        assert(elapsed(b.last_refill, now) == now - b.last_refill);
        assert(post.buckets().dom().contains(route));
        if other != route {
            lemma_routes_are_isolated(pre, post, route, b.asked(TOKEN as nat, now), other);
        }
    }
}

} // verus!
