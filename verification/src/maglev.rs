//! Weighted Maglev consistent hashing.
//!
//! Every backend walks its own pseudo-random permutation of the table and claims, round by round,
//! the first slot that is still free, until it holds its share of the table. A lookup is one
//! table access.

use vstd::prelude::*;
use vstd::arithmetic::div_mod::*;
use crate::address::Address;
use crate::backend::{address_of, Backend};
use crate::hash::{fnv1a, fnv1a_hash};

verus! {

/// The number of slots of a table, a prime.
pub const COMPACT_MAGLEV_SIZE: usize = 4099;

/// The most backends that a table tells apart: an entry is one byte.
pub const COMPACT_MAGLEV_BACKENDS: usize = 256;

/// The number of backends that the table of a backend list tells apart.
pub open spec fn table_backends(backends: Seq<Backend>) -> nat {
    if backends.len() < COMPACT_MAGLEV_BACKENDS {
        backends.len()
    } else {
        COMPACT_MAGLEV_BACKENDS as nat
    }
}

/// The sum of the weights of the first `k` backends.
pub open spec fn weight_sum(backends: Seq<Backend>, k: nat) -> nat
    decreases k,
{
    if k == 0 {
        0
    } else {
        weight_sum(backends, (k - 1) as nat) + backends[k - 1].weight as nat
    }
}

/// What the first `k` backends weigh together; where no backend has a weight, all weigh the same.
pub open spec fn share_sum(backends: Seq<Backend>, k: nat) -> nat {
    if weight_sum(backends, table_backends(backends)) == 0 {
        k
    } else {
        weight_sum(backends, k)
    }
}

/// The number of slots that the first `k` backends hold together.
pub open spec fn slots_upto(backends: Seq<Backend>, k: nat) -> nat {
    (COMPACT_MAGLEV_SIZE as nat * share_sum(backends, k)) / share_sum(
        backends,
        table_backends(backends),
    )
}

/// The number of slots that backend `i` holds: its weight's share of the table, rounded so that
/// the shares of all backends add up to the table.
pub open spec fn slot_share(backends: Seq<Backend>, i: nat) -> int {
    slots_upto(backends, i + 1) - slots_upto(backends, i)
}

/// The last `n` bytes of a number, the highest first.
pub open spec fn number_bytes(v: nat, n: nat) -> Seq<u8>
    decreases n,
{
    if n == 0 {
        Seq::empty()
    } else {
        number_bytes(v / 256, (n - 1) as nat).push((v % 256) as u8)
    }
}

/// The bytes that identify a backend in a table: address and port.
pub open spec fn backend_bytes(b: Backend) -> Seq<u8> {
    let address = match address_of(b) {
        Address::V4(ip) => number_bytes(ip as nat, 4),
        Address::V6(ip) => number_bytes(ip as nat, 16),
        Address::Unknown => Seq::empty(),
    };
    address + number_bytes(b.port as nat, 2)
}

/// Where a backend's permutation starts.
pub open spec fn offset(b: Backend) -> nat {
    fnv1a(backend_bytes(b)) as nat % COMPACT_MAGLEV_SIZE as nat
}

/// The stride of a backend's permutation.
pub open spec fn skip(b: Backend) -> nat {
    fnv1a(backend_bytes(b).push(1u8)) as nat % (COMPACT_MAGLEV_SIZE - 1) as nat + 1
}

/// The slot at position `j` of a backend's permutation.
pub open spec fn preference(b: Backend, j: nat) -> int {
    (offset(b) + j * skip(b)) as int % COMPACT_MAGLEV_SIZE as int
}

/// Whether position `j` of a backend's permutation is its first free slot.
pub open spec fn is_first_free(slots: Seq<Option<u8>>, b: Backend, j: nat) -> bool {
    &&& slots[preference(b, j)] is None
    &&& forall|i: nat| i < j ==> slots[#[trigger] preference(b, i)] is Some
}

/// The slot that a backend claims next.
pub open spec fn next_slot(slots: Seq<Option<u8>>, b: Backend) -> int {
    preference(b, choose|j: nat| is_first_free(slots, b, j))
}

/// The slots after the rounds from `round` on, where backend `i` is the next to move.
///
/// In each round every backend that holds fewer slots than its share claims one.
pub open spec fn fill(
    backends: Seq<Backend>,
    slots: Seq<Option<u8>>,
    round: nat,
    i: nat,
) -> Seq<Option<u8>>
    decreases COMPACT_MAGLEV_SIZE - round, table_backends(backends) - i,
{
    if round >= COMPACT_MAGLEV_SIZE {
        slots
    } else if i >= table_backends(backends) {
        fill(backends, slots, round + 1, 0)
    } else if slot_share(backends, i) > round {
        fill(
            backends,
            slots.update(next_slot(slots, backends[i as int]), Some(i as u8)),
            round,
            i + 1,
        )
    } else {
        fill(backends, slots, round, i + 1)
    }
}

/// The slots before the first round.
pub open spec fn free_slots() -> Seq<Option<u8>> {
    Seq::new(COMPACT_MAGLEV_SIZE as nat, |k: int| None::<u8>)
}

/// The Maglev table of a backend list; the empty list has the empty table.
#[verifier::opaque]
pub open spec fn maglev_table(backends: Seq<Backend>) -> Seq<u8> {
    if backends.len() == 0 {
        Seq::empty()
    } else {
        Seq::new(
            COMPACT_MAGLEV_SIZE as nat,
            |k: int| fill(backends, free_slots(), 0, 0)[k].unwrap(),
        )
    }
}

/// How often a value occurs in a sequence.
pub open spec fn occurrences<T>(s: Seq<T>, v: T) -> nat
    decreases s.len(),
{
    if s.len() == 0 {
        0
    } else {
        occurrences(s.drop_last(), v) + if s.last() == v {
            1nat
        } else {
            0nat
        }
    }
}

proof fn lemma_occurrences_update<T>(s: Seq<T>, k: int, x: T, v: T)
    requires
        0 <= k < s.len(),
    ensures
        occurrences(s.update(k, x), v) == occurrences(s, v) - (if s[k] == v {
            1int
        } else {
            0int
        }) + (if x == v {
            1int
        } else {
            0int
        }),
    decreases s.len(),
{
    if k == s.len() - 1 {
        assert(s.update(k, x).drop_last() =~= s.drop_last());
    } else {
        assert(s.update(k, x).drop_last() =~= s.drop_last().update(k, x));
        lemma_occurrences_update(s.drop_last(), k, x, v);
    }
}

proof fn lemma_occurrences_positive<T>(s: Seq<T>, v: T)
    ensures
        occurrences(s, v) > 0 <==> exists|k: int| 0 <= k < s.len() && s[k] == v,
        occurrences(s, v) <= s.len(),
    decreases s.len(),
{
    if s.len() > 0 {
        lemma_occurrences_positive(s.drop_last(), v);
        if s.last() == v {
            assert(s[s.len() - 1] == v);
        }
        if occurrences(s.drop_last(), v) > 0 {
            let k = choose|k: int| 0 <= k < s.drop_last().len() && s.drop_last()[k] == v;
            assert(s[k] == v);
        }
        if exists|k: int| 0 <= k < s.len() && s[k] == v {
            let k = choose|k: int| 0 <= k < s.len() && s[k] == v;
            if k < s.len() - 1 {
                assert(s.drop_last()[k] == v);
            }
        }
    }
}

proof fn lemma_occurrences_all<T>(s: Seq<T>, v: T)
    requires
        forall|k: int| 0 <= k < s.len() ==> s[k] == v,
    ensures
        occurrences(s, v) == s.len(),
    decreases s.len(),
{
    if s.len() > 0 {
        lemma_occurrences_all(s.drop_last(), v);
    }
}

/// The greatest common divisor of two numbers as a combination of both: `(g, x, y, p, q)` with
/// `a * x + b * y == g`, `a == g * p` and `b == g * q`.
proof fn lemma_bezout(a: int, b: int) -> (r: (int, int, int, int, int))
    requires
        a >= 0,
        b >= 0,
        a + b > 0,
    ensures
        r.0 > 0,
        a * r.1 + b * r.2 == r.0,
        a == r.0 * r.3,
        b == r.0 * r.4,
    decreases b,
{
    if b == 0 {
        (a, 1, 0, 1, 0)
    } else {
        lemma_fundamental_div_mod(a, b);
        lemma_mod_division_less_than_divisor(a, b);
        let (g, x, y, p, q) = lemma_bezout(b, a % b);
        let d = a / b;
        let m = a % b;
        assert(a * y + b * (x - d * y) == g) by (nonlinear_arith)
            requires
                b * x + m * y == g,
                a == b * d + m,
        ;
        assert(a == g * (p * d + q)) by (nonlinear_arith)
            requires
                b == g * p,
                m == g * q,
                a == b * d + m,
        ;
        (g, y, x - d * y, p * d + q, p)
    }
}

/// No number from 2 to 64 divides the table size.
proof fn lemma_indivisible(d: u32)
    requires
        2 <= d <= 64,
    ensures
        4099u32 % d != 0,
{
    assert(4099u32 % d != 0) by (bit_vector)
        requires
            2 <= d <= 64,
    ;
}

/// The table size is prime.
proof fn lemma_size_prime(g: int, q: int)
    requires
        g * q == COMPACT_MAGLEV_SIZE,
        0 < g < COMPACT_MAGLEV_SIZE,
    ensures
        g == 1,
{
    assert(q > 1) by (nonlinear_arith)
        requires
            g * q == 4099,
            0 < g < 4099,
    ;
    if g != 1 {
        assert(g <= 64 || q <= 64) by (nonlinear_arith)
            requires
                g * q == 4099,
                g > 1,
                q > 1,
        ;
        if g <= 64 {
            lemma_indivisible(g as u32);
            assert((g * q) % g == 0) by {
                lemma_mod_multiples_basic(q, g);
                assert(g * q == q * g) by (nonlinear_arith);
            }
        } else {
            lemma_indivisible(q as u32);
            lemma_mod_multiples_basic(g, q);
        }
    }
}

/// Every slot occurs in every backend's permutation.
proof fn lemma_preference_reaches(b: Backend, f: int) -> (j: nat)
    requires
        0 <= f < COMPACT_MAGLEV_SIZE,
    ensures
        j < COMPACT_MAGLEV_SIZE,
        preference(b, j) == f,
{
    let m = COMPACT_MAGLEV_SIZE as int;
    let s = skip(b) as int;
    let o = offset(b) as int;
    assert(0 < s < m);
    let (g, x, y, p, q) = lemma_bezout(s, m);
    assert(g <= s) by (nonlinear_arith)
        requires
            s == g * p,
            s > 0,
            g > 0,
    ;
    lemma_size_prime(g, q);
    let d = f - o;
    let j = (d * x) % m;
    let k = (d * x) / m;
    lemma_fundamental_div_mod(d * x, m);
    let t = d * y + k * s;
    assert((d * x) * s == d * (s * x)) by (nonlinear_arith);
    assert((m * k + j) * s == m * (k * s) + j * s) by (nonlinear_arith);
    assert(d * (1 - m * y) == d - m * (d * y)) by (nonlinear_arith);
    assert(m * t == m * (d * y) + m * (k * s)) by (nonlinear_arith)
        requires
            t == d * y + k * s,
    ;
    assert(m * (-t) == -(m * t)) by (nonlinear_arith);
    assert(s * x == 1 - m * y);
    assert(o + j * s == m * (-t) + f);
    lemma_mod_multiples_vanish(-t, f, m);
    lemma_small_mod(f as nat, m as nat);
    j as nat
}

/// The first free slot of a permutation is unique.
proof fn lemma_first_free_unique(slots: Seq<Option<u8>>, b: Backend, j: nat)
    requires
        is_first_free(slots, b, j),
    ensures
        next_slot(slots, b) == preference(b, j),
{
    let c = choose|c: nat| is_first_free(slots, b, c);
    assert(is_first_free(slots, b, c));
    if c < j {
        assert(slots[preference(b, c)] is Some);
    }
    if j < c {
        assert(slots[preference(b, j)] is Some);
    }
}

/// From a position on, a permutation has a first free slot when it has a free one.
proof fn lemma_first_free_exists(slots: Seq<Option<u8>>, b: Backend, from: nat, j: nat) -> (r: nat)
    requires
        from <= j,
        slots[preference(b, j)] is None,
        forall|i: nat| i < from ==> slots[#[trigger] preference(b, i)] is Some,
    ensures
        is_first_free(slots, b, r),
        from <= r <= j,
    decreases j - from,
{
    if slots[preference(b, from)] is None {
        from
    } else {
        assert forall|i: nat| i < from + 1 implies slots[#[trigger] preference(b, i)] is Some by {
            if i == from {
            }
        }
        lemma_first_free_exists(slots, b, from + 1, j)
    }
}

/// The sum of a sequence.
spec fn total(s: Seq<int>) -> int
    decreases s.len(),
{
    if s.len() == 0 {
        0
    } else {
        total(s.drop_last()) + s.last()
    }
}

proof fn lemma_total_update(s: Seq<int>, k: int, x: int)
    requires
        0 <= k < s.len(),
    ensures
        total(s.update(k, x)) == total(s) - s[k] + x,
    decreases s.len(),
{
    if k == s.len() - 1 {
        assert(s.update(k, x).drop_last() =~= s.drop_last());
    } else {
        assert(s.update(k, x).drop_last() =~= s.drop_last().update(k, x));
        lemma_total_update(s.drop_last(), k, x);
    }
}

proof fn lemma_total_below(a: Seq<int>, b: Seq<int>)
    requires
        a.len() == b.len(),
        forall|i: int| 0 <= i < a.len() ==> a[i] <= b[i],
    ensures
        total(a) <= total(b),
        (exists|i: int| 0 <= i < a.len() && a[i] < b[i]) ==> total(a) < total(b),
    decreases a.len(),
{
    if a.len() > 0 {
        lemma_total_below(a.drop_last(), b.drop_last());
        if exists|i: int| 0 <= i < a.len() && a[i] < b[i] {
            let i = choose|i: int| 0 <= i < a.len() && a[i] < b[i];
            if i < a.len() - 1 {
                assert(a.drop_last()[i] < b.drop_last()[i]);
            }
        }
    }
}

/// The shares of all backends.
spec fn shares(backends: Seq<Backend>) -> Seq<int> {
    Seq::new(table_backends(backends), |i: int| slot_share(backends, i as nat))
}

proof fn lemma_weight_sum_monotonic(backends: Seq<Backend>, j: nat, k: nat)
    requires
        j <= k,
    ensures
        weight_sum(backends, j) <= weight_sum(backends, k),
        share_sum(backends, j) <= share_sum(backends, k),
    decreases k,
{
    if j < k {
        lemma_weight_sum_monotonic(backends, j, (k - 1) as nat);
    }
}

proof fn lemma_weight_sum_bound(backends: Seq<Backend>, k: nat)
    ensures
        weight_sum(backends, k) <= k * 65535,
    decreases k,
{
    if k > 0 {
        lemma_weight_sum_bound(backends, (k - 1) as nat);
    }
}

proof fn lemma_share_sum_positive(backends: Seq<Backend>)
    requires
        backends.len() > 0,
    ensures
        share_sum(backends, table_backends(backends)) > 0,
{
}

/// Shares are not negative and add up to the table.
proof fn lemma_shares(backends: Seq<Backend>)
    requires
        backends.len() > 0,
    ensures
        total(shares(backends)) == COMPACT_MAGLEV_SIZE,
        forall|i: int|
            0 <= i < table_backends(backends) ==> 0 <= #[trigger] slot_share(backends, i as nat)
                <= COMPACT_MAGLEV_SIZE,
{
    let n = table_backends(backends);
    let w = share_sum(backends, n);
    let m = COMPACT_MAGLEV_SIZE as int;
    lemma_share_sum_positive(backends);
    lemma_shares_upto(backends, n);
    assert(shares(backends).take(n as int) =~= shares(backends));
    assert(slots_upto(backends, n) == m) by {
        lemma_div_multiples_vanish(m, w as int);
        assert(m * w == w * m) by (nonlinear_arith);
    }
    assert forall|i: int| 0 <= i < n implies 0 <= #[trigger] slot_share(backends, i as nat) <= m by {
        lemma_slots_upto_monotonic(backends, i as nat, i as nat + 1);
        lemma_slots_upto_monotonic(backends, i as nat + 1, n);
    }
}

proof fn lemma_slots_upto_monotonic(backends: Seq<Backend>, j: nat, k: nat)
    requires
        backends.len() > 0,
        j <= k,
    ensures
        0 <= slots_upto(backends, j) <= slots_upto(backends, k),
{
    let m = COMPACT_MAGLEV_SIZE as int;
    let w = share_sum(backends, table_backends(backends)) as int;
    lemma_share_sum_positive(backends);
    lemma_weight_sum_monotonic(backends, j, k);
    let a = share_sum(backends, j) as int;
    let b = share_sum(backends, k) as int;
    assert(0 <= m * a <= m * b) by (nonlinear_arith)
        requires
            0 <= a <= b,
            m == 4099,
    ;
    lemma_div_is_ordered(m * a, m * b, w);
    lemma_div_pos_is_pos(m * a, w);
}

proof fn lemma_shares_upto(backends: Seq<Backend>, k: nat)
    requires
        backends.len() > 0,
        k <= table_backends(backends),
    ensures
        total(shares(backends).take(k as int)) == slots_upto(backends, k),
    decreases k,
{
    let s = shares(backends);
    if k == 0 {
        assert(s.take(0).len() == 0);
        lemma_share_sum_positive(backends);
        lemma_div_basics(share_sum(backends, table_backends(backends)) as int);
    } else {
        lemma_shares_upto(backends, (k - 1) as nat);
        assert(s.take(k as int).drop_last() =~= s.take(k - 1));
    }
}

/// How many slots backend `id` holds when backend `i` is the next to move in a round.
spec fn held(backends: Seq<Backend>, round: nat, i: nat, id: int) -> int {
    let turns = round + if id < i {
        1int
    } else {
        0int
    };
    if slot_share(backends, id as nat) < turns {
        slot_share(backends, id as nat)
    } else {
        turns
    }
}

/// The number of slots that each backend holds.
spec fn holdings(backends: Seq<Backend>, round: nat, i: nat) -> Seq<int> {
    Seq::new(table_backends(backends), |id: int| held(backends, round, i, id))
}

/// What holds of the slots at each point of the rounds.
spec fn filled(backends: Seq<Backend>, slots: Seq<Option<u8>>, round: nat, i: nat) -> bool {
    &&& backends.len() > 0
    &&& i <= table_backends(backends)
    &&& slots.len() == COMPACT_MAGLEV_SIZE
    &&& forall|k: int| 0 <= k < slots.len() && (#[trigger] slots[k]) is Some ==> slots[k].unwrap()
        < table_backends(backends)
    &&& forall|id: int|
        0 <= id < table_backends(backends) ==> #[trigger] occurrences(slots, Some(id as u8))
            == held(backends, round, i, id)
    &&& occurrences(slots, None) + total(holdings(backends, round, i)) == COMPACT_MAGLEV_SIZE
}

proof fn lemma_filled_start(backends: Seq<Backend>)
    requires
        backends.len() > 0,
    ensures
        filled(backends, free_slots(), 0, 0),
{
    lemma_occurrences_all(free_slots(), None);
    lemma_shares(backends);
    assert forall|id: int| 0 <= id < table_backends(backends) implies #[trigger] occurrences(
        free_slots(),
        Some(id as u8),
    ) == held(backends, 0, 0, id) by {
        lemma_occurrences_positive(free_slots(), Some(id as u8));
        assert(0 <= slot_share(backends, id as nat));
    }
    lemma_total_zero(holdings(backends, 0, 0), backends);
}

proof fn lemma_total_zero(s: Seq<int>, backends: Seq<Backend>)
    requires
        forall|i: int| 0 <= i < s.len() ==> s[i] == 0,
    ensures
        total(s) == 0,
    decreases s.len(),
{
    if s.len() > 0 {
        lemma_total_zero(s.drop_last(), backends);
    }
}

/// A backend below its share finds a free slot; claiming it keeps the picture.
proof fn lemma_filled_claim(backends: Seq<Backend>, slots: Seq<Option<u8>>, round: nat, i: nat)
    requires
        filled(backends, slots, round, i),
        i < table_backends(backends),
        slot_share(backends, i) > round,
    ensures
        exists|j: nat| is_first_free(slots, backends[i as int], j),
        exists|j: nat|
            j < COMPACT_MAGLEV_SIZE && slots[#[trigger] preference(backends[i as int], j)] is None,
        filled(
            backends,
            slots.update(next_slot(slots, backends[i as int]), Some(i as u8)),
            round,
            i + 1,
        ),
{
    let n = table_backends(backends);
    let b = backends[i as int];
    let before = holdings(backends, round, i);
    let after = holdings(backends, round, i + 1);
    lemma_shares(backends);
    assert(before[i as int] < shares(backends)[i as int]);
    lemma_total_below(before, shares(backends));
    lemma_occurrences_positive(slots, None);
    let f = choose|k: int| 0 <= k < slots.len() && slots[k] == None::<u8>;
    let j = lemma_preference_reaches(b, f);
    let first = lemma_first_free_exists(slots, b, 0, j);
    lemma_first_free_unique(slots, b, first);
    let k = next_slot(slots, b);
    assert(0 <= k < slots.len());
    let next = slots.update(k, Some(i as u8));
    lemma_occurrences_update(slots, k, Some(i as u8), None);
    assert(after =~= before.update(i as int, before[i as int] + 1));
    lemma_total_update(before, i as int, before[i as int] + 1);
    assert forall|id: int| 0 <= id < n implies #[trigger] occurrences(next, Some(id as u8)) == held(
        backends,
        round,
        i + 1,
        id,
    ) by {
        lemma_occurrences_update(slots, k, Some(i as u8), Some(id as u8));
        assert(occurrences(slots, Some(id as u8)) == held(backends, round, i, id));
        assert(id as u8 == i as u8 <==> id == i);
    }
    assert forall|q: int| 0 <= q < next.len() && (#[trigger] next[q]) is Some implies next[q].unwrap()
        < n by {
        if q != k {
            assert(slots[q] is Some);
        }
    }
}

proof fn lemma_filled_pass(backends: Seq<Backend>, slots: Seq<Option<u8>>, round: nat, i: nat)
    requires
        filled(backends, slots, round, i),
        i < table_backends(backends),
        slot_share(backends, i) <= round,
    ensures
        filled(backends, slots, round, i + 1),
{
    assert(holdings(backends, round, i) =~= holdings(backends, round, i + 1));
    assert forall|id: int| 0 <= id < table_backends(backends) implies #[trigger] occurrences(
        slots,
        Some(id as u8),
    ) == held(backends, round, i + 1, id) by {
        assert(occurrences(slots, Some(id as u8)) == held(backends, round, i, id));
    }
}

proof fn lemma_filled_round(backends: Seq<Backend>, slots: Seq<Option<u8>>, round: nat)
    requires
        filled(backends, slots, round, table_backends(backends)),
    ensures
        filled(backends, slots, round + 1, 0),
{
    let n = table_backends(backends);
    assert(holdings(backends, round, n) =~= holdings(backends, round + 1, 0));
    assert forall|id: int| 0 <= id < n implies #[trigger] occurrences(slots, Some(id as u8))
        == held(backends, round + 1, 0, id) by {
        assert(occurrences(slots, Some(id as u8)) == held(backends, round, n, id));
    }
}

/// After the last round no slot is free and every backend holds its share.
proof fn lemma_filled_end(backends: Seq<Backend>, slots: Seq<Option<u8>>)
    requires
        filled(backends, slots, COMPACT_MAGLEV_SIZE as nat, 0),
    ensures
        forall|k: int| 0 <= k < slots.len() ==> (#[trigger] slots[k]) is Some,
        forall|id: int|
            0 <= id < table_backends(backends) ==> #[trigger] occurrences(slots, Some(id as u8))
                == slot_share(backends, id as nat),
{
    let m = COMPACT_MAGLEV_SIZE as nat;
    lemma_shares(backends);
    assert forall|id: int| 0 <= id < table_backends(backends) implies #[trigger] occurrences(
        slots,
        Some(id as u8),
    ) == slot_share(backends, id as nat) by {
        assert(slot_share(backends, id as nat) <= m);
        assert(occurrences(slots, Some(id as u8)) == held(backends, m, 0, id));
    }
    assert(holdings(backends, m, 0) =~= shares(backends)) by {
        assert forall|id: int| 0 <= id < table_backends(backends) implies holdings(
            backends,
            m,
            0,
        )[id] == shares(backends)[id] by {
            assert(slot_share(backends, id as nat) <= m);
        }
    }
    lemma_occurrences_positive(slots, None);
}

proof fn lemma_fill(backends: Seq<Backend>, slots: Seq<Option<u8>>, round: nat, i: nat)
    requires
        filled(backends, slots, round, i),
        round <= COMPACT_MAGLEV_SIZE,
        round == COMPACT_MAGLEV_SIZE ==> i == 0,
    ensures
        filled(backends, fill(backends, slots, round, i), COMPACT_MAGLEV_SIZE as nat, 0),
    decreases COMPACT_MAGLEV_SIZE - round, table_backends(backends) - i,
{
    if round >= COMPACT_MAGLEV_SIZE {
    } else if i >= table_backends(backends) {
        lemma_filled_round(backends, slots, round);
        lemma_fill(backends, slots, round + 1, 0);
    } else if slot_share(backends, i) > round {
        lemma_filled_claim(backends, slots, round, i);
        lemma_fill(
            backends,
            slots.update(next_slot(slots, backends[i as int]), Some(i as u8)),
            round,
            i + 1,
        );
    } else {
        lemma_filled_pass(backends, slots, round, i);
        lemma_fill(backends, slots, round, i + 1);
    }
}

/// Every slot of a non-empty backend list's table names one of its backends, and every backend
/// holds exactly its share of the table.
pub proof fn lemma_table_shares(backends: Seq<Backend>)
    requires
        backends.len() > 0,
    ensures
        maglev_table(backends).len() == COMPACT_MAGLEV_SIZE,
        forall|k: int|
            0 <= k < COMPACT_MAGLEV_SIZE ==> (#[trigger] maglev_table(backends)[k]) < table_backends(
                backends,
            ),
        forall|id: int|
            0 <= id < table_backends(backends) ==> #[trigger] occurrences(
                maglev_table(backends),
                id as u8,
            ) == slot_share(backends, id as nat),
{
    let slots = fill(backends, free_slots(), 0, 0);
    lemma_filled_start(backends);
    lemma_fill(backends, free_slots(), 0, 0);
    lemma_filled_end(backends, slots);
    reveal(maglev_table);
    let table = maglev_table(backends);
    assert forall|k: int| 0 <= k < COMPACT_MAGLEV_SIZE implies (#[trigger] table[k])
        < table_backends(backends) by {
        assert(slots[k] is Some);
    }
    assert forall|id: int| 0 <= id < table_backends(backends) implies #[trigger] occurrences(
        table,
        id as u8,
    ) == slot_share(backends, id as nat) by {
        assert(occurrences(slots, Some(id as u8)) == slot_share(backends, id as nat));
        lemma_occurrences_map(slots, table, id as u8);
    }
}

proof fn lemma_occurrences_map(slots: Seq<Option<u8>>, table: Seq<u8>, v: u8)
    requires
        slots.len() == table.len(),
        forall|k: int| 0 <= k < slots.len() ==> slots[k] == Some(#[trigger] table[k]),
    ensures
        occurrences(slots, Some(v)) == occurrences(table, v),
    decreases slots.len(),
{
    if slots.len() > 0 {
        assert(slots[slots.len() - 1] == Some(table[table.len() - 1]));
        assert forall|k: int| 0 <= k < slots.drop_last().len() implies slots.drop_last()[k] == Some(
            #[trigger] table.drop_last()[k],
        ) by {
            assert(slots[k] == Some(table[k]));
        }
        lemma_occurrences_map(slots.drop_last(), table.drop_last(), v);
    }
}

/// A backend's share of the table differs from its exact proportion of the total weight by less
/// than one slot, and a backend without weight beside others that have one holds no slot.
pub proof fn lemma_shares_are_proportional(backends: Seq<Backend>, i: nat)
    requires
        i < table_backends(backends),
        weight_sum(backends, table_backends(backends)) > 0,
    ensures
        ({
            let w = weight_sum(backends, table_backends(backends)) as int;
            let exact = COMPACT_MAGLEV_SIZE * backends[i as int].weight as int;
            &&& exact - w < slot_share(backends, i) * w < exact + w
            &&& backends[i as int].weight == 0 ==> slot_share(backends, i) == 0
        }),
{
    let w = weight_sum(backends, table_backends(backends)) as int;
    let m = COMPACT_MAGLEV_SIZE as int;
    let lo = m * share_sum(backends, i);
    let hi = m * share_sum(backends, i + 1);
    assert(hi == lo + m * backends[i as int].weight as int) by (nonlinear_arith)
        requires
            lo == m * share_sum(backends, i),
            hi == m * share_sum(backends, i + 1),
            share_sum(backends, i + 1) == share_sum(backends, i) + backends[i as int].weight,
    ;
    lemma_fundamental_div_mod(lo, w);
    lemma_fundamental_div_mod(hi, w);
    lemma_mod_bound(lo, w);
    lemma_mod_bound(hi, w);
    let a = lo / w;
    let b = hi / w;
    assert((b - a) * w == w * b - w * a) by (nonlinear_arith);
}

/// The share of the backend that comes next, given the slots and the weight of those before it.
fn next_mark(before: u64, weight: u64, sum: u64) -> (r: u64)
    requires
        before <= 256 * 65535,
        weight <= 65535,
        sum > 0,
    ensures
        r == (COMPACT_MAGLEV_SIZE * (before + weight)) / sum as int,
{
    assert(COMPACT_MAGLEV_SIZE as u64 * (before + weight) <= u64::MAX) by (nonlinear_arith)
        requires
            before <= 256 * 65535,
            weight <= 65535,
    ;
    (COMPACT_MAGLEV_SIZE as u64 * (before + weight)) / sum
}

/// The shares of all backends.
fn compute_shares(backends: &[Backend], n: usize) -> (r: Vec<u64>)
    requires
        n == table_backends(backends@),
        n > 0,
    ensures
        r.len() == n,
        forall|i: int| 0 <= i < n ==> #[trigger] r[i] == slot_share(backends@, i as nat),
{
    let mut sum: u64 = 0;
    let mut i: usize = 0;
    while i < n
        invariant
            n == table_backends(backends@),
            i <= n,
            sum == weight_sum(backends@, i as nat),
        decreases n - i,
    {
        proof {
            lemma_weight_sum_bound(backends@, i as nat);
        }
        sum = sum + backends[i].weight as u64;
        i += 1;
    }
    let equal: bool = sum == 0;
    if equal {
        sum = n as u64;
    }
    let mut shares_out: Vec<u64> = Vec::new();
    let mut before: u64 = 0;
    let mut mark: u64 = 0;
    i = 0;
    proof {
        lemma_div_basics(sum as int);
    }
    while i < n
        invariant
            n == table_backends(backends@),
            0 < n,
            i <= n,
            equal == (weight_sum(backends@, n as nat) == 0),
            sum == share_sum(backends@, n as nat),
            sum > 0,
            before == share_sum(backends@, i as nat),
            mark == slots_upto(backends@, i as nat),
            shares_out.len() == i,
            forall|j: int| 0 <= j < i ==> #[trigger] shares_out[j] == slot_share(backends@, j as nat),
        decreases n - i,
    {
        let weight: u64 = if equal {
            1
        } else {
            backends[i].weight as u64
        };
        proof {
            lemma_weight_sum_bound(backends@, i as nat);
            lemma_slots_upto_monotonic(backends@, i as nat, i as nat + 1);
        }
        let next = next_mark(before, weight, sum);
        shares_out.push(next - mark);
        before = before + weight;
        mark = next;
        i += 1;
    }
    shares_out
}

/// The last `n` bytes of a number.
fn bytes_of(v: u128, n: usize) -> (r: Vec<u8>)
    ensures
        r@ == number_bytes(v as nat, n as nat),
    decreases n,
{
    if n == 0 {
        return Vec::new();
    }
    let mut out = bytes_of(v / 256, n - 1);
    out.push((v % 256) as u8);
    out
}

/// Where a backend's permutation starts, and its stride.
fn permutation(b: Backend) -> (r: (usize, usize))
    ensures
        r.0 == offset(b),
        r.1 == skip(b),
{
    let mut bytes: Vec<u8> = match b.address() {
        Address::V4(ip) => bytes_of(ip as u128, 4),
        Address::V6(ip) => bytes_of(ip, 16),
        Address::Unknown => Vec::new(),
    };
    let mut port = bytes_of(b.port as u128, 2);
    bytes.append(&mut port);
    assert(bytes@ =~= backend_bytes(b));
    let first = fnv1a_hash(bytes.as_slice());
    bytes.push(1);
    assert(bytes@ =~= backend_bytes(b).push(1u8));
    let second = fnv1a_hash(bytes.as_slice());
    (
        (first % COMPACT_MAGLEV_SIZE as u64) as usize,
        (second % (COMPACT_MAGLEV_SIZE as u64 - 1) + 1) as usize,
    )
}

/// Builds the Maglev table of a backend list.
pub fn maglev_build_compact_table(backends: &[Backend]) -> (r: Vec<u8>)
    ensures
        r@ == maglev_table(backends@),
{
    reveal(maglev_table);
    if backends.len() == 0 {
        return Vec::new();
    }
    let n: usize = if backends.len() < COMPACT_MAGLEV_BACKENDS {
        backends.len()
    } else {
        COMPACT_MAGLEV_BACKENDS
    };
    let shares_of = compute_shares(backends, n);
    let mut slots: Vec<Option<u8>> = Vec::new();
    while slots.len() < COMPACT_MAGLEV_SIZE
        invariant
            slots.len() <= COMPACT_MAGLEV_SIZE,
            forall|k: int| 0 <= k < slots.len() ==> slots[k] == None::<u8>,
        decreases COMPACT_MAGLEV_SIZE - slots.len(),
    {
        slots.push(None);
    }
    assert(slots@ =~= free_slots());
    // The position in each backend's permutation that it looks at next, and its slot and stride.
    let mut cursor: Vec<(Ghost<nat>, usize, usize)> = Vec::new();
    let mut i: usize = 0;
    while i < n
        invariant
            n == table_backends(backends@),
            i <= n,
            cursor.len() == i,
            forall|j: int| 0 <= j < i ==> (#[trigger] cursor[j]).0@ == 0 && cursor[j].1 == preference(backends[j], 0)
                && cursor[j].2 == skip(backends[j]),
        decreases n - i,
    {
        let (first, stride) = permutation(backends[i]);
        proof {
            lemma_small_mod(first as nat, COMPACT_MAGLEV_SIZE as nat);
        }
        cursor.push((Ghost(0nat), first, stride));
        i += 1;
    }
    proof {
        lemma_filled_start(backends@);
    }
    let mut round: usize = 0;
    while round < COMPACT_MAGLEV_SIZE
        invariant
            n == table_backends(backends@),
            0 < n,
            round <= COMPACT_MAGLEV_SIZE,
            shares_of.len() == n,
            forall|j: int| 0 <= j < n ==> #[trigger] shares_of[j] == slot_share(backends@, j as nat),
            cursors_ok(backends@, slots@, cursor@),
            cursor.len() == n,
            filled(backends@, slots@, round as nat, 0),
            fill(backends@, slots@, round as nat, 0) == fill(backends@, free_slots(), 0, 0),
        decreases COMPACT_MAGLEV_SIZE - round,
    {
        let mut i: usize = 0;
        while i < n
            invariant
                n == table_backends(backends@),
                0 < n,
                i <= n,
                round < COMPACT_MAGLEV_SIZE,
                shares_of.len() == n,
                forall|j: int|
                    0 <= j < n ==> #[trigger] shares_of[j] == slot_share(backends@, j as nat),
                cursors_ok(backends@, slots@, cursor@),
                cursor.len() == n,
                filled(backends@, slots@, round as nat, i as nat),
                fill(backends@, slots@, round as nat, i as nat) == fill(
                    backends@,
                    free_slots(),
                    0,
                    0,
                ),
            decreases n - i,
        {
            if shares_of[i] > round as u64 {
                proof {
                    lemma_filled_claim(backends@, slots@, round as nat, i as nat);
                }
                let found = advance(backends[i], slots.as_slice(), cursor[i]);
                proof {
                    lemma_first_free_unique(slots@, backends[i as int], found.0@);
                    lemma_cursors_claim(backends@, slots@, cursor@, i as int, found);
                }
                slots.set(found.1, Some(i as u8));
                cursor.set(i, found);
            } else {
                proof {
                    lemma_filled_pass(backends@, slots@, round as nat, i as nat);
                }
            }
            i += 1;
        }
        proof {
            lemma_filled_round(backends@, slots@, round as nat);
        }
        round += 1;
    }
    proof {
        lemma_filled_end(backends@, slots@);
    }
    let mut table: Vec<u8> = Vec::new();
    let mut k: usize = 0;
    while k < COMPACT_MAGLEV_SIZE
        invariant
            slots.len() == COMPACT_MAGLEV_SIZE,
            k <= COMPACT_MAGLEV_SIZE,
            table.len() == k,
            forall|j: int| 0 <= j < slots.len() ==> (#[trigger] slots[j]) is Some,
            forall|j: int| 0 <= j < k ==> slots[j] == Some(#[trigger] table[j]),
        decreases COMPACT_MAGLEV_SIZE - k,
    {
        assert(slots[k as int] is Some);
        table.push(slots[k].unwrap());
        k += 1;
    }
    assert(table@ =~= maglev_table(backends@));
    table
}

/// Each cursor stands in its backend's permutation with nothing free before it.
spec fn cursors_ok(
    backends: Seq<Backend>,
    slots: Seq<Option<u8>>,
    cursor: Seq<(Ghost<nat>, usize, usize)>,
) -> bool {
    forall|j: int| 0 <= j < cursor.len() ==> cursor_ok(backends[j], slots, #[trigger] cursor[j])
}

spec fn cursor_ok(b: Backend, slots: Seq<Option<u8>>, c: (Ghost<nat>, usize, usize)) -> bool {
    &&& c.1 == preference(b, c.0@)
    &&& c.2 == skip(b)
    &&& forall|i: nat| i < c.0@ ==> slots[#[trigger] preference(b, i)] is Some
}

proof fn lemma_cursor_claim(
    b: Backend,
    slots: Seq<Option<u8>>,
    c: (Ghost<nat>, usize, usize),
    k: int,
    id: u8,
)
    requires
        cursor_ok(b, slots, c),
        0 <= k < slots.len(),
        slots.len() == COMPACT_MAGLEV_SIZE,
    ensures
        cursor_ok(b, slots.update(k, Some(id)), c),
{
    let next = slots.update(k, Some(id));
    assert forall|q: nat| q < c.0@ implies next[#[trigger] preference(b, q)] is Some by {
        let p = preference(b, q);
        assert(slots[p] is Some);
        assert(0 <= p < slots.len());
        if p != k {
            assert(next[p] == slots[p]);
        }
    }
}

proof fn lemma_cursors_claim(
    backends: Seq<Backend>,
    slots: Seq<Option<u8>>,
    cursor: Seq<(Ghost<nat>, usize, usize)>,
    i: int,
    found: (Ghost<nat>, usize, usize),
)
    requires
        cursors_ok(backends, slots, cursor),
        0 <= i < cursor.len(),
        cursor_ok(backends[i], slots, found),
        slots.len() == COMPACT_MAGLEV_SIZE,
        found.1 < COMPACT_MAGLEV_SIZE,
    ensures
        cursors_ok(
            backends,
            slots.update(found.1 as int, Some(i as u8)),
            cursor.update(i, found),
        ),
{
    let next = slots.update(found.1 as int, Some(i as u8));
    let moved = cursor.update(i, found);
    assert forall|j: int| 0 <= j < moved.len() implies cursor_ok(
        backends[j],
        next,
        #[trigger] moved[j],
    ) by {
        if j != i {
            assert(cursor_ok(backends[j], slots, cursor[j]));
        }
        lemma_cursor_claim(backends[j], slots, moved[j], found.1 as int, i as u8);
    }
}

/// Moves a cursor to the first free slot of its backend's permutation.
fn advance(
    b: Backend,
    slots: &[Option<u8>],
    start: (Ghost<nat>, usize, usize),
) -> (r: (Ghost<nat>, usize, usize))
    requires
        slots.len() == COMPACT_MAGLEV_SIZE,
        cursor_ok(b, slots@, start),
        exists|j: nat| is_first_free(slots@, b, j),
    ensures
        cursor_ok(b, slots@, r),
        is_first_free(slots@, b, r.0@),
        r.1 < COMPACT_MAGLEV_SIZE,
{
    let ghost goal = choose|j: nat| is_first_free(slots@, b, j);
    let mut at: usize = start.1;
    let ghost mut pos: nat = start.0@;
    while slots[at].is_some()
        invariant
            slots.len() == COMPACT_MAGLEV_SIZE,
            at < COMPACT_MAGLEV_SIZE,
            at == preference(b, pos),
            start.2 == skip(b),
            is_first_free(slots@, b, goal),
            pos <= goal,
            forall|i: nat| i < pos ==> slots@[#[trigger] preference(b, i)] is Some,
        decreases goal - pos,
    {
        proof {
            lemma_preference_next(b, pos);
        }
        at = (at + start.2) % COMPACT_MAGLEV_SIZE;
        proof {
            pos = pos + 1;
        }
    }
    (Ghost(pos), at, start.2)
}

proof fn lemma_preference_next(b: Backend, j: nat)
    ensures
        preference(b, j + 1) == (preference(b, j) + skip(b)) % COMPACT_MAGLEV_SIZE as int,
{
    let m = COMPACT_MAGLEV_SIZE as int;
    assert((j + 1) * skip(b) == j * skip(b) + skip(b)) by (nonlinear_arith);
    lemma_add_mod_noop((offset(b) + j * skip(b)) as int, skip(b) as int, m);
    lemma_small_mod(skip(b), m as nat);
}

/// The backend index that a table gives for a hash.
pub open spec fn table_entry(table: Seq<u8>, hash: u64) -> u8 {
    table[hash as int % table.len() as int]
}

/// Looks a hash up in a table.
pub fn maglev_lookup_compact(hash: u64, table: &[u8]) -> (r: u8)
    requires
        table.len() > 0,
    ensures
        r == table_entry(table@, hash),
{
    table[(hash % table.len() as u64) as usize]
}

/// What backends weigh together.
pub open spec fn weight_of_all(backends: Seq<Backend>) -> nat
    decreases backends.len(),
{
    if backends.len() == 0 {
        0
    } else {
        backends[0].weight as nat + weight_of_all(backends.drop_first())
    }
}

proof fn lemma_weight_of_all(backends: Seq<Backend>, k: nat)
    requires
        k <= backends.len(),
    ensures
        weight_of_all(backends.take(k as int)) == weight_sum(backends, k),
    decreases k,
{
    if k > 0 {
        lemma_weight_of_all(backends, (k - 1) as nat);
        let front = backends.take(k - 1);
        assert(backends.take(k as int) =~= front.push(backends[k - 1]));
        lemma_weight_of_one_more(front, backends[k - 1]);
    }
}

proof fn lemma_weight_of_one_more(backends: Seq<Backend>, b: Backend)
    ensures
        weight_of_all(backends.push(b)) == weight_of_all(backends) + b.weight,
    decreases backends.len(),
{
    let more = backends.push(b);
    if backends.len() == 0 {
        assert(more.drop_first() =~= Seq::empty());
        assert(weight_of_all(more.drop_first()) == 0);
    } else {
        assert(more.drop_first() =~= backends.drop_first().push(b));
        lemma_weight_of_one_more(backends.drop_first(), b);
    }
}

/// Slots go by weight: of the first 256 backends, each holds its weight's part of the 4099 slots,
/// give or take less than one slot. Where none of them has a weight, all hold the same, give or take
/// less than one.
pub proof fn lemma_slots_go_by_weight(backends: Seq<Backend>, i: int)
    requires
        0 <= i < backends.len(),
        i < 256,
    ensures
        ({
            let n = if backends.len() < 256 {
                backends.len() as int
            } else {
                256
            };
            let w = weight_of_all(backends.take(n)) as int;
            let share = occurrences(maglev_table(backends), i as u8) as int;
            &&& w > 0 ==> 4099 * backends[i].weight - w < share * w < 4099 * backends[i].weight + w
            &&& w == 0 ==> 4099 - n < share * n < 4099 + n
        }),
{
    let n = table_backends(backends);
    lemma_weight_of_all(backends, n);
    lemma_table_shares(backends);
    assert(occurrences(maglev_table(backends), i as u8) == slot_share(backends, i as nat));
    if weight_sum(backends, n) > 0 {
        lemma_shares_are_proportional(backends, i as nat);
    } else {
        let m = COMPACT_MAGLEV_SIZE as int;
        let w = n as int;
        let lo = m * i;
        let hi = m * (i + 1);
        lemma_fundamental_div_mod(lo, w);
        lemma_fundamental_div_mod(hi, w);
        lemma_mod_bound(lo, w);
        lemma_mod_bound(hi, w);
        let a = lo / w;
        let b = hi / w;
        assert((b - a) * w == w * b - w * a) by (nonlinear_arith);
        assert(slots_upto(backends, i as nat) == a);
        assert(slots_upto(backends, (i + 1) as nat) == b);
    }
}

/// The number that bytes stand for, the highest first.
pub open spec fn number_of_bytes(s: Seq<u8>) -> nat
    decreases s.len(),
{
    if s.len() == 0 {
        0
    } else {
        number_of_bytes(s.drop_last()) * 256 + s.last() as nat
    }
}

/// A number is split into the bytes that it is made of.
pub proof fn lemma_bytes_make_number(s: Seq<u8>)
    ensures
        number_bytes(number_of_bytes(s), s.len()) == s,
    decreases s.len(),
{
    if s.len() > 0 {
        let front = s.drop_last();
        lemma_bytes_make_number(front);
        let n = number_of_bytes(s);
        assert(n / 256 == number_of_bytes(front));
        assert(n % 256 == s.last() as nat);
        assert(front.push(s.last()) =~= s);
    }
}

/// A backend's permutation follows from the bytes of its address and its port alone: it starts at
/// their hash and goes on in steps of the hash of these bytes and a one. It comes by every slot.
pub proof fn lemma_permutation_follows_address(b: Backend, j: nat, slot: int)
    requires
        0 <= slot < 4099,
    ensures
        ({
            let bytes = match address_of(b) {
                Address::V4(ip) => number_bytes(ip as nat, 4) + number_bytes(b.port as nat, 2),
                Address::V6(ip) => number_bytes(ip as nat, 16) + number_bytes(b.port as nat, 2),
                Address::Unknown => number_bytes(b.port as nat, 2),
            };
            let start = fnv1a(bytes) as int % 4099;
            let step = fnv1a(bytes + seq![1u8]) as int % 4098 + 1;
            preference(b, j) == (start + j * step) % 4099
        }),
        exists|i: nat| i < 4099 && #[trigger] preference(b, i) == slot,
{
    let bytes = backend_bytes(b);
    assert(bytes.push(1u8) =~= bytes + seq![1u8]);
    match address_of(b) {
        Address::Unknown => {
            assert(bytes =~= number_bytes(b.port as nat, 2));
        },
        _ => {},
    }
    let i = lemma_preference_reaches(b, slot);
    assert(preference(b, i) == slot);
}

/// Whether one slot was claimed before another: in an earlier round, or in the same round by a
/// backend that comes before.
pub open spec fn claimed_before(table: Seq<u8>, rounds: Seq<nat>, a: int, b: int) -> bool {
    rounds[a] < rounds[b] || rounds[a] == rounds[b] && table[a] < table[b]
}

/// Whether a slot was the best one left for its backend: some position of the backend's permutation
/// is this slot, and every slot at an earlier position was claimed before.
pub open spec fn best_left(
    backends: Seq<Backend>,
    table: Seq<u8>,
    rounds: Seq<nat>,
    slot: int,
) -> bool {
    exists|j: nat| #[trigger]
        is_position(backends[table[slot] as int], j, slot) && forall|i: nat|
            i < j ==> claimed_before(
                table,
                rounds,
                #[trigger] preference(backends[table[slot] as int], i),
                slot,
            )
}

/// Whether a slot stands at a position of a backend's permutation.
pub open spec fn is_position(b: Backend, j: nat, slot: int) -> bool {
    preference(b, j) == slot
}

/// The same before the table is full.
spec fn best_so_far(
    backends: Seq<Backend>,
    slots: Seq<Option<u8>>,
    rounds: Seq<nat>,
    slot: int,
) -> bool {
    exists|j: nat| #[trigger]
        is_position(backends[slots[slot].unwrap() as int], j, slot) && forall|i: nat|
            i < j ==> taken_before(
                slots,
                rounds,
                #[trigger] preference(backends[slots[slot].unwrap() as int], i),
                slot,
            )
}

spec fn taken_before(slots: Seq<Option<u8>>, rounds: Seq<nat>, a: int, b: int) -> bool {
    &&& slots[a] is Some
    &&& rounds[a] < rounds[b] || rounds[a] == rounds[b] && slots[a].unwrap() < slots[b].unwrap()
}

/// What holds of the slots and of the rounds in which they were claimed, at each point of the rounds.
spec fn claimed(
    backends: Seq<Backend>,
    slots: Seq<Option<u8>>,
    rounds: Seq<nat>,
    round: nat,
    i: nat,
) -> bool {
    &&& slots.len() == COMPACT_MAGLEV_SIZE
    &&& rounds.len() == COMPACT_MAGLEV_SIZE
    &&& forall|k: int|
        0 <= k < slots.len() && (#[trigger] slots[k]) is Some ==> {
            &&& slots[k].unwrap() < table_backends(backends)
            &&& rounds[k] < slot_share(backends, slots[k].unwrap() as nat)
            &&& rounds[k] < round || rounds[k] == round && slots[k].unwrap() < i
            &&& best_so_far(backends, slots, rounds, k)
        }
    &&& forall|k: int, q: int|
        0 <= k < slots.len() && 0 <= q < slots.len() && (#[trigger] slots[k]) is Some && (
        #[trigger] slots[q]) == slots[k] && rounds[k] == rounds[q] ==> k == q
}

proof fn lemma_best_is_kept(
    backends: Seq<Backend>,
    slots: Seq<Option<u8>>,
    rounds: Seq<nat>,
    slot: int,
    at: int,
    id: u8,
    round: nat,
)
    requires
        best_so_far(backends, slots, rounds, slot),
        slots.len() == rounds.len() == COMPACT_MAGLEV_SIZE,
        0 <= slot < slots.len(),
        0 <= at < slots.len(),
        slots[slot] is Some,
        slots[at] is None,
    ensures
        best_so_far(backends, slots.update(at, Some(id)), rounds.update(at, round), slot),
{
    let b = backends[slots[slot].unwrap() as int];
    let j = choose|j: nat| #[trigger]
        is_position(b, j, slot) && forall|i: nat|
            i < j ==> taken_before(slots, rounds, #[trigger] preference(b, i), slot);
    let next = slots.update(at, Some(id));
    let next_rounds = rounds.update(at, round);
    assert(next[slot] == slots[slot]);
    assert(is_position(b, j, slot));
    assert forall|i: nat| i < j implies taken_before(
        next,
        next_rounds,
        #[trigger] preference(b, i),
        slot,
    ) by {
        assert(taken_before(slots, rounds, preference(b, i), slot));
    }
}

proof fn lemma_claimed_claim(
    backends: Seq<Backend>,
    slots: Seq<Option<u8>>,
    rounds: Seq<nat>,
    round: nat,
    i: nat,
)
    requires
        filled(backends, slots, round, i),
        claimed(backends, slots, rounds, round, i),
        i < table_backends(backends),
        slot_share(backends, i) > round,
    ensures
        claimed(
            backends,
            slots.update(next_slot(slots, backends[i as int]), Some(i as u8)),
            rounds.update(next_slot(slots, backends[i as int]), round),
            round,
            i + 1,
        ),
{
    let b = backends[i as int];
    lemma_filled_claim(backends, slots, round, i);
    let first = choose|j: nat| is_first_free(slots, b, j);
    lemma_first_free_unique(slots, b, first);
    let at = next_slot(slots, b);
    assert(at == preference(b, first));
    assert(0 <= at < slots.len());
    assert(slots[at] is None);
    let next = slots.update(at, Some(i as u8));
    let next_rounds = rounds.update(at, round);
    assert forall|k: int| 0 <= k < next.len() && (#[trigger] next[k]) is Some implies {
        &&& next[k].unwrap() < table_backends(backends)
        &&& next_rounds[k] < slot_share(backends, next[k].unwrap() as nat)
        &&& next_rounds[k] < round || next_rounds[k] == round && next[k].unwrap() < i + 1
        &&& best_so_far(backends, next, next_rounds, k)
    } by {
        if k == at {
            assert(is_position(b, first, at));
            assert forall|j: nat| j < first implies taken_before(
                next,
                next_rounds,
                #[trigger] preference(b, j),
                at,
            ) by {
                let q = preference(b, j);
                assert(0 <= q < slots.len());
                assert(slots[q] is Some);
                assert(q != at);
            }
        } else {
            assert(slots[k] is Some);
            lemma_best_is_kept(backends, slots, rounds, k, at, i as u8, round);
        }
    }
    assert forall|k: int, q: int|
        0 <= k < next.len() && 0 <= q < next.len() && (#[trigger] next[k]) is Some && (
        #[trigger] next[q]) == next[k] && next_rounds[k] == next_rounds[q] implies k == q by {
        if k != at {
            assert(slots[k] is Some);
        }
        if q != at {
            assert(slots[q] is Some);
        }
    }
}

proof fn lemma_claimed_fill(
    backends: Seq<Backend>,
    slots: Seq<Option<u8>>,
    rounds: Seq<nat>,
    round: nat,
    i: nat,
) -> (done: Seq<nat>)
    requires
        filled(backends, slots, round, i),
        claimed(backends, slots, rounds, round, i),
        round <= COMPACT_MAGLEV_SIZE,
        round == COMPACT_MAGLEV_SIZE ==> i == 0,
    ensures
        claimed(backends, fill(backends, slots, round, i), done, COMPACT_MAGLEV_SIZE as nat, 0),
    decreases COMPACT_MAGLEV_SIZE - round, table_backends(backends) - i,
{
    if round >= COMPACT_MAGLEV_SIZE {
        rounds
    } else if i >= table_backends(backends) {
        lemma_filled_round(backends, slots, round);
        assert(claimed(backends, slots, rounds, round + 1, 0));
        lemma_claimed_fill(backends, slots, rounds, round + 1, 0)
    } else if slot_share(backends, i) > round {
        lemma_filled_claim(backends, slots, round, i);
        lemma_claimed_claim(backends, slots, rounds, round, i);
        let at = next_slot(slots, backends[i as int]);
        lemma_claimed_fill(
            backends,
            slots.update(at, Some(i as u8)),
            rounds.update(at, round),
            round,
            i + 1,
        )
    } else {
        lemma_filled_pass(backends, slots, round, i);
        assert(claimed(backends, slots, rounds, round, i + 1));
        lemma_claimed_fill(backends, slots, rounds, round, i + 1)
    }
}

/// How the slots of a table were claimed: in rounds, in each of which every backend that has not got
/// its share yet claims one slot, in the order of the backends; and always the one that comes first
/// in its own permutation among those that nobody claimed before. So the table follows from the
/// permutations and the shares.
pub proof fn lemma_slots_are_claimed_in_turn(backends: Seq<Backend>) -> (rounds: Seq<nat>)
    requires
        backends.len() > 0,
    ensures
        rounds.len() == 4099,
        maglev_table(backends).len() == 4099,
        forall|k: int|
            0 <= k < 4099 ==> {
                let id = #[trigger] maglev_table(backends)[k];
                &&& id < backends.len()
                &&& rounds[k] < occurrences(maglev_table(backends), id)
                &&& best_left(backends, maglev_table(backends), rounds, k)
            },
        forall|k: int, q: int|
            0 <= k < 4099 && 0 <= q < 4099 && (#[trigger] maglev_table(backends)[k]) == (
            #[trigger] maglev_table(backends)[q]) && rounds[k] == rounds[q] ==> k == q,
{
    let free = free_slots();
    let start = Seq::new(COMPACT_MAGLEV_SIZE as nat, |k: int| 0nat);
    lemma_filled_start(backends);
    assert(claimed(backends, free, start, 0, 0));
    let slots = fill(backends, free, 0, 0);
    let rounds = lemma_claimed_fill(backends, free, start, 0, 0);
    lemma_fill(backends, free, 0, 0);
    lemma_filled_end(backends, slots);
    lemma_table_shares(backends);
    reveal(maglev_table);
    let table = maglev_table(backends);
    assert forall|k: int| 0 <= k < 4099 implies slots[k] is Some && #[trigger] table[k]
        == slots[k].unwrap() by {}
    assert forall|k: int| 0 <= k < 4099 implies {
        let id = #[trigger] table[k];
        &&& id < backends.len()
        &&& rounds[k] < occurrences(table, id)
        &&& best_left(backends, table, rounds, k)
    } by {
        assert(slots[k] is Some);
        let id = table[k];
        assert(occurrences(table, (id as int) as u8) == slot_share(backends, id as nat));
        let b = backends[id as int];
        assert(best_so_far(backends, slots, rounds, k));
        let j = choose|j: nat| #[trigger]
            is_position(b, j, k) && forall|i: nat|
                i < j ==> taken_before(slots, rounds, #[trigger] preference(b, i), k);
        assert(is_position(b, j, k));
        assert forall|i: nat| i < j implies claimed_before(
            table,
            rounds,
            #[trigger] preference(b, i),
            k,
        ) by {
            let q = preference(b, i);
            assert(taken_before(slots, rounds, q, k));
            assert(table[q] == slots[q].unwrap());
        }
    }
    assert forall|k: int, q: int|
        0 <= k < 4099 && 0 <= q < 4099 && (#[trigger] table[k]) == (#[trigger] table[q])
            && rounds[k] == rounds[q] implies k == q by {
        assert(slots[k] is Some);
        assert(slots[q] == slots[k]);
    }
    rounds
}

} // verus!
