//! Network addresses and their texts.

use vstd::prelude::*;
use vstd::string::*;
use crate::text::{decimal, decimal_text, digit};

verus! {

/// Where a server is found.
#[derive(Debug, Clone, Copy, PartialEq, Eq, Hash, Structural)]
pub enum Address {
    /// IPv4, as a number in network order
    V4(u32),
    /// IPv6, as a number in network order
    V6(u128),
    /// Neither
    Unknown,
}

/// The dotted-quad text of an IPv4 address.
pub open spec fn ipv4_text(ip: nat) -> Seq<char> {
    decimal(ip / 16777216) + "."@ + decimal((ip / 65536) % 256) + "."@ + decimal((ip / 256) % 256)
        + "."@ + decimal(ip % 256)
}

/// A hexadecimal digit, in lower case.
pub open spec fn hex_digit(d: nat) -> char {
    if d < 10 {
        digit(d)
    } else {
        ((87 + d) as u32) as char
    }
}

/// The hexadecimal text of a number, without leading zeros.
pub open spec fn hex(n: nat) -> Seq<char>
    decreases n,
{
    if n < 16 {
        seq![hex_digit(n)]
    } else {
        hex(n / 16).push(hex_digit(n % 16))
    }
}

/// The last `n` groups of sixteen bits of a number, the highest first.
pub open spec fn segments(ip: nat, n: nat) -> Seq<u16>
    decreases n,
{
    if n == 0 {
        Seq::empty()
    } else {
        segments(ip / 65536, (n - 1) as nat).push((ip % 65536) as u16)
    }
}

/// The texts of segments, with colons between them.
pub open spec fn colons(s: Seq<u16>) -> Seq<char>
    decreases s.len(),
{
    if s.len() == 0 {
        Seq::empty()
    } else if s.len() == 1 {
        hex(s[0] as nat)
    } else {
        colons(s.drop_last()) + ":"@ + hex(s.last() as nat)
    }
}

/// How many segments from position `i` on are zero.
pub open spec fn zero_run(s: Seq<u16>, i: nat) -> nat
    decreases s.len() - i,
{
    if i >= s.len() || s[i as int] != 0 {
        0
    } else {
        1 + zero_run(s, i + 1)
    }
}

/// Where the longest run of zeros starts among those that start before position `n`; the first of
/// several.
pub open spec fn longest_run(s: Seq<u16>, n: nat) -> nat
    decreases n,
{
    if n <= 1 {
        0
    } else {
        let best = longest_run(s, (n - 1) as nat);
        if zero_run(s, (n - 1) as nat) > zero_run(s, best) {
            (n - 1) as nat
        } else {
            best
        }
    }
}

/// Whether segments stand for an IPv4 address.
pub open spec fn is_mapped(s: Seq<u16>) -> bool {
    &&& s[0] == 0 && s[1] == 0 && s[2] == 0 && s[3] == 0 && s[4] == 0
    &&& s[5] == 0xffff
}

/// The text of an IPv6 address: its segments with the longest run of zeros, the first of several,
/// left out where it is longer than one segment. One that stands for an IPv4 address ends in the
/// text of that.
pub open spec fn ipv6_text(ip: nat) -> Seq<char> {
    let s = segments(ip, 8);
    let start = longest_run(s, 8);
    let len = zero_run(s, start);
    if is_mapped(s) {
        "::ffff:"@ + ipv4_text(ip % 4294967296)
    } else if len > 1 {
        colons(s.take(start as int)) + "::"@ + colons(s.skip((start + len) as int))
    } else {
        colons(s)
    }
}

/// The `address:port` text of a server. An IPv6 address stands in brackets.
pub open spec fn address_text(address: Address, port: u16) -> Seq<char> {
    match address {
        Address::V4(ip) => ipv4_text(ip as nat) + ":"@ + decimal(port as nat),
        Address::V6(ip) => "["@ + ipv6_text(ip as nat) + "]:"@ + decimal(port as nat),
        Address::Unknown => "unknown:"@ + decimal(port as nat),
    }
}

/// The text of an address alone, without brackets.
pub open spec fn host_text(address: Address) -> Seq<char> {
    match address {
        Address::V4(ip) => ipv4_text(ip as nat),
        Address::V6(ip) => ipv6_text(ip as nat),
        Address::Unknown => "unknown"@,
    }
}

/// Whether a text holds visible ASCII characters only.
pub open spec fn visible_ascii(s: Seq<char>) -> bool {
    forall|i: int| 0 <= i < s.len() ==> 32 < (#[trigger] s[i]) as u32 && (s[i] as u32) < 127
}

/// Renders an IPv4 address as a dotted quad.
pub(crate) fn ipv4_string(ip: u32) -> (r: String)
    ensures
        r@ == ipv4_text(ip as nat),
{
    let mut s = decimal_text((ip / 16777216) as u64);
    s.append(".");
    let b = decimal_text(((ip / 65536) % 256) as u64);
    s.append(b.as_str());
    s.append(".");
    let c = decimal_text(((ip / 256) % 256) as u64);
    s.append(c.as_str());
    s.append(".");
    let d = decimal_text((ip % 256) as u64);
    s.append(d.as_str());
    s
}

/// Renders a number in hexadecimal.
fn hex_text(n: u16) -> (r: String)
    ensures
        r@ == hex(n as nat),
    decreases n,
{
    let mut s: String = if n < 16 {
        String::new()
    } else {
        hex_text(n / 16)
    };
    let d: u8 = (n % 16) as u8;
    let c: char = if d < 10 {
        (48 + d) as char
    } else {
        (87 + d) as char
    };
    s.push(c);
    assert(s@ =~= hex(n as nat));
    s
}

proof fn lemma_segments_len(ip: nat, n: nat)
    ensures
        segments(ip, n).len() == n,
    decreases n,
{
    if n > 0 {
        lemma_segments_len(ip / 65536, (n - 1) as nat);
    }
}

/// The last `n` segments of a number.
fn segments_of(ip: u128, n: usize) -> (r: Vec<u16>)
    ensures
        r@ == segments(ip as nat, n as nat),
    decreases n,
{
    if n == 0 {
        return Vec::new();
    }
    let mut out = segments_of(ip / 65536, n - 1);
    out.push((ip % 65536) as u16);
    out
}

/// Renders the segments from one position to another with colons between them.
fn colons_text(s: &Vec<u16>, from: usize, to: usize) -> (r: String)
    requires
        from <= to <= s.len(),
    ensures
        r@ == colons(s@.subrange(from as int, to as int)),
{
    let mut out = String::new();
    let mut i: usize = from;
    while i < to
        invariant
            from <= i <= to <= s.len(),
            out@ == colons(s@.subrange(from as int, i as int)),
        decreases to - i,
    {
        proof {
            let next = s@.subrange(from as int, i as int + 1);
            assert(next.drop_last() =~= s@.subrange(from as int, i as int));
            assert(next.last() == s@[i as int]);
        }
        if i > from {
            out.append(":");
        }
        let h = hex_text(s[i]);
        out.append(h.as_str());
        assert(out@ =~= colons(s@.subrange(from as int, i as int + 1)));
        i += 1;
    }
    out
}

/// How many segments from a position on are zero.
fn zeros_from(s: &Vec<u16>, i: usize) -> (r: usize)
    requires
        i <= s.len(),
    ensures
        r == zero_run(s@, i as nat),
        i + r <= s.len(),
    decreases s.len() - i,
{
    if i == s.len() || s[i] != 0 {
        0
    } else {
        zeros_from(s, i + 1) + 1
    }
}

/// Renders an IPv6 address.
pub(crate) fn ipv6_string(ip: u128) -> (r: String)
    ensures
        r@ == ipv6_text(ip as nat),
{
    let s = segments_of(ip, 8);
    proof {
        lemma_segments_len(ip as nat, 8);
    }
    if s[0] == 0 && s[1] == 0 && s[2] == 0 && s[3] == 0 && s[4] == 0 && s[5] == 0xffff {
        let mut out = "::ffff:".to_owned();
        let v4 = ipv4_string((ip % 4294967296) as u32);
        out.append(v4.as_str());
        return out;
    }
    let mut start: usize = 0;
    let mut i: usize = 1;
    while i < 8
        invariant
            s.len() == 8,
            1 <= i <= 8,
            start < i,
            start == longest_run(s@, i as nat),
        decreases 8 - i,
    {
        if zeros_from(&s, i) > zeros_from(&s, start) {
            start = i;
        }
        i += 1;
    }
    let len: usize = zeros_from(&s, start);
    if len > 1 {
        let mut out = colons_text(&s, 0, start);
        out.append("::");
        let rest = colons_text(&s, start + len, 8);
        out.append(rest.as_str());
        proof {
            assert(s@.subrange(0, start as int) =~= s@.take(start as int));
            assert(s@.subrange(start + len, 8) =~= s@.skip(start + len));
        }
        out
    } else {
        assert(s@.subrange(0, 8) =~= s@);
        colons_text(&s, 0, 8)
    }
}

/// Renders an address alone.
pub(crate) fn host_string(address: Address) -> (r: String)
    ensures
        r@ == host_text(address),
{
    match address {
        Address::V4(ip) => ipv4_string(ip),
        Address::V6(ip) => ipv6_string(ip),
        Address::Unknown => "unknown".to_owned(),
    }
}

/// Renders the `address:port` of a server.
pub(crate) fn address_string(address: Address, port: u16) -> (r: String)
    ensures
        r@ == address_text(address, port),
{
    let digits = decimal_text(port as u64);
    let mut s: String = match address {
        Address::V4(ip) => {
            let mut t = ipv4_string(ip);
            t.append(":");
            t
        },
        Address::V6(ip) => {
            let mut t = "[".to_owned();
            let text = ipv6_string(ip);
            t.append(text.as_str());
            t.append("]:");
            t
        },
        Address::Unknown => "unknown:".to_owned(),
    };
    s.append(digits.as_str());
    s
}

proof fn lemma_decimal_visible(n: nat)
    ensures
        visible_ascii(decimal(n)),
    decreases n,
{
    assert('0' <= digit(n % 10) <= '9');
    if n >= 10 {
        lemma_decimal_visible(n / 10);
    }
}

proof fn lemma_hex_visible(n: nat)
    ensures
        visible_ascii(hex(n)),
    decreases n,
{
    assert(48 <= hex_digit(n % 16) as u32 && hex_digit(n % 16) as u32 <= 102);
    if n >= 16 {
        lemma_hex_visible(n / 16);
    }
}

proof fn lemma_colons_visible(s: Seq<u16>)
    ensures
        visible_ascii(colons(s)),
    decreases s.len(),
{
    if s.len() == 1 {
        lemma_hex_visible(s[0] as nat);
    } else if s.len() > 1 {
        lemma_colons_visible(s.drop_last());
        lemma_hex_visible(s.last() as nat);
        reveal_strlit(":");
    }
}

proof fn lemma_ipv4_visible(ip: nat)
    ensures
        visible_ascii(ipv4_text(ip)),
{
    reveal_strlit(".");
    lemma_decimal_visible(ip / 16777216);
    lemma_decimal_visible((ip / 65536) % 256);
    lemma_decimal_visible((ip / 256) % 256);
    lemma_decimal_visible(ip % 256);
}

/// The text of an address holds visible ASCII characters only.
pub proof fn lemma_address_visible(address: Address, port: u16)
    ensures
        visible_ascii(address_text(address, port)),
{
    lemma_decimal_visible(port as nat);
    reveal_strlit(":");
    reveal_strlit("[");
    reveal_strlit("]:");
    reveal_strlit("unknown:");
    reveal_strlit("::");
    reveal_strlit("::ffff:");
    match address {
        Address::V4(ip) => {
            lemma_ipv4_visible(ip as nat);
        },
        Address::V6(ip) => {
            let s = segments(ip as nat, 8);
            let start = longest_run(s, 8);
            lemma_ipv4_visible(ip as nat % 4294967296);
            lemma_colons_visible(s);
            lemma_colons_visible(s.take(start as int));
            lemma_colons_visible(s.skip((start + zero_run(s, start)) as int));
            assert(visible_ascii(ipv6_text(ip as nat)));
        },
        Address::Unknown => {},
    }
}

/// The text of an IPv4 address is that of its four bytes, the highest first, with dots between them.
pub proof fn lemma_ipv4_text_has_four_bytes(a: u8, b: u8, c: u8, d: u8)
    ensures
        ipv4_text((a * 16777216 + b * 65536 + c * 256 + d) as nat) == decimal(a as nat) + "."@
            + decimal(b as nat) + "."@ + decimal(c as nat) + "."@ + decimal(d as nat),
{
    let ip = (a * 16777216 + b * 65536 + c * 256 + d) as nat;
    assert(ip / 16777216 == a as nat);
    assert(ip / 65536 == a * 256 + b);
    assert((ip / 65536) % 256 == b as nat);
    assert(ip / 256 == a * 65536 + b * 256 + c);
    assert((ip / 256) % 256 == c as nat);
    assert(ip % 256 == d as nat);
}

/// The number that eight or fewer groups of sixteen bits stand for, the highest first.
pub open spec fn number_of_groups(s: Seq<u16>) -> nat
    decreases s.len(),
{
    if s.len() == 0 {
        0
    } else {
        number_of_groups(s.drop_last()) * 65536 + s.last() as nat
    }
}

/// An IPv6 address is split into the groups that it is made of.
pub proof fn lemma_segments_are_groups(s: Seq<u16>)
    ensures
        segments(number_of_groups(s), s.len()) == s,
    decreases s.len(),
{
    if s.len() > 0 {
        let front = s.drop_last();
        lemma_segments_are_groups(front);
        let n = number_of_groups(s);
        assert(n / 65536 == number_of_groups(front));
        assert(n % 65536 == s.last() as nat);
        assert(front.push(s.last()) =~= s);
    }
}

/// A run of zeros is all zeros and ends where the zeros do.
pub proof fn lemma_zero_run_is_whole(s: Seq<u16>, i: nat)
    requires
        i <= s.len(),
    ensures
        i + zero_run(s, i) <= s.len(),
        forall|j: int| i <= j < i + zero_run(s, i) ==> #[trigger] s[j] == 0,
        i + zero_run(s, i) < s.len() ==> s[(i + zero_run(s, i)) as int] != 0,
    decreases s.len() - i,
{
    if i < s.len() && s[i as int] == 0 {
        lemma_zero_run_is_whole(s, i + 1);
    }
}

/// No run of zeros is longer than the one that is left out, and none before it is as long.
pub proof fn lemma_first_longest_run(s: Seq<u16>, n: nat, i: nat)
    requires
        i < n,
    ensures
        longest_run(s, n) < n,
        zero_run(s, i) <= zero_run(s, longest_run(s, n)),
        i < longest_run(s, n) ==> zero_run(s, i) < zero_run(s, longest_run(s, n)),
    decreases n,
{
    if n > 1 {
        let m = (n - 1) as nat;
        if i < m {
            lemma_first_longest_run(s, m, i);
        }
        let best = longest_run(s, m);
        lemma_first_longest_run(s, m, 0);
        if i < m && i < best {
            assert(zero_run(s, i) < zero_run(s, best));
        }
    }
}

/// The number that a text of hexadecimal digits stands for.
pub open spec fn number_of_hex(s: Seq<char>) -> int
    decreases s.len(),
{
    if s.len() == 0 {
        0
    } else {
        number_of_hex(s.drop_last()) * 16 + if s.last() as u32 >= 97 {
            s.last() as u32 - 87
        } else {
            s.last() as u32 - 48
        }
    }
}

/// The hexadecimal text of a number stands for that number, holds digits and lower-case letters up to
/// `f` only, and begins with a zero only if it is a single one.
pub proof fn lemma_hex_stands_for_number(n: nat)
    ensures
        number_of_hex(hex(n)) == n,
        hex(n).len() > 0,
        forall|i: int|
            0 <= i < hex(n).len() ==> (48 <= (#[trigger] hex(n)[i]) as u32 && hex(n)[i] as u32
                <= 57) || (97 <= hex(n)[i] as u32 && hex(n)[i] as u32 <= 102),
        hex(n)[0] == '0' ==> n == 0,
    decreases n,
{
    let last = hex_digit(n % 16);
    if n % 16 < 10 {
        assert(last as u32 == 48 + n % 16);
    } else {
        assert(last as u32 == 87 + n % 16);
    }
    if n < 16 {
        let s = seq![last];
        assert(hex(n) == s);
        assert(s.drop_last() =~= Seq::empty());
        assert(number_of_hex(s.drop_last()) == 0);
        assert(s.last() == last);
    } else {
        lemma_hex_stands_for_number(n / 16);
        let s = hex(n / 16);
        assert(hex(n) == s.push(last));
        assert(s.push(last).drop_last() =~= s);
        assert(s.push(last)[0] == s[0]);
        assert forall|i: int| 0 <= i < hex(n).len() implies (48 <= (#[trigger] hex(n)[i]) as u32
            && hex(n)[i] as u32 <= 57) || (97 <= hex(n)[i] as u32 && hex(n)[i] as u32 <= 102) by {
            if i < s.len() {
                assert(hex(n)[i] == s[i]);
            }
        }
    }
}

/// Groups are written in hexadecimal, in order, with one colon between two of them.
pub proof fn lemma_groups_in_order(a: Seq<u16>, b: Seq<u16>, group: u16)
    ensures
        colons(seq![group]) == hex(group as nat),
        a.len() > 0 && b.len() > 0 ==> colons(a + b) == colons(a) + ":"@ + colons(b),
        colons(Seq::empty()) == Seq::<char>::empty(),
    decreases b.len(),
{
    if a.len() > 0 && b.len() > 0 {
        let all = a + b;
        assert(all.drop_last() =~= a + b.drop_last());
        assert(all.last() == b.last());
        if b.len() == 1 {
            assert(a + b.drop_last() =~= a);
            assert(colons(b) == hex(b[0] as nat));
        } else {
            lemma_groups_in_order(a, b.drop_last(), group);
            assert(colons(all) == colons(a) + ":"@ + colons(b.drop_last()) + ":"@ + hex(
                b.last() as nat,
            ));
            assert(colons(b) == colons(b.drop_last()) + ":"@ + hex(b.last() as nat));
            assert(colons(all) =~= colons(a) + ":"@ + colons(b));
        }
    }
}

/// The text of an IPv6 address holds all its groups but one run of two or more zero groups, in whose
/// place two colons stand: `before` and `after` are what is left of the groups on both sides of it.
/// Where no two zero groups meet, all groups are written.
pub proof fn lemma_ipv6_text_holds_groups(s: Seq<u16>, before: Seq<u16>, zeros: nat, after: Seq<u16>)
    requires
        s.len() == 8,
        !(s[0] == 0 && s[1] == 0 && s[2] == 0 && s[3] == 0 && s[4] == 0 && s[5] == 65535),
        before == s.take(before.len() as int),
        after == s.skip((before.len() + zeros) as int),
        before.len() + zeros + after.len() == 8,
        zeros >= 1,
        forall|i: int| before.len() <= i < before.len() + zeros ==> #[trigger] s[i] == 0,
        after.len() > 0 ==> after[0] != 0,
        forall|i: nat| i < 8 ==> #[trigger] zero_run(s, i) <= zeros,
        forall|i: nat| i < before.len() ==> #[trigger] zero_run(s, i) < zeros,
    ensures
        zeros >= 2 ==> ipv6_text(number_of_groups(s)) == colons(before) + "::"@ + colons(after),
        zeros == 1 ==> ipv6_text(number_of_groups(s)) == colons(s),
{
    lemma_segments_are_groups(s);
    let at = before.len();
    let best = longest_run(s, 8);
    lemma_zero_run_is_whole(s, at);
    let run = zero_run(s, at);
    assert(run == zeros) by {
        if run < zeros {
            assert(s[(at + run) as int] == 0);
        }
        if run > zeros {
            assert(s[(at + zeros) as int] == 0);
            assert(after[0] == s[(at + zeros) as int]);
        }
    }
    lemma_first_longest_run(s, 8, at);
    assert(zero_run(s, best) <= zeros);
    if best < at {
        assert(zero_run(s, best) < zeros);
    }
    if best > at {
        assert(zero_run(s, at) < zero_run(s, best));
    }
    assert(best == at);
}

/// The text of a server is that of its address and its port; an IPv6 address stands in brackets, so
/// that its colons are not taken for that of the port.
pub proof fn lemma_server_text(ipv4: u32, ipv6: u128, port: u16)
    ensures
        address_text(Address::V4(ipv4), port) == host_text(Address::V4(ipv4)) + ":"@ + decimal(
            port as nat,
        ),
        address_text(Address::V6(ipv6), port) == "["@ + host_text(Address::V6(ipv6)) + "]:"@
            + decimal(port as nat),
        address_text(Address::Unknown, port) == "unknown:"@ + decimal(port as nat),
        host_text(Address::V4(ipv4)) == ipv4_text(ipv4 as nat),
        host_text(Address::V6(ipv6)) == ipv6_text(ipv6 as nat),
{
}

/// An IPv6 address that stands for an IPv4 address ends in the text of that.
pub proof fn lemma_mapped_address_shows_ipv4(ip: u32)
    ensures
        ipv6_text((281_470_681_743_360 + ip) as nat) == "::ffff:"@ + ipv4_text(ip as nat),
{
    let groups = seq![0u16, 0, 0, 0, 0, 65535, (ip / 65536) as u16, (ip % 65536) as u16];
    lemma_segments_are_groups(groups);
    reveal_with_fuel(number_of_groups, 9);
    assert(groups.drop_last() =~= seq![0u16, 0, 0, 0, 0, 65535, (ip / 65536) as u16]);
    assert(groups.drop_last().drop_last() =~= seq![0u16, 0, 0, 0, 0, 65535]);
    assert(seq![0u16, 0, 0, 0, 0, 65535].drop_last() =~= seq![0u16, 0, 0, 0, 0]);
    assert(seq![0u16, 0, 0, 0, 0].drop_last() =~= seq![0u16, 0, 0, 0]);
    assert(seq![0u16, 0, 0, 0].drop_last() =~= seq![0u16, 0, 0]);
    assert(seq![0u16, 0, 0].drop_last() =~= seq![0u16, 0]);
    assert(seq![0u16, 0].drop_last() =~= seq![0u16]);
    assert(seq![0u16].drop_last() =~= Seq::<u16>::empty());
    assert(number_of_groups(seq![0u16, 0, 0, 0, 0]) == 0);
    assert(number_of_groups(seq![0u16, 0, 0, 0, 0, 65535]) == 65535);
    assert(number_of_groups(groups) == 281_470_681_743_360 + ip);
    assert((281_470_681_743_360 + ip) as nat % 4294967296 == ip as nat);
}

} // verus!
