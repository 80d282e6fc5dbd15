//! Which HTTP version each backend speaks.

use vstd::prelude::*;
use vstd::string::*;
use crate::table::Table;
use crate::text::{decimal, decimal_text};

verus! {

/// The HTTP version that a backend speaks.
#[derive(Debug, Clone, Copy, PartialEq, Eq, Structural)]
pub enum HttpProtocol {
    Http1,
    Http2,
}

/// The key of what is known of the server at a host and port.
pub open spec fn host_port(host: Seq<char>, port: u16) -> Seq<char> {
    host + ":"@ + decimal(port as nat)
}

/// The key of what is known of the server at a host and port.
pub(crate) fn host_port_key(host: &str, port: u16) -> (r: String)
    ensures
        r@ == host_port(host@, port),
{
    let mut key = host.to_owned();
    key.append(":");
    let digits = decimal_text(port as u64);
    key.append(digits.as_str());
    key
}

/// What is known of the backends, by `host:port`.
pub struct ProtocolCache {
    known: Table<String, HttpProtocol>,
}

impl ProtocolCache {
    /// What is known.
    pub closed spec fn known(&self) -> Map<Seq<char>, HttpProtocol> {
        self.known.map()
    }

    /// No backend is known twice.
    pub closed spec fn wf(&self) -> bool {
        self.known.wf()
    }

    /// What is known of one backend.
    pub open spec fn of(&self, key: Seq<char>) -> Option<HttpProtocol> {
        if self.known().contains_key(key) {
            Some(self.known()[key])
        } else {
            None
        }
    }

    /// Nothing is known.
    pub fn new() -> (r: Self)
        ensures
            r.wf(),
            r.known() == Map::<Seq<char>, HttpProtocol>::empty(),
    {
        ProtocolCache { known: Table::new() }
    }

    /// Looks a backend up.
    pub fn get(&self, key: &str) -> (r: Option<HttpProtocol>)
        requires
            self.wf(),
        ensures
            r == self.of(key@),
    {
        match self.known.get(key) {
            Some(p) => Some(*p),
            None => None,
        }
    }

    /// Remembers what a backend speaks.
    pub fn learn(&mut self, key: &str, protocol: HttpProtocol)
        requires
            old(self).wf(),
        ensures
            final(self).wf(),
            final(self).known() == old(self).known().insert(key@, protocol),
    {
        self.known.insert(key, protocol);
    }

    /// Remembers that the backend at a host and port speaks HTTP/2.
    pub fn set_backend_protocol_http2(&mut self, backend_host: &str, backend_port: u16)
        requires
            old(self).wf(),
        ensures
            final(self).wf(),
            final(self).known() == old(self).known().insert(
                host_port(backend_host@, backend_port),
                HttpProtocol::Http2,
            ),
    {
        let key = host_port_key(backend_host, backend_port);
        self.learn(key.as_str(), HttpProtocol::Http2);
    }
}

/// The bytes with which an HTTP/2 connection begins: `PRI * HTTP/2.0`, `SM` and line breaks.
pub open spec fn http2_preface() -> Seq<u8> {
    seq![
        80u8, 82, 73, 32, 42, 32, 72, 84, 84, 80, 47, 50, 46, 48, 13, 10, 13, 10, 83, 77, 13, 10, 13,
        10,
    ]
}

/// Whether the first bytes of a plain connection announce HTTP/2.
pub fn is_h2c(peeked: &[u8]) -> (r: bool)
    ensures
        r == http2_preface().is_prefix_of(peeked@),
{
    let preface: [u8; 24] = [
        80, 82, 73, 32, 42, 32, 72, 84, 84, 80, 47, 50, 46, 48, 13, 10, 13, 10, 83, 77, 13, 10, 13,
        10,
    ];
    assert(preface@ =~= http2_preface());
    if peeked.len() < 24 {
        return false;
    }
    let mut i: usize = 0;
    while i < 24
        invariant
            i <= 24,
            preface@ == http2_preface(),
            peeked.len() >= 24,
            forall|j: int| 0 <= j < i ==> peeked@[j] == preface@[j],
        decreases 24 - i,
    {
        if peeked[i] != preface[i] {
            assert(peeked@[i as int] != http2_preface()[i as int]);
            assert(!http2_preface().is_prefix_of(peeked@)) by {
                assert(peeked@.subrange(0, 24)[i as int] == peeked@[i as int]);
            }
            return false;
        }
        i += 1;
    }
    assert(http2_preface() =~= peeked@.subrange(0, 24));
    true
}

/// Whether a TLS connection negotiated HTTP/2: its application protocol is `h2`.
pub fn is_h2_alpn(protocol: Option<&[u8]>) -> (r: bool)
    ensures
        r == match protocol {
            Some(p) => p@ == seq![104u8, 50u8],
            None => false,
        },
{
    match protocol {
        Some(p) => {
            let r: bool = p.len() == 2 && p[0] == 104 && p[1] == 50;
            assert(r ==> p@ =~= seq![104u8, 50u8]);
            r
        },
        None => false,
    }
}

/// What is known of a server goes by its host and port: the key begins with the host, and what
/// stands behind the colon is the number of the port, so no two ports of a host share a key.
pub proof fn lemma_keys_hold_host_and_port(host: Seq<char>, port: u16, other: u16)
    ensures
        ({
            let key = host_port(host, port);
            &&& (host + ":"@).is_prefix_of(key)
            &&& crate::text::number_of(key.subrange(host.len() as int + 1, key.len() as int))
                == port
        }),
        port != other ==> host_port(host, port) != host_port(host, other),
{
    reveal_strlit(":");
    let key = host_port(host, port);
    let start = host + ":"@;
    assert(key.subrange(0, start.len() as int) =~= start);
    assert(key.subrange(host.len() as int + 1, key.len() as int) =~= decimal(port as nat));
    crate::text::lemma_decimal_stands_for_number(port as nat);
    crate::text::lemma_decimal_stands_for_number(other as nat);
    let key2 = host_port(host, other);
    assert(key2.subrange(host.len() as int + 1, key2.len() as int) =~= decimal(other as nat));
}

/// A plain connection announces HTTP/2 with these characters, byte for byte.
pub proof fn lemma_preface_is_text(i: int)
    requires
        0 <= i < 24,
    ensures
        http2_preface().len() == 24,
        "PRI * HTTP/2.0\r\n\r\nSM\r\n\r\n"@.len() == 24,
        http2_preface()[i] as u32 == "PRI * HTTP/2.0\r\n\r\nSM\r\n\r\n"@[i] as u32,
{
    reveal_strlit("PRI * HTTP/2.0\r\n\r\nSM\r\n\r\n");
}

} // verus!
