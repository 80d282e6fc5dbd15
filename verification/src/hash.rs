//! The 64-bit FNV-1a hash.

use vstd::prelude::*;

verus! {

/// The FNV-1a offset basis.
pub const FNV_OFFSET: u64 = 0xcbf2_9ce4_8422_2325;

/// The FNV-1a prime.
pub const FNV_PRIME: u64 = 0x0000_0100_0000_01b3;

/// One FNV-1a step: fold a byte in, then multiply.
pub open spec fn fnv1a_step(hash: u64, byte: u8) -> u64 {
    (hash ^ (byte as u64)).wrapping_mul(FNV_PRIME)
}

/// The FNV-1a hash of a byte sequence.
pub open spec fn fnv1a(bytes: Seq<u8>) -> u64
    decreases bytes.len(),
{
    if bytes.len() == 0 {
        FNV_OFFSET
    } else {
        fnv1a_step(fnv1a(bytes.drop_last()), bytes.last())
    }
}

/// The FNV-1a hash of a text, taken over its UTF-8 bytes.
pub open spec fn text_hash(s: Seq<char>) -> u64 {
    fnv1a(vstd::utf8::encode_utf8(s))
}

/// Hashes a byte slice.
pub fn fnv1a_hash(bytes: &[u8]) -> (r: u64)
    ensures
        r == fnv1a(bytes@),
{
    let mut hash: u64 = FNV_OFFSET;
    let mut i: usize = 0;
    while i < bytes.len()
        invariant
            i <= bytes.len(),
            hash == fnv1a(bytes@.take(i as int)),
        decreases bytes.len() - i,
    {
        assert(bytes@.take(i as int + 1).drop_last() =~= bytes@.take(i as int));
        hash = (hash ^ (bytes[i] as u64)).wrapping_mul(FNV_PRIME);
        i += 1;
    }
    assert(bytes@.take(i as int) =~= bytes@);
    hash
}

/// The hash of a text follows from that of all but its last byte: that byte is folded into the low
/// bits, and the result times the FNV prime is taken modulo the range of the hash. Where there are no
/// bytes the hash is the offset basis. A text hashes as all its UTF-8 bytes do.
pub proof fn lemma_hash_takes_bytes_in_turn(bytes: Seq<u8>, byte: u8, text: Seq<char>)
    ensures
        text_hash(text) == fnv1a(vstd::utf8::encode_utf8(text)),
        fnv1a(bytes.push(byte)) == ((fnv1a(bytes) ^ (byte as u64)) * 1_099_511_628_211)
            % 18_446_744_073_709_551_616,
        fnv1a(Seq::empty()) == 14_695_981_039_346_656_037,
{
    let all = bytes.push(byte);
    assert(all.drop_last() =~= bytes);
    assert(all.last() == byte);
    let x: u64 = fnv1a(bytes) ^ (byte as u64);
    let product = x as int * 1_099_511_628_211;
    assert(x.wrapping_mul(1_099_511_628_211) as int == product % 18_446_744_073_709_551_616);
}

} // verus!
