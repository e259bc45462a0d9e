//! The event hash that drives the relocation trigger.
//!
//! Every processed churn event is hashed over a canonical byte encoding:
//! the event's address (8 bytes, big-endian), a one-byte kind tag, and the
//! global event sequence number (8 bytes, big-endian). The sequence number
//! keeps two events with identical fields from hashing alike. This encoding
//! is a stable, versioned contract: changing it changes which events trigger
//! relocations and breaks reproducibility across implementations.

use vstd::prelude::*;
use tiny_keccak::Hasher;

verus! {

/// The first eight bytes, little-endian, of the Keccak-256 digest of a byte
/// string.
pub uninterp spec fn keccak_low64(bytes: Seq<u8>) -> u64;

/// Relies on tiny_keccak's `Keccak::v256` with `Hasher::update` and
/// `Hasher::finalize`: the digest is a function of the input bytes alone;
/// this wrapper returns its first eight bytes as a little-endian word.
#[verifier::external_body]
fn keccak64(bytes: &Vec<u8>) -> (r: u64)
    ensures
        r == keccak_low64(bytes@),
{
    let mut k = tiny_keccak::Keccak::v256();
    k.update(bytes.as_slice());
    let mut out = [0u8; 32];
    k.finalize(&mut out);
    u64::from_le_bytes([out[0], out[1], out[2], out[3], out[4], out[5], out[6], out[7]])
}

/// The eight big-endian bytes of a 64-bit word.
pub open spec fn be_bytes(x: u64) -> Seq<u8> {
    seq![
        (x >> 56u64) as u8,
        (x >> 48u64) as u8,
        (x >> 40u64) as u8,
        (x >> 32u64) as u8,
        (x >> 24u64) as u8,
        (x >> 16u64) as u8,
        (x >> 8u64) as u8,
        x as u8,
    ]
}

/// The canonical encoding of an event for hashing: address, kind tag,
/// sequence number.
pub open spec fn spec_encoding(addr: u64, kind: u8, seqno: u64) -> Seq<u8> {
    be_bytes(addr) + seq![kind] + be_bytes(seqno)
}

/// Append the big-endian bytes of `x` to `out`.
fn push_be_bytes(out: &mut Vec<u8>, x: u64)
    ensures
        final(out)@ == old(out)@ + be_bytes(x),
{
    out.push((x >> 56u64) as u8);
    out.push((x >> 48u64) as u8);
    out.push((x >> 40u64) as u8);
    out.push((x >> 32u64) as u8);
    out.push((x >> 24u64) as u8);
    out.push((x >> 16u64) as u8);
    out.push((x >> 8u64) as u8);
    out.push(x as u8);
    proof {
        assert(out@ =~= old(out)@ + be_bytes(x));
    }
}

/// Hash an event's canonical content.
pub fn event_hash(addr: u64, kind: u8, seqno: u64) -> (r: u64)
    ensures
        r == keccak_low64(spec_encoding(addr, kind, seqno)),
{
    let mut buf: Vec<u8> = Vec::new();
    push_be_bytes(&mut buf, addr);
    buf.push(kind);
    push_be_bytes(&mut buf, seqno);
    proof {
        assert(buf@ =~= spec_encoding(addr, kind, seqno));
    }
    keccak64(&buf)
}

} // verus!
