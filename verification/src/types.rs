//! Plain-value models of the domain objects the relay logic reads.

use vstd::prelude::*;

verus! {

/// Identifies a connected peer on the transport.
pub type PeerIndex = usize;

/// A 256-bit digest, stored as four 64-bit little-endian limbs.
/// `w0` holds bytes 0..8 of the digest, `w1` bytes 8..16, and so on.
#[derive(Clone, Copy, PartialEq, Eq, Structural, Debug)]
pub struct H256 {
    pub w0: u64,
    pub w1: u64,
    pub w2: u64,
    pub w3: u64,
}

/// The byte at position `k` of the little-endian encoding of `w`.
pub open spec fn le_byte(w: u64, k: int) -> u8 {
    (w >> (8 * k as u64)) as u8
}

/// The 8-byte little-endian encoding of `w`.
pub open spec fn u64_le_bytes(w: u64) -> Seq<u8> {
    Seq::new(8, |k: int| le_byte(w, k))
}

/// The 32-byte encoding of a digest: the limbs in order, little-endian each.
pub open spec fn h256_bytes(h: H256) -> Seq<u8> {
    u64_le_bytes(h.w0) + u64_le_bytes(h.w1) + u64_le_bytes(h.w2) + u64_le_bytes(h.w3)
}

/// Appends the little-endian bytes of `w` to `out`.
pub fn push_u64_le(out: &mut Vec<u8>, w: u64)
    ensures
        final(out)@ == old(out)@ + u64_le_bytes(w),
{
    let mut k: usize = 0;
    while k < 8
        invariant
            k <= 8,
            out@ == old(out)@ + u64_le_bytes(w).take(k as int),
        decreases 8 - k,
    {
        let b: u8 = (w >> ((8 * k) as u64)) as u8;
        assert(b == le_byte(w, k as int));
        out.push(b);
        assert(u64_le_bytes(w).take(k + 1 as int) == u64_le_bytes(w).take(k as int).push(b));
        k += 1;
    }
    assert(u64_le_bytes(w).take(8) == u64_le_bytes(w));
}

impl H256 {
    /// The 32-byte encoding of this digest.
    pub fn to_bytes(&self) -> (r: Vec<u8>)
        ensures
            r@ == h256_bytes(*self),
    {
        let mut out: Vec<u8> = Vec::new();
        push_u64_le(&mut out, self.w0);
        push_u64_le(&mut out, self.w1);
        push_u64_le(&mut out, self.w2);
        push_u64_le(&mut out, self.w3);
        out
    }
}

/// A short identifier announcing a transaction for a proposal slot:
/// the first ten bytes of the transaction's hash, packed as integers
/// (`lo` holds bytes 0..8, `hi` bytes 8..10).
#[derive(Clone, Copy, PartialEq, Eq, Structural, Debug)]
pub struct ProposalShortId {
    pub lo: u64,
    pub hi: u16,
}

/// The proposal short id belonging to the transaction with hash `h`.
pub open spec fn proposal_id_of(h: H256) -> ProposalShortId {
    ProposalShortId { lo: h.w0, hi: (h.w1 & 0xffff) as u16 }
}

/// Computes the proposal short id of the transaction with hash `h`.
pub fn proposal_short_id(h: &H256) -> (r: ProposalShortId)
    ensures
        r == proposal_id_of(*h),
{
    ProposalShortId { lo: h.w0, hi: (h.w1 & 0xffff) as u16 }
}

/// A transaction as the relay reads it: the hash identifies it; the body
/// stays with the collaborators that produce and consume it.
#[derive(Clone, Copy, PartialEq, Eq, Structural, Debug)]
pub struct Transaction {
    pub hash: H256,
}

/// A block header as the relay reads it: its own hash, the proof-of-work
/// nonce, and the block number.
#[derive(Clone, Copy, PartialEq, Eq, Structural, Debug)]
pub struct Header {
    pub hash: H256,
    pub nonce: u64,
    pub number: u64,
}

} // verus!
