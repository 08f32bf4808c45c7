//! Salted short transaction ids.
//!
//! A compact block carries, for most commit transactions, only a 48-bit
//! short id: a keyed SipHash of the transaction hash, truncated. The keys
//! are derived from the block header's proof-of-work nonce and a salt the
//! sender chose freshly for the block, so an adversary cannot precompute
//! short-id collisions.

use vstd::prelude::*;
use crate::types::{h256_bytes, H256, Transaction};

verus! {

/// A short transaction id: the low 48 bits of the salted digest.
#[derive(Clone, Copy, PartialEq, Eq, Structural, Debug)]
pub struct ShortId {
    pub v: u64,
}

/// What SipHash-2-4 with keys `(key0, key1)` returns on `data`.
pub uninterp spec fn sip_of(key0: u64, key1: u64, data: Seq<u8>) -> u64;

/// Relies on siphasher's SipHasher24: a keyed SipHash-2-4 of the input
/// bytes, a function of the keys and the bytes alone.
#[verifier::external_body]
fn sip_hash(key0: u64, key1: u64, data: &Vec<u8>) -> (r: u64)
    ensures
        r == sip_of(key0, key1, data@),
{
    let mut hasher = siphasher::sip::SipHasher24::new_with_keys(key0, key1);
    std::hash::Hasher::write(&mut hasher, data.as_slice());
    std::hash::Hasher::finish(&hasher)
}

/// What SHA3-256 returns on `data`.
pub uninterp spec fn sha3_of(data: Seq<u8>) -> Seq<u8>;

/// Relies on tiny-keccak's Sha3::v256: the 32-byte SHA3-256 digest of the
/// input bytes, a function of the bytes alone.
#[verifier::external_body]
fn sha3_256(data: &Vec<u8>) -> (r: Vec<u8>)
    ensures
        r@ == sha3_of(data@),
        r@.len() == 32,
{
    let mut sha = tiny_keccak::Sha3::v256();
    tiny_keccak::Hasher::update(&mut sha, data.as_slice());
    let mut out = [0u8; 32];
    tiny_keccak::Hasher::finalize(sha, &mut out);
    out.to_vec()
}

/// The 16-byte key-derivation input: the header nonce then the sender's
/// salt, little-endian each.
pub open spec fn key_material(header_nonce: u64, nonce: u64) -> Seq<u8> {
    crate::types::u64_le_bytes(header_nonce) + crate::types::u64_le_bytes(nonce)
}

/// The unsigned value of the eight little-endian bytes `d[start..start + 8]`.
pub open spec fn u64_from_le(d: Seq<u8>, start: int) -> u64 {
    (d[start] as u64)
        | (d[start + 1] as u64) << 8u64
        | (d[start + 2] as u64) << 16u64
        | (d[start + 3] as u64) << 24u64
        | (d[start + 4] as u64) << 32u64
        | (d[start + 5] as u64) << 40u64
        | (d[start + 6] as u64) << 48u64
        | (d[start + 7] as u64) << 56u64
}

/// The first short-id key for a block: bytes 0..8 of the SHA3-256 digest
/// of the key material.
pub open spec fn key0_of(header_nonce: u64, nonce: u64) -> u64 {
    u64_from_le(sha3_of(key_material(header_nonce, nonce)), 0)
}

/// The second short-id key: bytes 8..16 of the same digest.
pub open spec fn key1_of(header_nonce: u64, nonce: u64) -> u64 {
    u64_from_le(sha3_of(key_material(header_nonce, nonce)), 8)
}

/// Reads the eight little-endian bytes of `d` starting at `start`.
fn read_u64_le(d: &Vec<u8>, start: usize) -> (r: u64)
    requires
        start + 8 <= d@.len(),
    ensures
        r == u64_from_le(d@, start as int),
{
    let n: usize = d.len();
    assert(start + 8 <= n);
    (d[start] as u64)
        | (d[start + 1] as u64) << 8u64
        | (d[start + 2] as u64) << 16u64
        | (d[start + 3] as u64) << 24u64
        | (d[start + 4] as u64) << 32u64
        | (d[start + 5] as u64) << 40u64
        | (d[start + 6] as u64) << 48u64
        | (d[start + 7] as u64) << 56u64
}

/// Derives the pair of SipHash keys for a block from its header nonce and
/// the sender-chosen salt.
pub fn short_transaction_id_keys(header_nonce: u64, nonce: u64) -> (r: (u64, u64))
    ensures
        r.0 == key0_of(header_nonce, nonce),
        r.1 == key1_of(header_nonce, nonce),
{
    let mut material: Vec<u8> = Vec::new();
    crate::types::push_u64_le(&mut material, header_nonce);
    crate::types::push_u64_le(&mut material, nonce);
    assert(material@ == key_material(header_nonce, nonce));
    let digest = sha3_256(&material);
    (read_u64_le(&digest, 0), read_u64_le(&digest, 8))
}

/// The short id of the transaction with hash `h`, under keys `(key0, key1)`:
/// the low 48 bits of the salted SipHash of the hash bytes.
pub open spec fn short_id_of(key0: u64, key1: u64, h: H256) -> ShortId {
    ShortId { v: sip_of(key0, key1, h256_bytes(h)) & 0xffff_ffff_ffff }
}

/// Computes the short id of the transaction with hash `h`.
pub fn short_transaction_id(key0: u64, key1: u64, h: &H256) -> (r: ShortId)
    ensures
        r == short_id_of(key0, key1, *h),
{
    let bytes = h.to_bytes();
    let digest = sip_hash(key0, key1, &bytes);
    ShortId { v: digest & 0xffff_ffff_ffff }
}

/// Short-id stability: under fixed keys, the short id depends on the
/// transaction's hash alone, so transactions with equal hashes always
/// receive equal short ids. The converse — that distinct hashes never
/// share a short id — cannot hold of a 48-bit digest of a 256-bit hash;
/// the reconstructor tolerates such collisions by reporting a miss that
/// a follow-up request recovers.
pub proof fn lemma_short_id_stable(key0: u64, key1: u64, a: Transaction, b: Transaction)
    requires
        a.hash == b.hash,
    ensures
        short_id_of(key0, key1, a.hash) == short_id_of(key0, key1, b.hash),
{
}

} // verus!
