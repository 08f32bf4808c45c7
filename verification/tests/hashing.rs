use compact_relay::short_id::{short_transaction_id, short_transaction_id_keys};
use compact_relay::types::{proposal_short_id, H256};

#[test]
fn h256_bytes_are_little_endian_limbs() {
    let h = H256 {
        w0: 0x0807_0605_0403_0201,
        w1: 0x100f_0e0d_0c0b_0a09,
        w2: 0,
        w3: 0xff00_0000_0000_0000,
    };
    let bytes = h.to_bytes();
    assert_eq!(bytes.len(), 32);
    assert_eq!(&bytes[0..8], &[1, 2, 3, 4, 5, 6, 7, 8]);
    assert_eq!(&bytes[8..16], &[9, 10, 11, 12, 13, 14, 15, 16]);
    assert_eq!(&bytes[16..24], &[0; 8]);
    assert_eq!(&bytes[24..32], &[0, 0, 0, 0, 0, 0, 0, 0xff]);
}

#[test]
fn proposal_short_id_is_hash_prefix() {
    let h = H256 { w0: 0xdead_beef, w1: 0xffff_1234, w2: 9, w3: 9 };
    let pid = proposal_short_id(&h);
    assert_eq!(pid.lo, 0xdead_beef);
    assert_eq!(pid.hi, 0x1234);
}

#[test]
fn key_derivation_depends_on_both_nonces() {
    let base = short_transaction_id_keys(0x1111, 0x2222);
    assert_eq!(base, short_transaction_id_keys(0x1111, 0x2222));
    assert_ne!(base, short_transaction_id_keys(0x1112, 0x2222));
    assert_ne!(base, short_transaction_id_keys(0x1111, 0x2223));
    // the two keys come from different halves of the digest
    assert_ne!(base.0, base.1);
    // and the digest scrambles the nonces rather than echoing them
    assert_ne!(base.0, 0x1111);
    assert_ne!(base.1, 0x2222);
}

#[test]
fn short_id_depends_on_keys_and_hash_alone() {
    let h1 = H256 { w0: 1, w1: 2, w2: 3, w3: 4 };
    let same = H256 { w0: 1, w1: 2, w2: 3, w3: 4 };
    let other = H256 { w0: 1, w1: 2, w2: 3, w3: 5 };
    let (k0, k1) = short_transaction_id_keys(7, 8);
    let s1 = short_transaction_id(k0, k1, &h1);
    assert_eq!(s1, short_transaction_id(k0, k1, &same));
    assert_ne!(s1, short_transaction_id(k0, k1, &other));
    let (j0, j1) = short_transaction_id_keys(7, 9);
    assert_ne!(s1, short_transaction_id(j0, j1, &h1));
    // a short id is 48 bits wide, and a salted digest, not an echo of
    // the hash or the keys
    assert!(s1.v <= 0xffff_ffff_ffff);
    assert_ne!(s1.v, h1.w0 & 0xffff_ffff_ffff);
    assert_ne!(s1.v, k0 & 0xffff_ffff_ffff);
}
