use std::collections::hash_map::DefaultHasher;
use std::hash::{Hash, Hasher};

use kelvin::content::Sink;
use kelvin::hashing::key_hash;

#[test]
fn key_hash_is_default_hasher_of_key() {
    for k in [0u64, 1, 28, 0x0102_0304_0506_0708, u64::MAX] {
        let mut hasher = DefaultHasher::new();
        k.hash(&mut hasher);
        assert_eq!(key_hash(k), hasher.finish().to_be_bytes());
    }
    assert_ne!(key_hash(1), 1u64.to_be_bytes());
}

#[test]
fn empty_sink_digest_is_blake2b_256_of_nothing() {
    let expected: [u8; 32] = [
        0x0e, 0x57, 0x51, 0xc0, 0x26, 0xe5, 0x43, 0xb2, 0xe8, 0xab, 0x2e, 0xb0, 0x60, 0x99, 0xda,
        0xa1, 0xd1, 0xe5, 0xdf, 0x47, 0x77, 0x8f, 0x77, 0x87, 0xfa, 0xab, 0x45, 0xcd, 0xf1, 0x2f,
        0xe3, 0xa8,
    ];
    assert_eq!(Sink::new().fin_dry(), expected);
}
