use kelvin::hamt::merkle::{HashTrie, Proof};
use kelvin::hamt::{NarrowHAMT, HAMT};
use kelvin::map::KV;

/// A narrow trie holding `i -> i` for the keys below `n`.
fn filled_narrow(n: u64) -> NarrowHAMT<u64> {
    let mut hamt = NarrowHAMT::new();
    for i in 0..n {
        assert_eq!(hamt.insert(i, i), None);
    }
    hamt
}

#[test]
fn merkle_proof() {
    let n = 16;

    // make and check proof that 0..n is in the hamt
    for i in 0..n {
        let mut cloned = filled_narrow(n * 64);

        let proof = Proof::new(&cloned, i).unwrap();

        assert_eq!(proof.prove_member(&cloned), Some(&KV { key: i, val: i }));

        cloned.insert(3, 8);

        assert_eq!(proof.prove_member(&cloned), None);
    }
}

#[test]
fn no_proof_for_absent_key() {
    let hamt = filled_narrow(100);
    assert!(Proof::new(&hamt, 100).is_none());
    let empty: HAMT<u64> = HAMT::new();
    assert!(Proof::new(&empty, 0).is_none());
}

#[test]
fn proof_against_other_trie() {
    let mut a = HAMT::new();
    let mut b = HAMT::new();
    for i in 0..200u64 {
        a.insert(i, i);
        b.insert(i, i + 1);
    }
    let proof = Proof::new(&a, 7).unwrap();
    assert_eq!(proof.prove_member(&a), Some(&KV { key: 7, val: 7 }));
    assert_eq!(proof.prove_member(&b), None);
}

#[test]
fn root_hash_follows_contents() {
    let mut a = HAMT::new();
    let mut b = HAMT::new();
    for i in 0..300u64 {
        a.insert(i, i * 3);
        b.insert(299 - i, (299 - i) * 3);
    }
    assert_eq!(a.root_hash(), b.root_hash());
    let before = a.root_hash();
    a.insert(1000, 1);
    assert_ne!(a.root_hash(), before);
    a.remove(1000);
    assert_eq!(a.root_hash(), before);
}

#[test]
fn empty_roots_hash_their_empty_slots() {
    let wide: HAMT<u64> = HAMT::new();
    let narrow: NarrowHAMT<u64> = NarrowHAMT::new();
    assert_ne!(wide.root_hash(), narrow.root_hash());
}
