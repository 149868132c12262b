//! Laws of the library: the trees and tries behave as the map model over any
//! sequence of operations, and laws stated over the views that the
//! operations' contracts use: the folds of the annotations and the bytes of
//! content.
use vstd::prelude::*;

use crate::annotations::{fold_op, Associative, Cardinality};
use crate::content::{lemma_seq_encoding_elements, seq_encoding, Content};
use crate::hashing::{
    lemma_u16_be_injective, lemma_u32_be_injective, lemma_u64_be_injective, u64_be,
};
use crate::btree::BTree;
use crate::hamt::{collide, HAMT};
use crate::radix::{Radix, MAX_KEY_LEN};
use crate::store::{lemma_restore_persisted, starts_with};
use crate::two3::Two3Tree;

verus! {

/// An operation on a map from `u64` keys to `u64` values.
#[derive(Clone, Copy, Debug, PartialEq, Eq, Structural)]
pub enum MapOp {
    /// Store a value under a key.
    Insert(u64, u64),
    /// Read the value under a key.
    Get(u64),
    /// Remove the value under a key.
    Remove(u64),
}

/// What one operation does to the map `m`, and what it answers: the value
/// stored under the key before the operation, if any.
pub open spec fn model_step(m: Map<u64, u64>, op: MapOp) -> (Map<u64, u64>, Option<u64>) {
    match op {
        MapOp::Insert(k, v) => (m.insert(k, v), m.get(k)),
        MapOp::Get(k) => (m, m.get(k)),
        MapOp::Remove(k) => (m.remove(k), m.get(k)),
    }
}

/// The map after the operations `ops`, applied in order to `m`, and their
/// answers.
pub open spec fn model_run(m: Map<u64, u64>, ops: Seq<MapOp>) -> (Map<u64, u64>, Seq<Option<u64>>)
    decreases ops.len(),
{
    if ops.len() == 0 {
        (m, Seq::empty())
    } else {
        let (m1, out) = model_run(m, ops.drop_last());
        let (m2, o) = model_step(m1, ops.last());
        (m2, out.push(o))
    }
}

/// Law: a 2-3 tree behaves as the map model. Applying any sequence of
/// inserts, reads and removals to it leaves it holding the map the model
/// ends with, and each operation answers what the model answers.
pub fn run_ops_two3(t: &mut Two3Tree<u64>, ops: &Vec<MapOp>) -> (r: Vec<Option<u64>>)
    requires
        old(t)@.len() + ops@.len() < u64::MAX,
    ensures
        final(t)@ == model_run(old(t)@, ops@).0,
        r@ == model_run(old(t)@, ops@).1,
{
    let ghost m0 = t@;
    let _ = t.count();
    let mut out: Vec<Option<u64>> = Vec::new();
    let mut i: usize = 0;
    while i < ops.len()
        invariant
            i <= ops@.len(),
            t@.dom().finite(),
            t@.len() <= m0.len() + i,
            m0.len() + ops@.len() < u64::MAX,
            t@ == model_run(m0, ops@.take(i as int)).0,
            out@ == model_run(m0, ops@.take(i as int)).1,
        decreases ops@.len() - i,
    {
        let op = ops[i];
        proof {
            assert(ops@.take(i + 1).drop_last() =~= ops@.take(i as int));
            assert(ops@.take(i + 1).last() == op);
        }
        let o = match op {
            MapOp::Insert(k, v) => t.insert(k, v),
            MapOp::Get(k) => match t.get(k) {
                Some(x) => Some(*x),
                None => None,
            },
            MapOp::Remove(k) => t.remove(k),
        };
        out.push(o);
        i = i + 1;
    }
    proof {
        assert(ops@.take(ops@.len() as int) =~= ops@);
    }
    out
}

/// Law: a B-tree behaves as the map model, as `run_ops_two3` states of a
/// 2-3 tree.
pub fn run_ops_btree(t: &mut BTree<u64>, ops: &Vec<MapOp>) -> (r: Vec<Option<u64>>)
    requires
        old(t)@.len() + ops@.len() < u64::MAX,
    ensures
        final(t)@ == model_run(old(t)@, ops@).0,
        r@ == model_run(old(t)@, ops@).1,
{
    let ghost m0 = t@;
    let _ = t.tree().count();
    let mut out: Vec<Option<u64>> = Vec::new();
    let mut i: usize = 0;
    while i < ops.len()
        invariant
            i <= ops@.len(),
            t@.dom().finite(),
            t@.len() <= m0.len() + i,
            m0.len() + ops@.len() < u64::MAX,
            t@ == model_run(m0, ops@.take(i as int)).0,
            out@ == model_run(m0, ops@.take(i as int)).1,
        decreases ops@.len() - i,
    {
        let op = ops[i];
        proof {
            assert(ops@.take(i + 1).drop_last() =~= ops@.take(i as int));
            assert(ops@.take(i + 1).last() == op);
        }
        let o = match op {
            MapOp::Insert(k, v) => t.insert(k, v),
            MapOp::Get(k) => match t.get(k) {
                Some(x) => Some(*x),
                None => None,
            },
            MapOp::Remove(k) => t.remove(k),
        };
        out.push(o);
        i = i + 1;
    }
    proof {
        assert(ops@.take(ops@.len() as int) =~= ops@);
    }
    out
}

/// The key an operation is about.
pub open spec fn map_op_key(op: MapOp) -> u64 {
    match op {
        MapOp::Insert(k, _) => k,
        MapOp::Get(k) => k,
        MapOp::Remove(k) => k,
    }
}

/// Law: a hash array mapped trie behaves as the map model, for operations
/// whose keys collide neither with each other nor with a key already held.
pub fn run_ops_hamt(t: &mut HAMT<u64>, ops: &Vec<MapOp>) -> (r: Vec<Option<u64>>)
    requires
        forall|i: int, j: int|
            0 <= i < ops@.len() && 0 <= j < ops@.len() && map_op_key(ops@[i]) != map_op_key(ops@[j])
                ==> !collide(#[trigger] map_op_key(ops@[i]), #[trigger] map_op_key(ops@[j]), true),
        forall|x: u64, i: int|
            #![trigger old(t)@.contains_key(x), ops@[i]]
            0 <= i < ops@.len() && old(t)@.contains_key(x) && x != map_op_key(ops@[i]) ==> !collide(
                x,
                map_op_key(ops@[i]),
                true,
            ),
    ensures
        final(t)@ == model_run(old(t)@, ops@).0,
        r@ == model_run(old(t)@, ops@).1,
{
    let ghost m0 = t@;
    let mut out: Vec<Option<u64>> = Vec::new();
    let mut i: usize = 0;
    while i < ops.len()
        invariant
            i <= ops@.len(),
            forall|a: int, b: int|
                0 <= a < ops@.len() && 0 <= b < ops@.len() && map_op_key(ops@[a]) != map_op_key(ops@[b])
                    ==> !collide(#[trigger] map_op_key(ops@[a]), #[trigger] map_op_key(ops@[b]), true),
            forall|x: u64, a: int|
                #![trigger m0.contains_key(x), ops@[a]]
                0 <= a < ops@.len() && m0.contains_key(x) && x != map_op_key(ops@[a]) ==> !collide(
                    x,
                    map_op_key(ops@[a]),
                    true,
                ),
            forall|x: u64|
                #[trigger] t@.contains_key(x) ==> m0.contains_key(x) || exists|b: int|
                    0 <= b < i && map_op_key(#[trigger] ops@[b]) == x,
            t@ == model_run(m0, ops@.take(i as int)).0,
            out@ == model_run(m0, ops@.take(i as int)).1,
        decreases ops@.len() - i,
    {
        let op = ops[i];
        proof {
            assert(ops@.take(i + 1).drop_last() =~= ops@.take(i as int));
            assert(ops@.take(i + 1).last() == op);
        }
        let o = match op {
            MapOp::Insert(k, v) => {
                proof {
                    assert(map_op_key(ops@[i as int]) == k);
                    assert forall|x: u64| x != k && t@.contains_key(x) implies !#[trigger] collide(x, k, true) by {
                        if m0.contains_key(x) {
                            assert(ops@[i as int] == op);
                        } else {
                            let b = choose|b: int| 0 <= b < i && map_op_key(#[trigger] ops@[b]) == x;
                            assert(map_op_key(ops@[b]) != map_op_key(ops@[i as int]));
                        }
                    }
                }
                t.insert(k, v)
            },
            MapOp::Get(k) => match t.get(k) {
                Some(x) => Some(*x),
                None => None,
            },
            MapOp::Remove(k) => t.remove(k),
        };
        proof {
            assert forall|x: u64| #[trigger] t@.contains_key(x) implies m0.contains_key(x) || exists|b: int|
                0 <= b < i + 1 && map_op_key(#[trigger] ops@[b]) == x by {
                if !m0.contains_key(x) {
                    if x == map_op_key(ops@[i as int]) {
                        assert(map_op_key(ops@[i as int]) == x);
                    } else {
                        let b = choose|b: int| 0 <= b < i && map_op_key(#[trigger] ops@[b]) == x;
                        assert(0 <= b < i + 1 && map_op_key(ops@[b]) == x);
                    }
                }
            }
        }
        out.push(o);
        i = i + 1;
    }
    proof {
        assert(ops@.take(ops@.len() as int) =~= ops@);
    }
    out
}

/// An operation on a map from byte-string keys to `u64` values.
#[derive(Clone, Debug)]
pub enum BytesOp {
    /// Store a value under a key.
    Insert(Vec<u8>, u64),
    /// Read the value under a key.
    Get(Vec<u8>),
    /// Remove the value under a key.
    Remove(Vec<u8>),
}

/// The key an operation is about.
pub open spec fn bytes_op_key(op: BytesOp) -> Seq<u8> {
    match op {
        BytesOp::Insert(k, _) => k@,
        BytesOp::Get(k) => k@,
        BytesOp::Remove(k) => k@,
    }
}

/// What one operation does to the map `m`, and what it answers: the value
/// stored under the key before the operation, if any.
pub open spec fn bytes_model_step(m: Map<Seq<u8>, u64>, op: BytesOp) -> (Map<Seq<u8>, u64>, Option<u64>) {
    match op {
        BytesOp::Insert(k, v) => (m.insert(k@, v), m.get(k@)),
        BytesOp::Get(k) => (m, m.get(k@)),
        BytesOp::Remove(k) => (m.remove(k@), m.get(k@)),
    }
}

/// The map after the operations `ops`, applied in order to `m`, and their
/// answers.
pub open spec fn bytes_model_run(m: Map<Seq<u8>, u64>, ops: Seq<BytesOp>) -> (Map<Seq<u8>, u64>, Seq<
    Option<u64>,
>)
    decreases ops.len(),
{
    if ops.len() == 0 {
        (m, Seq::empty())
    } else {
        let (m1, out) = bytes_model_run(m, ops.drop_last());
        let (m2, o) = bytes_model_step(m1, ops.last());
        (m2, out.push(o))
    }
}

/// Law: a radix trie behaves as the map model. Applying any sequence of
/// inserts, reads and removals, with keys of at most `MAX_KEY_LEN` bytes,
/// leaves it holding the map the model ends with, and each operation answers
/// what the model answers.
pub fn run_ops_radix(t: &mut Radix<u64>, ops: &Vec<BytesOp>) -> (r: Vec<Option<u64>>)
    requires
        forall|i: int| 0 <= i < ops@.len() ==> #[trigger] bytes_op_key(ops@[i]).len() <= MAX_KEY_LEN,
    ensures
        final(t)@ == bytes_model_run(old(t)@, ops@).0,
        r@ == bytes_model_run(old(t)@, ops@).1,
{
    let ghost m0 = t@;
    let mut out: Vec<Option<u64>> = Vec::new();
    let mut i: usize = 0;
    while i < ops.len()
        invariant
            i <= ops@.len(),
            forall|j: int| 0 <= j < ops@.len() ==> #[trigger] bytes_op_key(ops@[j]).len() <= MAX_KEY_LEN,
            t@ == bytes_model_run(m0, ops@.take(i as int)).0,
            out@ == bytes_model_run(m0, ops@.take(i as int)).1,
        decreases ops@.len() - i,
    {
        proof {
            assert(ops@.take(i + 1).drop_last() =~= ops@.take(i as int));
            assert(ops@.take(i + 1).last() == ops@[i as int]);
            assert(bytes_op_key(ops@[i as int]).len() <= MAX_KEY_LEN);
        }
        let o = match &ops[i] {
            BytesOp::Insert(k, v) => t.insert(k.as_slice(), *v),
            BytesOp::Get(k) => match t.get(k.as_slice()) {
                Some(x) => Some(*x),
                None => None,
            },
            BytesOp::Remove(k) => t.remove(k.as_slice()),
        };
        out.push(o);
        i = i + 1;
    }
    proof {
        assert(ops@.take(ops@.len() as int) =~= ops@);
    }
    out
}

/// The sum of the counts of a sequence of cardinalities.
pub open spec fn count_sum(s: Seq<Cardinality>) -> int
    decreases s.len(),
{
    if s.len() == 0 {
        0
    } else {
        count_sum(s.drop_last()) + s.last().0
    }
}

/// Combining cardinality annotations adds their counts.
pub proof fn law_cardinality_adds(s: Seq<Cardinality>)
    requires
        s.len() > 0,
        count_sum(s) <= u64::MAX,
    ensures
        fold_op(s).0 == count_sum(s),
    decreases s.len(),
{
    if s.len() > 1 {
        assert(count_sum(s.drop_last()) <= count_sum(s));
        law_cardinality_adds(s.drop_last());
        assert(fold_op(s) == fold_op(s.drop_last()).op_spec(s.last()));
    } else {
        assert(count_sum(s.drop_last()) == 0);
    }
}

/// A value read back from what was written for it is that value: when the
/// bytes kept for `x` start with the encoding of `v`, `v` is the same value
/// as `x` (for the integers, `v == x`).
pub proof fn law_content_roundtrip<T: Content>(x: T, v: T)
    requires
        starts_with(x.encoding(), v.encoding()),
    ensures
        v.same_value(&x),
{
    lemma_restore_persisted(x, v);
}

/// Values with the same bytes are the same value: the encoding is one to one.
pub proof fn law_encoding_one_to_one<T: Content>(a: T, b: T)
    requires
        a.encoding() == b.encoding(),
    ensures
        a.same_value(&b),
{
    T::lemma_encoding_determines(a, b);
}

/// A number read back from what was written for it is the number: when the
/// bytes kept for `x` start with the encoding of `v`, `v` is `x`.
pub proof fn law_u64_roundtrip(x: u64, v: u64)
    requires
        starts_with(x.encoding(), v.encoding()),
    ensures
        v == x,
{
    lemma_restore_persisted(x, v);
    lemma_u64_be_injective(v, x);
}

/// `law_u64_roundtrip` for `u32`.
pub proof fn law_u32_roundtrip(x: u32, v: u32)
    requires
        starts_with(x.encoding(), v.encoding()),
    ensures
        v == x,
{
    lemma_restore_persisted(x, v);
    lemma_u32_be_injective(v, x);
}

/// `law_u64_roundtrip` for `u16`.
pub proof fn law_u16_roundtrip(x: u16, v: u16)
    requires
        starts_with(x.encoding(), v.encoding()),
    ensures
        v == x,
{
    lemma_restore_persisted(x, v);
    lemma_u16_be_injective(v, x);
}

/// `law_u64_roundtrip` for `u8`.
pub proof fn law_u8_roundtrip(x: u8, v: u8)
    requires
        starts_with(x.encoding(), v.encoding()),
    ensures
        v == x,
{
    lemma_restore_persisted(x, v);
    assert(v.encoding()[0] == x.encoding()[0]);
}

/// A pair read back from what was written for it has halves with the bytes
/// of the halves written.
pub proof fn law_pair_roundtrip<A: Content, B: Content>(x: (A, B), v: (A, B))
    requires
        starts_with(x.encoding(), v.encoding()),
    ensures
        v.0.encoding() == x.0.encoding(),
        v.1.encoding() == x.1.encoding(),
{
    lemma_restore_persisted(x, v);
    assert(v.0.encoding() + v.1.encoding() == x.0.encoding() + x.1.encoding());
    A::lemma_prefix_free(v.0, x.0, v.1.encoding(), x.1.encoding());
}

/// An option read back from what was written for it is `Some` exactly when
/// the option written was, with a value with the same bytes.
pub proof fn law_option_roundtrip<T: Content>(x: Option<T>, v: Option<T>)
    requires
        starts_with(x.encoding(), v.encoding()),
    ensures
        v is Some <==> x is Some,
        v is Some ==> v->0.encoding() == x->0.encoding(),
{
    lemma_restore_persisted(x, v);
    assert(v.encoding()[0] == x.encoding()[0]);
    if v is Some {
        assert(v->0.encoding() =~= v.encoding().skip(1));
        assert(x->0.encoding() =~= x.encoding().skip(1));
    }
}

/// A vector read back from what was written for it has as many elements,
/// each with the bytes of the element written at its place.
pub proof fn law_vec_roundtrip<T: Content>(x: Vec<T>, v: Vec<T>)
    requires
        starts_with(x.encoding(), v.encoding()),
    ensures
        v@.len() == x@.len(),
        forall|i: int| 0 <= i < x@.len() ==> (#[trigger] v@[i]).encoding() == x@[i].encoding(),
{
    lemma_restore_persisted(x, v);
    let (lv, lx) = (v.len() as u64, x.len() as u64);
    assert(u64_be(lv) =~= v.encoding().take(8));
    assert(u64_be(lx) =~= x.encoding().take(8));
    lemma_u64_be_injective(lv, lx);
    assert(seq_encoding(v@) =~= v.encoding().skip(8));
    assert(seq_encoding(x@) =~= x.encoding().skip(8));
    lemma_seq_encoding_elements(v@, x@);
}

} // verus!
