//! Annotations: values that summarise a subtree, combined with an
//! associative operation from the annotations of the children.
use vstd::prelude::*;

use crate::content::{Content, ContentError, Sink, Source};
use crate::map::KV;

verus! {

/// An associative operation on annotation values.
pub trait Associative: Sized {
    /// The result of `self.op(b)`.
    spec fn op_spec(self, b: Self) -> Self;

    /// Whether `self.op(b)` is defined (does not overflow).
    spec fn op_defined(self, b: Self) -> bool;

    /// Performs the associative operation on `self`.
    fn op(&mut self, b: &Self)
        requires
            old(self).op_defined(*b),
        ensures
            *final(self) == old(self).op_spec(*b),
    ;

    /// The operation is associative wherever both groupings are defined.
    proof fn lemma_associative(a: Self, b: Self, c: Self)
        requires
            a.op_defined(b),
            a.op_spec(b).op_defined(c),
            b.op_defined(c),
            a.op_defined(b.op_spec(c)),
        ensures
            a.op_spec(b).op_spec(c) == a.op_spec(b.op_spec(c)),
    ;
}

/// Left fold of the operation over a non-empty sequence.
pub open spec fn fold_op<T: Associative>(s: Seq<T>) -> T
    recommends
        s.len() > 0,
    decreases s.len(),
{
    if s.len() <= 1 {
        s[0]
    } else {
        fold_op(s.drop_last()).op_spec(s.last())
    }
}

/// Every step of the left fold over `s` is defined.
pub open spec fn fold_defined<T: Associative>(s: Seq<T>) -> bool {
    forall|i: int| 1 <= i < s.len() ==> #[trigger] fold_op(s.take(i)).op_defined(s[i])
}

/// The combination of a sequence of annotations: `None` when empty.
pub open spec fn combine_spec<T: Associative>(s: Seq<T>) -> Option<T> {
    if s.len() == 0 {
        None
    } else {
        Some(fold_op(s))
    }
}

/// Combines annotations into one.
pub trait Combine: Sized {
    /// Combines the elements into one, `None` when there are none.
    fn combine(elements: &[Self]) -> (r: Option<Self>)
        requires
            Self::combine_defined(elements@),
        ensures
            r == Self::combine_result(elements@),
    ;

    /// Whether combining `s` is defined.
    spec fn combine_defined(s: Seq<Self>) -> bool;

    /// What combining `s` gives.
    spec fn combine_result(s: Seq<Self>) -> Option<Self>;
}

/// Combines the elements with their associative operation, left to right.
pub fn combine_all<T: Associative + Copy>(elements: &[T]) -> (r: Option<T>)
    requires
        fold_defined(elements@),
    ensures
        r == combine_spec(elements@),
{
    if elements.len() == 0 {
        return None;
    }
    let mut acc: T = elements[0];
    let mut i: usize = 1;
    assert(elements@.take(1).drop_last() =~= Seq::<T>::empty());
    while i < elements.len()
        invariant
            1 <= i <= elements@.len(),
            acc == fold_op(elements@.take(i as int)),
            fold_defined(elements@),
        decreases elements@.len() - i,
    {
        let e = elements[i];
        assert(fold_op(elements@.take(i as int)).op_defined(elements@[i as int]));
        acc.op(&e);
        assert(elements@.take(i + 1).drop_last() =~= elements@.take(i as int));
        i = i + 1;
    }
    assert(elements@.take(elements@.len() as int) =~= elements@);
    Some(acc)
}

/// The empty annotation.
#[derive(Debug, Clone, Copy, PartialEq, Eq, Structural)]
pub struct Void;

impl Associative for Void {
    open spec fn op_spec(self, b: Self) -> Self {
        Void
    }

    open spec fn op_defined(self, b: Self) -> bool {
        true
    }

    fn op(&mut self, b: &Self) {
    }

    proof fn lemma_associative(a: Self, b: Self, c: Self) {
    }
}

impl Content for Void {
    /// No bytes.
    open spec fn encoding(&self) -> Seq<u8> {
        Seq::empty()
    }

    proof fn lemma_prefix_free(a: Self, b: Self, r1: Seq<u8>, r2: Seq<u8>) {
        assert(a.encoding() + r1 =~= r1);
        assert(b.encoding() + r2 =~= r2);
    }

    open spec fn same_value(&self, other: &Self) -> bool {
        *self == *other
    }

    proof fn lemma_encoding_determines(a: Self, b: Self) {
    }

    fn persist(&self, sink: &mut Sink) {
        assert(sink@ =~= old(sink)@ + self.encoding());
    }

    fn restore(source: &mut Source) -> (r: Result<Self, ContentError>) {
        assert(source@ =~= Void.encoding() + source@);
        Ok(Void)
    }
}

/// Annotation that keeps track of the number of leaves in a subtree.
#[derive(Debug, Clone, Copy, PartialEq, Eq, Structural)]
pub struct Cardinality(pub u64);

impl Cardinality {
    /// The cardinality of a single leaf.
    pub fn one() -> (r: Self)
        ensures
            r.0 == 1,
    {
        Cardinality(1)
    }
}

impl Associative for Cardinality {
    open spec fn op_spec(self, b: Self) -> Self {
        Cardinality((self.0 + b.0) as u64)
    }

    open spec fn op_defined(self, b: Self) -> bool {
        self.0 + b.0 <= u64::MAX
    }

    fn op(&mut self, b: &Self) {
        self.0 = self.0 + b.0;
    }

    proof fn lemma_associative(a: Self, b: Self, c: Self) {
    }
}

/// Annotation that keeps track of the minimum key of a subtree.
#[derive(Debug, Clone, Copy, PartialEq, Eq, Structural)]
pub struct Key(pub u64);

impl Associative for Key {
    open spec fn op_spec(self, b: Self) -> Self {
        if b.0 < self.0 {
            b
        } else {
            self
        }
    }

    open spec fn op_defined(self, b: Self) -> bool {
        true
    }

    // Take the minimal key
    fn op(&mut self, b: &Self) {
        if b.0 < self.0 {
            self.0 = b.0;
        }
    }

    proof fn lemma_associative(a: Self, b: Self, c: Self) {
    }
}

impl Content for Key {
    /// The key's bytes.
    open spec fn encoding(&self) -> Seq<u8> {
        self.0.encoding()
    }

    proof fn lemma_prefix_free(a: Self, b: Self, r1: Seq<u8>, r2: Seq<u8>) {
        u64::lemma_prefix_free(a.0, b.0, r1, r2);
    }

    open spec fn same_value(&self, other: &Self) -> bool {
        *self == *other
    }

    proof fn lemma_encoding_determines(a: Self, b: Self) {
        u64::lemma_encoding_determines(a.0, b.0);
    }

    fn persist(&self, sink: &mut Sink) {
        self.0.persist(sink);
    }

    fn restore(source: &mut Source) -> (r: Result<Self, ContentError>) {
        let ghost s0 = source@;
        match u64::restore(source) {
            Ok(k) => Ok(Key(k)),
            Err(e) => {
                proof {
                    if exists|v: Key, rest: Seq<u8>| s0 == #[trigger] (v.encoding() + rest) {
                        let (v, rest) = choose|v: Key, rest: Seq<u8>| s0 == #[trigger] (v.encoding() + rest);
                        assert(s0 == v.0.encoding() + rest);
                    }
                }
                Err(e)
            },
        }
    }
}

/// Annotation that keeps track of the maximum key of a subtree.
#[derive(Debug, Clone, Copy, PartialEq, Eq, Structural)]
pub struct MaxKey(pub u64);

impl Associative for MaxKey {
    open spec fn op_spec(self, b: Self) -> Self {
        if b.0 > self.0 {
            b
        } else {
            self
        }
    }

    open spec fn op_defined(self, b: Self) -> bool {
        true
    }

    // Take the maximal key
    fn op(&mut self, b: &Self) {
        if b.0 > self.0 {
            self.0 = b.0;
        }
    }

    proof fn lemma_associative(a: Self, b: Self, c: Self) {
    }
}

/// The annotation of the ordered trees: the maximum key and the number of
/// leaves of a subtree.
#[derive(Debug, Clone, Copy, PartialEq, Eq, Structural)]
pub struct KeyCount {
    /// Maximum key of the subtree.
    pub key: MaxKey,
    /// Number of leaves of the subtree.
    pub count: Cardinality,
}

impl Associative for KeyCount {
    open spec fn op_spec(self, b: Self) -> Self {
        KeyCount { key: self.key.op_spec(b.key), count: self.count.op_spec(b.count) }
    }

    open spec fn op_defined(self, b: Self) -> bool {
        self.count.op_defined(b.count)
    }

    fn op(&mut self, b: &Self) {
        self.key.op(&b.key);
        self.count.op(&b.count);
    }

    proof fn lemma_associative(a: Self, b: Self, c: Self) {
    }
}

impl Combine for Void {
    open spec fn combine_defined(s: Seq<Self>) -> bool {
        fold_defined(s)
    }

    open spec fn combine_result(s: Seq<Self>) -> Option<Self> {
        combine_spec(s)
    }

    fn combine(elements: &[Self]) -> (r: Option<Self>) {
        combine_all(elements)
    }
}

impl Combine for Cardinality {
    open spec fn combine_defined(s: Seq<Self>) -> bool {
        fold_defined(s)
    }

    open spec fn combine_result(s: Seq<Self>) -> Option<Self> {
        combine_spec(s)
    }

    fn combine(elements: &[Self]) -> (r: Option<Self>) {
        combine_all(elements)
    }
}

impl Combine for Key {
    open spec fn combine_defined(s: Seq<Self>) -> bool {
        fold_defined(s)
    }

    open spec fn combine_result(s: Seq<Self>) -> Option<Self> {
        combine_spec(s)
    }

    fn combine(elements: &[Self]) -> (r: Option<Self>) {
        combine_all(elements)
    }
}

impl Combine for MaxKey {
    open spec fn combine_defined(s: Seq<Self>) -> bool {
        fold_defined(s)
    }

    open spec fn combine_result(s: Seq<Self>) -> Option<Self> {
        combine_spec(s)
    }

    fn combine(elements: &[Self]) -> (r: Option<Self>) {
        combine_all(elements)
    }
}

impl Combine for KeyCount {
    open spec fn combine_defined(s: Seq<Self>) -> bool {
        fold_defined(s)
    }

    open spec fn combine_result(s: Seq<Self>) -> Option<Self> {
        combine_spec(s)
    }

    fn combine(elements: &[Self]) -> (r: Option<Self>) {
        combine_all(elements)
    }
}

/// Laws of the maximum-key annotation: combining gives the largest key.
pub proof fn lemma_max_key_fold(s: Seq<MaxKey>)
    requires
        s.len() > 0,
    ensures
        forall|i: int| 0 <= i < s.len() ==> s[i].0 <= #[trigger] fold_op(s).0,
        exists|i: int| 0 <= i < s.len() && s[i] == fold_op(s),
    decreases s.len(),
{
    if s.len() > 1 {
        lemma_max_key_fold(s.drop_last());
        let j = choose|i: int| 0 <= i < s.drop_last().len() && s.drop_last()[i] == fold_op(s.drop_last());
        assert(s[j] == s.drop_last()[j]);
        assert forall|i: int| 0 <= i < s.len() implies s[i].0 <= #[trigger] fold_op(s).0 by {
            if i < s.len() - 1 {
                assert(s[i] == s.drop_last()[i]);
            }
        }
        if fold_op(s) != fold_op(s.drop_last()) {
            assert(s[s.len() - 1] == fold_op(s));
        } else {
            assert(s[j] == fold_op(s));
        }
    } else {
        assert(s[0] == fold_op(s));
    }
}

/// Laws of the minimum-key annotation: combining gives the smallest key.
pub proof fn lemma_key_fold(s: Seq<Key>)
    requires
        s.len() > 0,
    ensures
        forall|i: int| 0 <= i < s.len() ==> #[trigger] fold_op(s).0 <= s[i].0,
        exists|i: int| 0 <= i < s.len() && s[i] == fold_op(s),
    decreases s.len(),
{
    if s.len() > 1 {
        lemma_key_fold(s.drop_last());
        let j = choose|i: int| 0 <= i < s.drop_last().len() && s.drop_last()[i] == fold_op(s.drop_last());
        assert(s[j] == s.drop_last()[j]);
        assert forall|i: int| 0 <= i < s.len() implies #[trigger] fold_op(s).0 <= s[i].0 by {
            if i < s.len() - 1 {
                assert(s[i] == s.drop_last()[i]);
            }
        }
        if fold_op(s) != fold_op(s.drop_last()) {
            assert(s[s.len() - 1] == fold_op(s));
        } else {
            assert(s[j] == fold_op(s));
        }
    } else {
        assert(s[0] == fold_op(s));
    }
}

/// The empty annotation, under its older name.
pub type VoidAnnotation = Void;

/// Annotations of leaves of type `L`: each leaf has one, and the annotation of
/// a subtree combines those below it.
pub trait Annotation<L>: Combine {
    /// The annotation of a single leaf.
    spec fn of_leaf(leaf: L) -> Self;

    /// Computes the annotation of `leaf`.
    fn from_leaf(leaf: &L) -> (r: Self)
        ensures
            r == Self::of_leaf(*leaf),
    ;
}

impl<L> Annotation<L> for Void {
    open spec fn of_leaf(leaf: L) -> Self {
        Void
    }

    fn from_leaf(leaf: &L) -> (r: Self) {
        Void
    }
}

impl<L> Annotation<L> for Cardinality {
    /// Every leaf counts one.
    open spec fn of_leaf(leaf: L) -> Self {
        Cardinality(1)
    }

    fn from_leaf(leaf: &L) -> (r: Self) {
        Cardinality::one()
    }
}

impl<V> Annotation<KV<u64, V>> for Key {
    open spec fn of_leaf(leaf: KV<u64, V>) -> Self {
        Key(leaf.key)
    }

    fn from_leaf(leaf: &KV<u64, V>) -> (r: Self) {
        Key(leaf.key)
    }
}

impl<V> Annotation<KV<u64, V>> for MaxKey {
    open spec fn of_leaf(leaf: KV<u64, V>) -> Self {
        MaxKey(leaf.key)
    }

    fn from_leaf(leaf: &KV<u64, V>) -> (r: Self) {
        MaxKey(leaf.key)
    }
}

impl<V> Annotation<KV<u64, V>> for KeyCount {
    open spec fn of_leaf(leaf: KV<u64, V>) -> Self {
        KeyCount { key: MaxKey(leaf.key), count: Cardinality(1) }
    }

    fn from_leaf(leaf: &KV<u64, V>) -> (r: Self) {
        KeyCount { key: MaxKey(leaf.key), count: Cardinality::one() }
    }
}

/// Values that may carry an annotation of type `A`, such as the handles of a
/// tree node.
pub trait ErasedAnnotation<A> {
    /// The annotation, if any.
    fn annotation(&self) -> Option<A>;
}

/// Collections that know how many elements they hold.
pub trait Count {
    /// Number of elements in the collection.
    fn count(&self) -> u64;
}

} // verus!
