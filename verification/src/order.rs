//! The order of the items of ordered collections.

use core::cmp::Ordering;
use vstd::laws_cmp::{
    obeys_cmp, obeys_cmp_ord, obeys_cmp_partial_ord, obeys_partial_cmp_spec_properties,
};
use vstd::laws_eq::obeys_concrete_eq;
use vstd::prelude::*;
use vstd::std_specs::cmp::{OrdSpec, PartialEqSpec, PartialOrdSpec};

use crate::error::CoerceInto;
use crate::packable::Packable;
use crate::visitor::Narrow;

verus! {

/// How one item stands to another in the order.
#[derive(Clone, Copy, Debug, PartialEq, Eq)]
pub enum Rank {
    /// It comes before the other.
    Before,
    /// It is the other.
    Same,
    /// It comes after the other.
    After,
}

/// Whether `a` comes strictly before `b` in the order of `T`.
pub open spec fn precedes<T: Ord>(a: T, b: T) -> bool {
    a.cmp_spec(&b) == Ordering::Less
}

/// A type whose values can be the items of an ordered set or the keys of an ordered map.
///
/// Its order is a strict total order in which two values are equal only if they are the same
/// value, and a value is its own deep view.
pub trait SortKey: Packable + Ord + DeepView<V = Self> {
    /// The order and the equality of the type are what std's collections take them to be,
    /// and a value is its own deep view.
    proof fn lemma_sort_key()
        ensures
            obeys_cmp::<Self>(),
            obeys_concrete_eq::<Self>(),
            forall|x: Self| #[trigger] x.deep_view() == x,
    ;
}

/// The order of a sort key is a strict total order.
pub proof fn lemma_order<T: SortKey>()
    ensures
        forall|a: T| !#[trigger] precedes(a, a),
        forall|a: T, b: T, c: T| #[trigger]
            precedes(a, b) && #[trigger] precedes(b, c) ==> precedes(a, c),
        forall|a: T, b: T| #[trigger] precedes(a, b) || a == b || precedes(b, a),
        forall|a: T, b: T| #[trigger] precedes(a, b) ==> !precedes(b, a),
{
    T::lemma_sort_key();
    reveal(obeys_cmp_partial_ord);
    reveal(obeys_cmp_ord);
    reveal(obeys_partial_cmp_spec_properties);
    reveal(obeys_concrete_eq);
    assert forall|a: T| !#[trigger] precedes(a, a) by {
        assert(a.eq_spec(&a));
        assert(a.partial_cmp_spec(&a) == Some(a.cmp_spec(&a)));
    }
    assert forall|a: T, b: T, c: T| #[trigger]
        precedes(a, b) && #[trigger] precedes(b, c) implies precedes(a, c) by {
        assert(a.partial_cmp_spec(&b) == Some(a.cmp_spec(&b)));
        assert(b.partial_cmp_spec(&c) == Some(b.cmp_spec(&c)));
        assert(a.partial_cmp_spec(&c) == Some(a.cmp_spec(&c)));
    }
    assert forall|a: T, b: T| #[trigger] precedes(a, b) || a == b || precedes(b, a) by {
        assert(a.partial_cmp_spec(&b) == Some(a.cmp_spec(&b)));
        assert(b.partial_cmp_spec(&a) == Some(b.cmp_spec(&a)));
    }
    assert forall|a: T, b: T| #[trigger] precedes(a, b) implies !precedes(b, a) by {
        assert(a.partial_cmp_spec(&b) == Some(a.cmp_spec(&b)));
        assert(b.partial_cmp_spec(&a) == Some(b.cmp_spec(&a)));
    }
}

/// References that std's ordered collections hand out in increasing order refer to items of
/// which each comes strictly before the next.
pub proof fn lemma_increasing_refs<T: SortKey>(refs: Seq<&T>)
    requires
        vstd::std_specs::btree::increasing_seq(refs),
    ensures
        forall|i: int, j: int| 0 <= i < j < refs.len() ==> precedes(*refs[i], *refs[j]),
{
    broadcast use vstd::laws_cmp::lemma_ref_obeys_cmp_spec;

    T::lemma_sort_key();
    assert(obeys_cmp::<&T>());
    vstd::std_specs::btree::axiom_increasing_seq_meaning::<&T>(refs);
    assert forall|i: int, j: int| 0 <= i < j < refs.len() implies precedes(*refs[i], *refs[j]) by {
        let a: &T = refs[i];
        let b: &T = refs[j];
        assert(OrdSpec::cmp_spec(&a, &b) == Ordering::Less);
    }
}

/// Items that std's ordered collections hand out in increasing order come each strictly before
/// the next.
pub proof fn lemma_increasing<T: SortKey>(items: Seq<T>)
    requires
        vstd::std_specs::btree::increasing_seq(items),
    ensures
        forall|i: int, j: int| 0 <= i < j < items.len() ==> #[trigger] precedes(items[i], items[j]),
{
    T::lemma_sort_key();
    vstd::std_specs::btree::axiom_increasing_seq_meaning::<T>(items);
}

/// Tells how `a` stands to `b`.
pub fn compare<T: SortKey>(a: &T, b: &T) -> (r: Rank)
    ensures
        r == Rank::Before <==> precedes(*a, *b),
        r == Rank::Same <==> *a == *b,
        r == Rank::After <==> precedes(*b, *a),
{
    proof {
        T::lemma_sort_key();
        lemma_order::<T>();
        reveal(obeys_cmp_partial_ord);
        reveal(obeys_cmp_ord);
        reveal(obeys_partial_cmp_spec_properties);
        reveal(obeys_concrete_eq);
        assert(a.partial_cmp_spec(b) == Some(a.cmp_spec(b)));
        assert(b.partial_cmp_spec(a) == Some(b.cmp_spec(a)));
    }
    match a.cmp(b) {
        Ordering::Less => Rank::Before,
        Ordering::Equal => Rank::Same,
        Ordering::Greater => Rank::After,
    }
}

impl SortKey for u8 {
    proof fn lemma_sort_key() {
        broadcast use vstd::laws_cmp::group_laws_cmp;
        broadcast use vstd::laws_eq::group_laws_eq;
    }
}

impl SortKey for u16 {
    proof fn lemma_sort_key() {
        broadcast use vstd::laws_cmp::group_laws_cmp;
        broadcast use vstd::laws_eq::group_laws_eq;
    }
}

impl SortKey for u32 {
    proof fn lemma_sort_key() {
        broadcast use vstd::laws_cmp::group_laws_cmp;
        broadcast use vstd::laws_eq::group_laws_eq;
    }
}

impl SortKey for u64 {
    proof fn lemma_sort_key() {
        broadcast use vstd::laws_cmp::group_laws_cmp;
        broadcast use vstd::laws_eq::group_laws_eq;
    }
}

impl SortKey for u128 {
    proof fn lemma_sort_key() {
        broadcast use vstd::laws_cmp::group_laws_cmp;
        broadcast use vstd::laws_eq::group_laws_eq;
    }
}

impl SortKey for usize {
    proof fn lemma_sort_key() {
        broadcast use vstd::laws_cmp::group_laws_cmp;
        broadcast use vstd::laws_eq::group_laws_eq;
    }
}

impl SortKey for i8 {
    proof fn lemma_sort_key() {
        broadcast use vstd::laws_cmp::group_laws_cmp;
        broadcast use vstd::laws_eq::group_laws_eq;
    }
}

impl SortKey for i16 {
    proof fn lemma_sort_key() {
        broadcast use vstd::laws_cmp::group_laws_cmp;
        broadcast use vstd::laws_eq::group_laws_eq;
    }
}

impl SortKey for i32 {
    proof fn lemma_sort_key() {
        broadcast use vstd::laws_cmp::group_laws_cmp;
        broadcast use vstd::laws_eq::group_laws_eq;
    }
}

impl SortKey for i64 {
    proof fn lemma_sort_key() {
        broadcast use vstd::laws_cmp::group_laws_cmp;
        broadcast use vstd::laws_eq::group_laws_eq;
    }
}

impl SortKey for i128 {
    proof fn lemma_sort_key() {
        broadcast use vstd::laws_cmp::group_laws_cmp;
        broadcast use vstd::laws_eq::group_laws_eq;
    }
}

impl SortKey for isize {
    proof fn lemma_sort_key() {
        broadcast use vstd::laws_cmp::group_laws_cmp;
        broadcast use vstd::laws_eq::group_laws_eq;
    }
}

impl<T: SortKey> SortKey for Option<T> {
    proof fn lemma_sort_key() {
        broadcast use vstd::laws_cmp::group_laws_cmp;
        broadcast use vstd::laws_eq::group_laws_eq;

        T::lemma_sort_key();
    }
}

impl<A: SortKey, B: SortKey> SortKey for (A, B) where
    B::UnpackError: CoerceInto<A::UnpackError>,
    A::UnpackVisitor: Narrow<B::UnpackVisitor>,
{
    proof fn lemma_sort_key() {
        broadcast use vstd::laws_cmp::group_laws_cmp;
        broadcast use vstd::laws_eq::group_laws_eq;

        A::lemma_sort_key();
        B::lemma_sort_key();
    }
}

} // verus!
