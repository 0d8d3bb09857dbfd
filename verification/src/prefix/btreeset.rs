use core::marker::PhantomData;
use std::collections::BTreeSet;
use vstd::prelude::*;

use crate::error::{ErrorView, UnpackError};
use crate::bounded::Bounded;
use crate::items::{all_pass, all_valid, spec_pack_items};
use crate::le::{le_bytes, lemma_le_bytes_len};
use crate::order::SortKey;
use crate::prefix::{lemma_len_round_trip, pack_len, unpack_len};
use crate::set::{
    lemma_ascending_round_trip, lemma_sorted_items, pack_ascending, sorted_items,
    spec_unpack_ascending, unpack_ascending, UnpackOrderedSetError, UnpackSetError,
};
use crate::packable::{Decoded, Packable};
use crate::packer::{lemma_accepted_twice, Packer};
use crate::unpacker::Unpacker;

verus! {

/// An ordered set whose size is within the range of the prefix type `B`, packed behind a
/// length prefix of that type.
#[derive(Debug, PartialEq, Eq, PartialOrd, Ord, Hash)]
pub struct BTreeSetPrefix<T: Ord, B: Bounded> {
    inner: BTreeSet<T>,
    bounded: PhantomData<B>,
}

impl<T: Ord, B: Bounded> View for BTreeSetPrefix<T, B> {
    type V = Set<T>;

    closed spec fn view(&self) -> Set<T> {
        self.inner@
    }
}

impl<T: SortKey, B: Bounded> DeepView for BTreeSetPrefix<T, B> {
    type V = Set<T>;

    open spec fn deep_view(&self) -> Set<T> {
        self@
    }
}

impl<T: Ord, B: Bounded> core::ops::Deref for BTreeSetPrefix<T, B> {
    type Target = BTreeSet<T>;

    fn deref(&self) -> (r: &BTreeSet<T>)
        ensures
            r@ == self@,
    {
        &self.inner
    }
}

impl<T: Ord, B: Bounded> BTreeSetPrefix<T, B> {
    #[verifier::type_invariant]
    spec fn in_range(self) -> bool {
        B::spec_min() <= self.inner@.len() <= B::spec_max()
    }
}

impl<T: SortKey, B: Bounded> BTreeSetPrefix<T, B> {
    /// The set behind a value.
    pub closed spec fn inner(&self) -> BTreeSet<T> {
        self.inner
    }

    /// Wraps `set`, if the prefix type accepts its size.
    pub fn try_from(set: BTreeSet<T>) -> (r: Result<Self, B::LenError>)
        ensures
            match r {
                Ok(prefixed) => B::spec_min() <= set@.len() <= B::spec_max() && prefixed@ == set@,
                Err(e) => !(B::spec_min() <= set@.len() <= B::spec_max()) && B::is_len_error(
                    e,
                    set@.len(),
                ),
            },
    {
        broadcast use vstd::std_specs::btree::group_btree_axioms;

        proof {
            T::lemma_sort_key();
        }
        match B::try_from_len(set.len()) {
            Ok(_) => Ok(BTreeSetPrefix { inner: set, bounded: PhantomData }),
            Err(e) => Err(e),
        }
    }

    /// Gives the set back.
    pub fn into_set(self) -> (r: BTreeSet<T>)
        ensures
            r@ == self@,
            B::spec_min() <= self@.len() <= B::spec_max(),
    {
        proof {
            use_type_invariant(&self);
        }
        self.inner
    }
}

/// `BTreeSetPrefix<T, B>`: the number of items as a `B`, then the items in ascending order.
/// Unpacking rejects an item that does not come strictly after the item before it.
impl<T: SortKey, B: Bounded> Packable for BTreeSetPrefix<T, B> {
    type UnpackError = UnpackOrderedSetError<T, T::UnpackError, B::UnpackError>;

    type UnpackVisitor = T::UnpackVisitor;

    open spec fn valid(&self) -> bool {
        &&& B::spec_min() <= self@.len() <= B::spec_max()
        &&& forall|item: T| self@.contains(item) ==> item.valid()
    }

    open spec fn passes(&self, visitor: &T::UnpackVisitor) -> bool {
        forall|item: T| self@.contains(item) ==> item.passes(visitor)
    }

    open spec fn spec_pack(&self) -> Seq<u8> {
        le_bytes(self@.len(), B::spec_width()) + spec_pack_items(sorted_items(self@))
    }

    open spec fn spec_unpack(bytes: Seq<u8>, visitor: &T::UnpackVisitor, verify: bool) -> Decoded<
        Set<T>,
        UnpackOrderedSetError<
            T,
            <T::UnpackError as ErrorView>::View,
            <B::UnpackError as ErrorView>::View,
        >,
    > {
        match B::spec_unpack(bytes, &(), verify) {
            Decoded::Done(prefix, n) => match spec_unpack_ascending::<
                T,
                <B::UnpackError as ErrorView>::View,
            >(bytes.skip(n as int), B::spec_len_of(prefix), visitor, verify) {
                Decoded::Done(items, m) => Decoded::Done(items.to_set(), n + m),
                Decoded::Invalid(e) => Decoded::Invalid(e),
                Decoded::Short(required, had) => Decoded::Short(required, had),
            },
            Decoded::Invalid(e) => Decoded::Invalid(
                UnpackOrderedSetError::SetError(UnpackSetError::Prefix(e)),
            ),
            Decoded::Short(required, had) => Decoded::Short(required, had),
        }
    }

    proof fn lemma_round_trip(&self, rest: Seq<u8>, visitor: &T::UnpackVisitor, verify: bool) {
        lemma_sorted_items(&self.inner());
        let items = sorted_items(self@);
        let width = B::spec_width();
        let bytes = self.spec_pack() + rest;
        assert(bytes =~= le_bytes(items.len(), width) + (spec_pack_items(items) + rest));
        lemma_len_round_trip::<B>(items.len(), spec_pack_items(items) + rest, verify);
        lemma_le_bytes_len(items.len(), width);
        assert(bytes.skip(width as int) =~= spec_pack_items(items) + rest);
        assert(all_valid(items)) by {
            assert forall|i: int| 0 <= i < items.len() implies (#[trigger] items[i]).valid() by {
                assert(items.to_set().contains(items[i]));
            }
        }
        assert(all_pass(items, visitor)) by {
            assert forall|i: int| 0 <= i < items.len() implies (#[trigger] items[i]).passes(
                visitor,
            ) by {
                assert(items.to_set().contains(items[i]));
            }
        }
        lemma_ascending_round_trip::<T, <B::UnpackError as ErrorView>::View>(items, rest, visitor, verify);
    }

    proof fn lemma_truncated(&self, len: nat, visitor: &T::UnpackVisitor, verify: bool) {
        lemma_sorted_items(&self.inner());
        let items = sorted_items(self@);
        let count = items.len();
        assert(all_valid(items)) by {
            assert forall|i: int| 0 <= i < items.len() implies (#[trigger] items[i]).valid() by {
                assert(items.to_set().contains(items[i]));
            }
        }
        assert(all_pass(items, visitor)) by {
            assert forall|i: int| 0 <= i < items.len() implies (#[trigger] items[i]).passes(
                visitor,
            ) by {
                assert(items.to_set().contains(items[i]));
            }
        }
        let width = B::spec_width();
        let cut = self.spec_pack().take(len as int);
        lemma_le_bytes_len(count, width);
        if len < width {
            assert(cut =~= le_bytes(count, width).take(len as int));
            crate::prefix::lemma_len_truncated::<B>(count, len, verify);
        } else {
            let left = (len - width) as nat;
            let tail = spec_pack_items(items).take(left as int);
            assert(cut =~= le_bytes(count, width) + tail);
            lemma_len_round_trip::<B>(count, tail, verify);
            assert(cut.skip(width as int) =~= tail);
            crate::set::lemma_ascending_truncated::<
                T,
                <B::UnpackError as ErrorView>::View,
            >(items, left, visitor, verify);
        }
    }

    proof fn lemma_invalid_can_occur(bytes: Seq<u8>, visitor: &T::UnpackVisitor, verify: bool) {
    }

    fn pack<P: Packer>(&self, packer: &mut P) -> (r: Result<(), P::Error>) {
        broadcast use vstd::std_specs::btree::group_btree_axioms;

        proof {
            use_type_invariant(self);
            T::lemma_sort_key();
            lemma_sorted_items(&self.inner);
        }
        let ghost before = *packer;
        pack_len::<B, P>(self.inner.len(), packer)?;
        let ghost between = *packer;
        let r = pack_ascending(&self.inner, packer);
        proof {
            if r is Ok {
                lemma_accepted_twice(
                    &before,
                    &between,
                    packer,
                    le_bytes(self@.len(), B::spec_width()),
                    spec_pack_items(sorted_items(self@)),
                );
            }
        }
        r
    }

    fn unpack<U: Unpacker, const VERIFY: bool>(
        unpacker: &mut U,
        visitor: &T::UnpackVisitor,
    ) -> (r: Result<Self, UnpackError<Self::UnpackError, U::Error>>) {
        let ghost bytes = unpacker.remaining();
        let ghost first = B::spec_unpack(bytes, &(), VERIFY);
        let len = match unpack_len::<B, U, VERIFY>(unpacker) {
            Ok(len) => len,
            Err(UnpackError::Packable(e)) => {
                let err: UnpackOrderedSetError<T, T::UnpackError, B::UnpackError> =
                    UnpackOrderedSetError::SetError(UnpackSetError::Prefix(e));
                proof {
                    assert(err.error_view() == UnpackOrderedSetError::<
                        T,
                        <T::UnpackError as ErrorView>::View,
                        <B::UnpackError as ErrorView>::View,
                    >::SetError(UnpackSetError::Prefix(e.error_view())));
                }
                return Err(UnpackError::Packable(err));
            },
            Err(UnpackError::Unpacker(e)) => {
                return Err(UnpackError::Unpacker(e));
            },
        };
        match unpack_ascending::<T, B::UnpackError, U, VERIFY>(unpacker, visitor, len) {
            Ok(set) => {
                proof {
                    let n = first->Done_1;
                    let found = spec_unpack_ascending::<T, <B::UnpackError as ErrorView>::View>(
                        bytes.skip(n as int),
                        len as nat,
                        visitor,
                        VERIFY,
                    );
                    let m = found->Done_1;
                    assert(bytes.skip(n as int).skip(m as int) =~= bytes.skip(n as int + m));
                    lemma_sorted_items(&set);
                    crate::set::lemma_ascending_no_duplicates(found->Done_0);
                }
                Ok(BTreeSetPrefix { inner: set, bounded: PhantomData })
            },
            Err(e) => Err(e),
        }
    }
}

} // verus!
