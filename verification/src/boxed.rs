//! Boxed values and boxed slices.

use vstd::prelude::*;

use crate::error::{ErrorView, UnpackError};
use crate::items::{all_pass, all_valid, deep_items};
use crate::prefix::UnpackPrefixError;
use crate::vec::{
    lemma_run_round_trip, pack_run, spec_pack_run, spec_unpack_run, unpack_run,
};
use crate::packable::{Decoded, Packable};
use crate::packer::Packer;
use crate::unpacker::Unpacker;

verus! {

/// Turns a vector into a boxed slice of the same items.
///
/// Trusted: `Vec::into_boxed_slice` of std, which keeps the items and their order.
#[verifier::external_body]
pub(crate) fn into_boxed_slice<T>(items: Vec<T>) -> (r: Box<[T]>)
    ensures
        r@ == items@,
{
    items.into_boxed_slice()
}

/// The items of a boxed slice as a slice.
pub(crate) fn boxed_as_slice<T>(items: &Box<[T]>) -> (r: &[T])
    ensures
        r@ == items@,
{
    &**items
}

/// `Box<T>`: packed as its `T`.
impl<T: Packable> Packable for Box<T> {
    type UnpackError = T::UnpackError;

    type UnpackVisitor = T::UnpackVisitor;

    open spec fn valid(&self) -> bool {
        (**self).valid()
    }

    open spec fn passes(&self, visitor: &T::UnpackVisitor) -> bool {
        (**self).passes(visitor)
    }

    open spec fn spec_pack(&self) -> Seq<u8> {
        (**self).spec_pack()
    }

    open spec fn spec_unpack(bytes: Seq<u8>, visitor: &T::UnpackVisitor, verify: bool) -> Decoded<
        T::V,
        <T::UnpackError as ErrorView>::View,
    > {
        T::spec_unpack(bytes, visitor, verify)
    }

    proof fn lemma_round_trip(&self, rest: Seq<u8>, visitor: &T::UnpackVisitor, verify: bool) {
        (**self).lemma_round_trip(rest, visitor, verify);
    }

    proof fn lemma_truncated(&self, len: nat, visitor: &T::UnpackVisitor, verify: bool) {
        (**self).lemma_truncated(len, visitor, verify);
    }

    proof fn lemma_invalid_can_occur(bytes: Seq<u8>, visitor: &T::UnpackVisitor, verify: bool) {
        T::lemma_invalid_can_occur(bytes, visitor, verify);
    }

    fn pack<P: Packer>(&self, packer: &mut P) -> (r: Result<(), P::Error>) {
        (**self).pack(packer)
    }

    fn unpack<U: Unpacker, const VERIFY: bool>(
        unpacker: &mut U,
        visitor: &T::UnpackVisitor,
    ) -> (r: Result<Self, UnpackError<Self::UnpackError, U::Error>>) {
        Ok(Box::new(T::unpack::<U, VERIFY>(unpacker, visitor)?))
    }
}

/// `Box<[T]>`: the number of items as a `u64`, then the items in order.
impl<T: Packable> Packable for Box<[T]> {
    type UnpackError = UnpackPrefixError<T::UnpackError, core::num::TryFromIntError>;

    type UnpackVisitor = T::UnpackVisitor;

    open spec fn valid(&self) -> bool {
        all_valid(self@) && self@.len() <= usize::MAX
    }

    open spec fn passes(&self, visitor: &T::UnpackVisitor) -> bool {
        all_pass(self@, visitor)
    }

    open spec fn spec_pack(&self) -> Seq<u8> {
        spec_pack_run(self@)
    }

    open spec fn spec_unpack(bytes: Seq<u8>, visitor: &T::UnpackVisitor, verify: bool) -> Decoded<
        Seq<T::V>,
        UnpackPrefixError<<T::UnpackError as ErrorView>::View, ()>,
    > {
        spec_unpack_run::<T>(bytes, visitor, verify)
    }

    proof fn lemma_round_trip(&self, rest: Seq<u8>, visitor: &T::UnpackVisitor, verify: bool) {
        lemma_run_round_trip::<T>(self@, rest, visitor, verify);
        assert(self.deep_view() =~= deep_items(self@));
    }

    proof fn lemma_truncated(&self, len: nat, visitor: &T::UnpackVisitor, verify: bool) {
        crate::vec::lemma_run_truncated::<T>(self@, len, visitor, verify);
    }

    proof fn lemma_invalid_can_occur(bytes: Seq<u8>, visitor: &T::UnpackVisitor, verify: bool) {
    }

    fn pack<P: Packer>(&self, packer: &mut P) -> (r: Result<(), P::Error>) {
        pack_run(boxed_as_slice(self), packer)
    }

    fn unpack<U: Unpacker, const VERIFY: bool>(
        unpacker: &mut U,
        visitor: &T::UnpackVisitor,
    ) -> (r: Result<Self, UnpackError<Self::UnpackError, U::Error>>) {
        match unpack_run::<T, U, VERIFY>(unpacker, visitor) {
            Ok(items) => {
                let ghost len = items.len();
                let boxed = into_boxed_slice(items);
                proof {
                    assert(boxed@.len() == len);
                    assert(boxed.deep_view() =~= deep_items(boxed@));
                }
                Ok(boxed)
            },
            Err(e) => Err(e),
        }
    }
}

} // verus!
