//! Arrays: the items, one after the other, without a length.

use vstd::prelude::*;

use crate::error::{ErrorView, UnpackError};
use crate::items::{
    all_pass, all_valid, deep_items, lemma_items_round_trip, pack_items, spec_pack_items,
    spec_unpack_items, unpack_items,
};
use crate::packable::{Decoded, Packable};
use crate::packer::Packer;
use crate::unpacker::Unpacker;

verus! {

/// Turns a vector of `N` items into an array of the same items, and no other vector.
///
/// Trusted: the conversion of std from `Vec<T>` to `[T; N]`, which succeeds exactly where
/// the vector has `N` items and then keeps the items and their order.
#[verifier::external_body]
pub(crate) fn vec_into_array<T, const N: usize>(items: Vec<T>) -> (r: Option<[T; N]>)
    ensures
        match r {
            Some(array) => array@ == items@,
            None => items@.len() != N,
        },
{
    match <[T; N]>::try_from(items) {
        Ok(array) => Some(array),
        Err(_) => None,
    }
}

/// `[T; N]`: the `N` items in order.
impl<T: Packable, const N: usize> Packable for [T; N] {
    type UnpackError = T::UnpackError;

    type UnpackVisitor = T::UnpackVisitor;

    open spec fn valid(&self) -> bool {
        all_valid(self@)
    }

    open spec fn passes(&self, visitor: &T::UnpackVisitor) -> bool {
        all_pass(self@, visitor)
    }

    open spec fn spec_pack(&self) -> Seq<u8> {
        spec_pack_items(self@)
    }

    open spec fn spec_unpack(bytes: Seq<u8>, visitor: &T::UnpackVisitor, verify: bool) -> Decoded<
        Seq<T::V>,
        <T::UnpackError as ErrorView>::View,
    > {
        spec_unpack_items::<T>(bytes, N as nat, visitor, verify)
    }

    proof fn lemma_round_trip(&self, rest: Seq<u8>, visitor: &T::UnpackVisitor, verify: bool) {
        lemma_items_round_trip::<T>(self@, rest, visitor, verify);
        assert(self.deep_view() =~= deep_items(self@));
    }

    proof fn lemma_truncated(&self, len: nat, visitor: &T::UnpackVisitor, verify: bool) {
        crate::items::lemma_items_truncated::<T>(self@, len, visitor, verify);
    }

    proof fn lemma_invalid_can_occur(bytes: Seq<u8>, visitor: &T::UnpackVisitor, verify: bool) {
        crate::items::lemma_items_invalid_can_occur::<T>(bytes, N as nat, visitor, verify);
    }

    fn pack<P: Packer>(&self, packer: &mut P) -> (r: Result<(), P::Error>) {
        pack_items(self.as_slice(), packer)
    }

    fn unpack<U: Unpacker, const VERIFY: bool>(
        unpacker: &mut U,
        visitor: &T::UnpackVisitor,
    ) -> (r: Result<Self, UnpackError<Self::UnpackError, U::Error>>) {
        match unpack_items::<T, U, VERIFY>(unpacker, visitor, N as u64) {
            Ok(items) => match vec_into_array::<T, N>(items) {
                Some(array) => {
                    proof {
                        assert(array.deep_view() =~= deep_items(array@));
                    }
                    Ok(array)
                },
                None => vstd::pervasive::unreached(),
            },
            Err(e) => Err(e),
        }
    }
}

} // verus!
