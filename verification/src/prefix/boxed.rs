use core::marker::PhantomData;
use vstd::prelude::*;

use crate::error::{ErrorView, UnpackError};
use crate::bounded::Bounded;
use crate::boxed::{boxed_as_slice, into_boxed_slice};
use crate::items::{
    all_pass, all_valid, deep_items, lemma_items_round_trip, pack_items, spec_pack_items,
    spec_unpack_items,
};
use crate::le::{le_bytes, lemma_le_bytes_len};
use crate::prefix::{lemma_len_round_trip, pack_len, UnpackPrefixError, VecPrefix};
use crate::packable::{Decoded, Packable};
use crate::packer::{lemma_accepted_twice, Packer};
use crate::unpacker::Unpacker;

verus! {

/// A boxed slice whose length is within the range of the prefix type `B`, packed behind a
/// length prefix of that type.
#[derive(Debug, PartialEq, Eq, PartialOrd, Ord, Hash)]
pub struct BoxedSlicePrefix<T, B: Bounded> {
    inner: Box<[T]>,
    bounded: PhantomData<B>,
}

impl<T, B: Bounded> View for BoxedSlicePrefix<T, B> {
    type V = Seq<T>;

    closed spec fn view(&self) -> Seq<T> {
        self.inner@
    }
}

impl<T: DeepView, B: Bounded> DeepView for BoxedSlicePrefix<T, B> {
    type V = Seq<T::V>;

    open spec fn deep_view(&self) -> Seq<T::V> {
        deep_items(self@)
    }
}

impl<T, B: Bounded> core::ops::Deref for BoxedSlicePrefix<T, B> {
    type Target = Box<[T]>;

    fn deref(&self) -> (r: &Box<[T]>)
        ensures
            r@ == self@,
    {
        &self.inner
    }
}

impl<T, B: Bounded> BoxedSlicePrefix<T, B> {
    #[verifier::type_invariant]
    spec fn in_range(self) -> bool {
        B::spec_min() <= self.inner@.len() <= B::spec_max()
    }

    /// Wraps `boxed_slice`, if the prefix type accepts its length.
    pub fn try_from(boxed_slice: Box<[T]>) -> (r: Result<Self, B::LenError>)
        ensures
            match r {
                Ok(prefixed) => B::spec_min() <= boxed_slice@.len() <= B::spec_max() && prefixed@
                    == boxed_slice@,
                Err(e) => !(B::spec_min() <= boxed_slice@.len() <= B::spec_max())
                    && B::is_len_error(e, boxed_slice@.len()),
            },
    {
        match B::try_from_len(boxed_as_slice(&boxed_slice).len()) {
            Ok(_) => Ok(BoxedSlicePrefix { inner: boxed_slice, bounded: PhantomData }),
            Err(e) => Err(e),
        }
    }

    /// Gives the boxed slice back.
    pub fn into_boxed_slice(self) -> (r: Box<[T]>)
        ensures
            r@ == self@,
            B::spec_min() <= self@.len() <= B::spec_max(),
    {
        proof {
            use_type_invariant(&self);
        }
        self.inner
    }
}

/// `BoxedSlicePrefix<T, B>`: the number of items as a `B`, then the items in order.
impl<T: Packable, B: Bounded> Packable for BoxedSlicePrefix<T, B> {
    type UnpackError = UnpackPrefixError<T::UnpackError, B::UnpackError>;

    type UnpackVisitor = T::UnpackVisitor;

    open spec fn valid(&self) -> bool {
        B::spec_min() <= self@.len() <= B::spec_max() && all_valid(self@)
    }

    open spec fn passes(&self, visitor: &T::UnpackVisitor) -> bool {
        all_pass(self@, visitor)
    }

    open spec fn spec_pack(&self) -> Seq<u8> {
        le_bytes(self@.len(), B::spec_width()) + spec_pack_items(self@)
    }

    open spec fn spec_unpack(bytes: Seq<u8>, visitor: &T::UnpackVisitor, verify: bool) -> Decoded<
        Seq<T::V>,
        UnpackPrefixError<<T::UnpackError as ErrorView>::View, <B::UnpackError as ErrorView>::View>,
    > {
        VecPrefix::<T, B>::spec_unpack(bytes, visitor, verify)
    }

    proof fn lemma_round_trip(&self, rest: Seq<u8>, visitor: &T::UnpackVisitor, verify: bool) {
        let items = self@;
        let width = B::spec_width();
        let bytes = self.spec_pack() + rest;
        assert(bytes =~= le_bytes(items.len(), width) + (spec_pack_items(items) + rest));
        lemma_len_round_trip::<B>(items.len(), spec_pack_items(items) + rest, verify);
        lemma_le_bytes_len(items.len(), width);
        assert(bytes.skip(width as int) =~= spec_pack_items(items) + rest);
        lemma_items_round_trip::<T>(items, rest, visitor, verify);
    }

    proof fn lemma_truncated(&self, len: nat, visitor: &T::UnpackVisitor, verify: bool) {
        let items = self@;
        let count = items.len();
        let width = B::spec_width();
        let cut = self.spec_pack().take(len as int);
        lemma_le_bytes_len(count, width);
        if len < width {
            assert(cut =~= le_bytes(count, width).take(len as int));
            crate::prefix::lemma_len_truncated::<B>(count, len, verify);
        } else {
            let left = (len - width) as nat;
            let tail = spec_pack_items(items).take(left as int);
            assert(cut =~= le_bytes(count, width) + tail);
            lemma_len_round_trip::<B>(count, tail, verify);
            assert(cut.skip(width as int) =~= tail);
            crate::items::lemma_items_truncated::<T>(items, left, visitor, verify);
        }
    }

    proof fn lemma_invalid_can_occur(bytes: Seq<u8>, visitor: &T::UnpackVisitor, verify: bool) {
        B::lemma_invalid_can_occur(bytes, &(), verify);
        if let Decoded::Done(prefix, n) = B::spec_unpack(bytes, &(), verify) {
            crate::items::lemma_items_invalid_can_occur::<T>(
                bytes.skip(n as int),
                B::spec_len_of(prefix),
                visitor,
                verify,
            );
        }
        assert(<UnpackPrefixError<T::UnpackError, B::UnpackError> as ErrorView>::can_occur() == (<
            T::UnpackError as ErrorView
        >::can_occur() || <B::UnpackError as ErrorView>::can_occur()));
    }

    fn pack<P: Packer>(&self, packer: &mut P) -> (r: Result<(), P::Error>) {
        let items = boxed_as_slice(&self.inner);
        let ghost before = *packer;
        pack_len::<B, P>(items.len(), packer)?;
        let ghost between = *packer;
        let r = pack_items(items, packer);
        proof {
            if r is Ok {
                lemma_accepted_twice(
                    &before,
                    &between,
                    packer,
                    le_bytes(items@.len(), B::spec_width()),
                    spec_pack_items(items@),
                );
            }
        }
        r
    }

    fn unpack<U: Unpacker, const VERIFY: bool>(
        unpacker: &mut U,
        visitor: &T::UnpackVisitor,
    ) -> (r: Result<Self, UnpackError<Self::UnpackError, U::Error>>) {
        match VecPrefix::<T, B>::unpack::<U, VERIFY>(unpacker, visitor) {
            Ok(prefixed) => {
                let items = prefixed.into_vec();
                Ok(BoxedSlicePrefix { inner: into_boxed_slice(items), bounded: PhantomData })
            },
            Err(e) => Err(e),
        }
    }
}

} // verus!
