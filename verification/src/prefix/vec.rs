use core::marker::PhantomData;
use vstd::prelude::*;

use crate::error::{ErrorView, UnpackError};
use crate::bounded::Bounded;
use crate::items::{
    all_pass, all_valid, deep_items, lemma_items_round_trip, pack_items, spec_pack_items,
    spec_unpack_items, unpack_items,
};
use crate::le::{le_bytes, lemma_le_bytes_len};
use crate::prefix::{lemma_len_round_trip, pack_len, unpack_len, UnpackPrefixError};
use crate::packable::{Decoded, Packable};
use crate::packer::{lemma_accepted_twice, Packer};
use crate::unpacker::Unpacker;

verus! {

/// A vector whose length is within the range of the prefix type `B`, packed behind a length
/// prefix of that type.
#[derive(Debug, PartialEq, Eq, PartialOrd, Ord, Hash)]
pub struct VecPrefix<T, B: Bounded> {
    inner: Vec<T>,
    bounded: PhantomData<B>,
}

impl<T: DeepView, B: Bounded> DeepView for VecPrefix<T, B> {
    type V = Seq<T::V>;

    open spec fn deep_view(&self) -> Seq<T::V> {
        deep_items(self@)
    }
}

impl<T: Clone, B: Bounded> Clone for VecPrefix<T, B> {
    fn clone(&self) -> (r: Self)
        ensures
            r@.len() == self@.len(),
    {
        proof {
            use_type_invariant(self);
        }
        VecPrefix { inner: self.inner.clone(), bounded: PhantomData }
    }
}

impl<T, B: Bounded> View for VecPrefix<T, B> {
    type V = Seq<T>;

    closed spec fn view(&self) -> Seq<T> {
        self.inner@
    }
}

impl<T, B: Bounded> core::ops::Deref for VecPrefix<T, B> {
    type Target = Vec<T>;

    fn deref(&self) -> (r: &Vec<T>)
        ensures
            r@ == self@,
    {
        &self.inner
    }
}

impl<T, B: Bounded> VecPrefix<T, B> {
    #[verifier::type_invariant]
    spec fn in_range(self) -> bool {
        B::spec_min() <= self.inner@.len() <= B::spec_max()
    }

    /// Wraps `vec`, if the prefix type accepts its length.
    pub fn try_from(vec: Vec<T>) -> (r: Result<Self, B::LenError>)
        ensures
            match r {
                Ok(prefixed) => B::spec_min() <= vec@.len() <= B::spec_max() && prefixed@ == vec@,
                Err(e) => !(B::spec_min() <= vec@.len() <= B::spec_max()) && B::is_len_error(
                    e,
                    vec@.len(),
                ),
            },
    {
        match B::try_from_len(vec.len()) {
            Ok(_) => Ok(VecPrefix { inner: vec, bounded: PhantomData }),
            Err(e) => Err(e),
        }
    }

    /// The vector.
    pub fn as_vec(&self) -> (r: &Vec<T>)
        ensures
            r@ == self@,
            B::spec_min() <= self@.len() <= B::spec_max(),
    {
        proof {
            use_type_invariant(self);
        }
        &self.inner
    }

    /// Gives the vector back.
    pub fn into_vec(self) -> (r: Vec<T>)
        ensures
            r@ == self@,
            B::spec_min() <= self@.len() <= B::spec_max(),
    {
        proof {
            use_type_invariant(&self);
        }
        self.inner
    }
}

/// `VecPrefix<T, B>`: the number of items as a `B`, then the items in order.
impl<T: Packable, B: Bounded> Packable for VecPrefix<T, B> {
    type UnpackError = UnpackPrefixError<T::UnpackError, B::UnpackError>;

    type UnpackVisitor = T::UnpackVisitor;

    open spec fn valid(&self) -> bool {
        B::spec_min() <= self@.len() <= B::spec_max() && all_valid(self@)
    }

    open spec fn passes(&self, visitor: &T::UnpackVisitor) -> bool {
        all_pass(self@, visitor)
    }

    open spec fn spec_pack(&self) -> Seq<u8> {
        le_bytes(self@.len(), B::spec_width()) + spec_pack_items(self@)
    }

    open spec fn spec_unpack(bytes: Seq<u8>, visitor: &T::UnpackVisitor, verify: bool) -> Decoded<
        Seq<T::V>,
        UnpackPrefixError<<T::UnpackError as ErrorView>::View, <B::UnpackError as ErrorView>::View>,
    > {
        match B::spec_unpack(bytes, &(), verify) {
            Decoded::Done(prefix, n) => match spec_unpack_items::<T>(
                bytes.skip(n as int),
                B::spec_len_of(prefix),
                visitor,
                verify,
            ) {
                Decoded::Done(items, m) => Decoded::Done(items, n + m),
                Decoded::Invalid(e) => Decoded::Invalid(UnpackPrefixError::Item(e)),
                Decoded::Short(required, had) => Decoded::Short(required, had),
            },
            Decoded::Invalid(e) => Decoded::Invalid(UnpackPrefixError::Prefix(e)),
            Decoded::Short(required, had) => Decoded::Short(required, had),
        }
    }

    proof fn lemma_round_trip(&self, rest: Seq<u8>, visitor: &T::UnpackVisitor, verify: bool) {
        let items = self@;
        let width = B::spec_width();
        let bytes = self.spec_pack() + rest;
        assert(bytes =~= le_bytes(items.len(), width) + (spec_pack_items(items) + rest));
        lemma_len_round_trip::<B>(items.len(), spec_pack_items(items) + rest, verify);
        lemma_le_bytes_len(items.len(), width);
        assert(bytes.skip(width as int) =~= spec_pack_items(items) + rest);
        lemma_items_round_trip::<T>(items, rest, visitor, verify);
    }

    proof fn lemma_truncated(&self, len: nat, visitor: &T::UnpackVisitor, verify: bool) {
        let items = self@;
        let count = items.len();
        let width = B::spec_width();
        let cut = self.spec_pack().take(len as int);
        lemma_le_bytes_len(count, width);
        if len < width {
            assert(cut =~= le_bytes(count, width).take(len as int));
            crate::prefix::lemma_len_truncated::<B>(count, len, verify);
        } else {
            let left = (len - width) as nat;
            let tail = spec_pack_items(items).take(left as int);
            assert(cut =~= le_bytes(count, width) + tail);
            lemma_len_round_trip::<B>(count, tail, verify);
            assert(cut.skip(width as int) =~= tail);
            crate::items::lemma_items_truncated::<T>(items, left, visitor, verify);
        }
    }

    proof fn lemma_invalid_can_occur(bytes: Seq<u8>, visitor: &T::UnpackVisitor, verify: bool) {
        B::lemma_invalid_can_occur(bytes, &(), verify);
        if let Decoded::Done(prefix, n) = B::spec_unpack(bytes, &(), verify) {
            crate::items::lemma_items_invalid_can_occur::<T>(
                bytes.skip(n as int),
                B::spec_len_of(prefix),
                visitor,
                verify,
            );
        }
        assert(<UnpackPrefixError<T::UnpackError, B::UnpackError> as ErrorView>::can_occur() == (<
            T::UnpackError as ErrorView
        >::can_occur() || <B::UnpackError as ErrorView>::can_occur()));
    }

    fn pack<P: Packer>(&self, packer: &mut P) -> (r: Result<(), P::Error>) {
        let ghost before = *packer;
        pack_len::<B, P>(self.inner.len(), packer)?;
        let ghost between = *packer;
        let r = pack_items(self.inner.as_slice(), packer);
        proof {
            if r is Ok {
                lemma_accepted_twice(
                    &before,
                    &between,
                    packer,
                    le_bytes(self.inner@.len(), B::spec_width()),
                    spec_pack_items(self.inner@),
                );
            }
        }
        r
    }

    fn unpack<U: Unpacker, const VERIFY: bool>(
        unpacker: &mut U,
        visitor: &T::UnpackVisitor,
    ) -> (r: Result<Self, UnpackError<Self::UnpackError, U::Error>>) {
        let ghost bytes = unpacker.remaining();
        let ghost first = B::spec_unpack(bytes, &(), VERIFY);
        let len = match unpack_len::<B, U, VERIFY>(unpacker) {
            Ok(len) => len,
            Err(UnpackError::Packable(e)) => {
                let err: UnpackPrefixError<T::UnpackError, B::UnpackError> =
                    UnpackPrefixError::Prefix(e);
                proof {
                    assert(err.error_view() == UnpackPrefixError::<
                        <T::UnpackError as ErrorView>::View,
                        <B::UnpackError as ErrorView>::View,
                    >::Prefix(e.error_view()));
                }
                return Err(UnpackError::Packable(err));
            },
            Err(UnpackError::Unpacker(e)) => {
                return Err(UnpackError::Unpacker(e));
            },
        };
        match unpack_items::<T, U, VERIFY>(unpacker, visitor, len) {
            Ok(items) => {
                proof {
                    let n = first->Done_1;
                    let m = spec_unpack_items::<T>(
                        bytes.skip(n as int),
                        len as nat,
                        visitor,
                        VERIFY,
                    )->Done_1;
                    assert(bytes.skip(n as int).skip(m as int) =~= bytes.skip(n as int + m));
                }
                Ok(VecPrefix { inner: items, bounded: PhantomData })
            },
            Err(UnpackError::Packable(e)) => {
                let err: UnpackPrefixError<T::UnpackError, B::UnpackError> =
                    UnpackPrefixError::Item(e);
                proof {
                    assert(err.error_view() == UnpackPrefixError::<
                        <T::UnpackError as ErrorView>::View,
                        <B::UnpackError as ErrorView>::View,
                    >::Item(e.error_view()));
                }
                Err(UnpackError::Packable(err))
            },
            Err(UnpackError::Unpacker(e)) => Err(UnpackError::Unpacker(e)),
        }
    }
}

} // verus!
