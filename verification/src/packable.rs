//! The contract of values that have a byte encoding.

use vstd::prelude::*;

use crate::error::{ErrorView, UnexpectedEOF, UnpackError};
use crate::packer::{accepted, LenPacker, Packer};
use crate::tally::clip;
use crate::unpacker::{advanced, SliceUnpacker, Unpacker};

verus! {

/// What decoding a byte string comes to.
pub enum Decoded<T, E> {
    /// The bytes start with the encoding of a value: its view, and the number of bytes that
    /// the encoding takes.
    Done(T, nat),
    /// The bytes were there but describe no value: the view of the semantic error.
    Invalid(E),
    /// The bytes ran out: a read asked for `.0` bytes when `.1` were left.
    Short(nat, nat),
}

/// A type whose values can be packed into bytes and unpacked from them.
///
/// The encoding of a value is `spec_pack`; what a byte string decodes to is `spec_unpack`,
/// which speaks of values through their deep views. `pack` and `unpack` compute the two on
/// any sink and any source.
pub trait Packable: Sized + DeepView {
    /// The semantic error of unpacking.
    type UnpackError: ErrorView;

    /// Context that the caller hands to `unpack`, passed on to the parts of a value.
    type UnpackVisitor;

    /// Whether the value keeps the invariant of its type. Only such values are packed.
    spec fn valid(&self) -> bool;

    /// Whether the value passes the checks against the visitor that unpacking makes of a
    /// value.
    spec fn passes(&self, visitor: &Self::UnpackVisitor) -> bool;

    /// The encoding of the value.
    spec fn spec_pack(&self) -> Seq<u8>;

    /// What `bytes` decode to. With `verify` unset, checks that only guard against bytes
    /// which no `pack` wrote may be left out.
    spec fn spec_unpack(bytes: Seq<u8>, visitor: &Self::UnpackVisitor, verify: bool) -> Decoded<
        Self::V,
        <Self::UnpackError as ErrorView>::View,
    >;

    /// Unpacking the encoding of a value that passes the checks against the visitor gives the
    /// value back, and reads the encoding and no byte behind it, with every check and
    /// without.
    proof fn lemma_round_trip(
        &self,
        rest: Seq<u8>,
        visitor: &Self::UnpackVisitor,
        verify: bool,
    )
        requires
            self.valid(),
            self.passes(visitor),
        ensures
            Self::spec_unpack(self.spec_pack() + rest, visitor, verify) == Decoded::<
                Self::V,
                <Self::UnpackError as ErrorView>::View,
            >::Done(self.deep_view(), self.spec_pack().len()),
    ;

    /// Unpacking the encoding of a value cut short fails for want of bytes, with no other
    /// error, with every check and without.
    proof fn lemma_truncated(&self, len: nat, visitor: &Self::UnpackVisitor, verify: bool)
        requires
            self.valid(),
            self.passes(visitor),
            len < self.spec_pack().len(),
        ensures
            Self::spec_unpack(self.spec_pack().take(len as int), visitor, verify) is Short,
    ;

    /// Bytes decode to a semantic error only where the type of the error has values.
    proof fn lemma_invalid_can_occur(bytes: Seq<u8>, visitor: &Self::UnpackVisitor, verify: bool)
        ensures
            Self::spec_unpack(bytes, visitor, verify) is Invalid ==> <
                Self::UnpackError as ErrorView
            >::can_occur(),
    ;

    /// Packs the value into `packer`. Fails only where the sink does.
    fn pack<P: Packer>(&self, packer: &mut P) -> (r: Result<(), P::Error>)
        requires
            self.valid(),
        ensures
            accepted(old(packer), final(packer), r is Ok, self.spec_pack()),
    ;

    /// Unpacks a value from `unpacker`.
    fn unpack<U: Unpacker, const VERIFY: bool>(
        unpacker: &mut U,
        visitor: &Self::UnpackVisitor,
    ) -> (r: Result<Self, UnpackError<Self::UnpackError, U::Error>>)
        ensures
            match Self::spec_unpack(old(unpacker).remaining(), visitor, VERIFY) {
                Decoded::Done(v, n) => {
                    &&& r matches Ok(x) && x.deep_view() == v && x.valid()
                    &&& advanced(old(unpacker), final(unpacker), n)
                },
                Decoded::Invalid(e) => r matches Err(UnpackError::Packable(x)) && x.error_view()
                    == e,
                Decoded::Short(required, had) => r matches Err(UnpackError::Unpacker(x))
                    && U::is_eof(x, required, had),
            },
    ;
}

/// Unpacking what `pack` wrote of a value that passes the checks against the visitor gives
/// the value back and reads all that was written, with every check and without.
pub proof fn lemma_unpack_packed<T: Packable>(
    value: &T,
    visitor: &T::UnpackVisitor,
    verify: bool,
)
    requires
        value.valid(),
        value.passes(visitor),
    ensures
        T::spec_unpack(value.spec_pack(), visitor, verify) == Decoded::<
            T::V,
            <T::UnpackError as ErrorView>::View,
        >::Done(value.deep_view(), value.spec_pack().len()),
{
    value.lemma_round_trip(Seq::empty(), visitor, verify);
    assert(value.spec_pack() + Seq::<u8>::empty() =~= value.spec_pack());
}

/// Conveniences that every packable type has.
pub trait PackableExt: Packable {
    /// The length in bytes of the packed value: the number of bytes that `pack` writes, or
    /// `usize::MAX` where that number is larger.
    fn packed_len(&self) -> (r: usize)
        requires
            self.valid(),
        ensures
            r == clip(self.spec_pack().len()),
    ;

    /// Packs the value into a new vector.
    fn pack_to_vec(&self) -> (r: Vec<u8>)
        requires
            self.valid(),
        ensures
            r@ == self.spec_pack(),
    ;

    /// Unpacks a value from the start of `bytes`, with every check.
    fn unpack_verified(bytes: &[u8], visitor: &Self::UnpackVisitor) -> (r: Result<
        Self,
        UnpackError<<Self as Packable>::UnpackError, UnexpectedEOF>,
    >)
        ensures
            match Self::spec_unpack(bytes@, visitor, true) {
                Decoded::Done(v, n) => r matches Ok(x) && x.deep_view() == v && x.valid() && n
                    <= bytes@.len(),
                Decoded::Invalid(e) => r matches Err(UnpackError::Packable(x)) && x.error_view()
                    == e,
                Decoded::Short(required, had) => r matches Err(UnpackError::Unpacker(x))
                    && x.required == required && x.had == had,
            },
    ;

    /// Unpacks a value from the start of `bytes`, without the checks that `unpack` may leave
    /// out for bytes that `pack` wrote.
    fn unpack_unverified(bytes: &[u8], visitor: &Self::UnpackVisitor) -> (r: Result<
        Self,
        UnpackError<<Self as Packable>::UnpackError, UnexpectedEOF>,
    >)
        ensures
            match Self::spec_unpack(bytes@, visitor, false) {
                Decoded::Done(v, n) => r matches Ok(x) && x.deep_view() == v && x.valid() && n
                    <= bytes@.len(),
                Decoded::Invalid(e) => r matches Err(UnpackError::Packable(x)) && x.error_view()
                    == e,
                Decoded::Short(required, had) => r matches Err(UnpackError::Unpacker(x))
                    && x.required == required && x.had == had,
            },
    ;
}

impl<P: Packable> PackableExt for P {
    fn packed_len(&self) -> (r: usize) {
        let mut packer = LenPacker::new();
        let ghost before = packer;
        let r = self.pack(&mut packer);
        proof {
            assert(before.has_room(self.spec_pack().len()));
            assert(Seq::<u8>::empty() + self.spec_pack() =~= self.spec_pack());
        }
        packer.len()
    }

    fn pack_to_vec(&self) -> (r: Vec<u8>) {
        let len = self.packed_len();
        let mut packer: Vec<u8> = if len <= isize::MAX as usize {
            Vec::with_capacity(len)
        } else {
            Vec::new()
        };
        let ghost before = packer;
        let r = self.pack(&mut packer);
        proof {
            assert(before.has_room(self.spec_pack().len()));
            assert(Seq::<u8>::empty() + self.spec_pack() =~= self.spec_pack());
        }
        packer
    }

    fn unpack_verified(bytes: &[u8], visitor: &Self::UnpackVisitor) -> (r: Result<
        Self,
        UnpackError<<Self as Packable>::UnpackError, UnexpectedEOF>,
    >) {
        let mut unpacker = SliceUnpacker::new(bytes);
        Self::unpack::<SliceUnpacker, true>(&mut unpacker, visitor)
    }

    fn unpack_unverified(bytes: &[u8], visitor: &Self::UnpackVisitor) -> (r: Result<
        Self,
        UnpackError<<Self as Packable>::UnpackError, UnexpectedEOF>,
    >) {
        let mut unpacker = SliceUnpacker::new(bytes);
        Self::unpack::<SliceUnpacker, false>(&mut unpacker, visitor)
    }
}

} // verus!
