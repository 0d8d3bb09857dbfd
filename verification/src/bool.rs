//! Booleans: one byte.

use core::convert::Infallible;
use vstd::prelude::*;

use crate::error::UnpackError;
use crate::packable::{Decoded, Packable};
use crate::packer::Packer;
use crate::unpacker::Unpacker;

verus! {

/// `bool`: `true` is packed as the byte 1 and `false` as the byte 0. Unpacking is less
/// strict: every byte but 0 is `true`.
impl Packable for bool {
    type UnpackError = Infallible;

    type UnpackVisitor = ();

    open spec fn valid(&self) -> bool {
        true
    }

    open spec fn passes(&self, visitor: &()) -> bool {
        true
    }

    open spec fn spec_pack(&self) -> Seq<u8> {
        if *self {
            seq![1u8]
        } else {
            seq![0u8]
        }
    }

    open spec fn spec_unpack(bytes: Seq<u8>, visitor: &(), verify: bool) -> Decoded<bool, ()> {
        if bytes.len() >= 1 {
            Decoded::Done(bytes[0] != 0, 1)
        } else {
            Decoded::Short(1, bytes.len())
        }
    }

    proof fn lemma_round_trip(&self, rest: Seq<u8>, visitor: &(), verify: bool) {
    }

    proof fn lemma_truncated(&self, len: nat, visitor: &(), verify: bool) {
    }

    proof fn lemma_invalid_can_occur(bytes: Seq<u8>, visitor: &(), verify: bool) {
    }

    fn pack<P: Packer>(&self, packer: &mut P) -> (r: Result<(), P::Error>) {
        let byte: u8 = if *self {
            1
        } else {
            0
        };
        proof {
            lemma_byte_encoding(byte);
        }
        byte.pack(packer)
    }

    fn unpack<U: Unpacker, const VERIFY: bool>(unpacker: &mut U, visitor: &()) -> (r: Result<
        Self,
        UnpackError<Infallible, U::Error>,
    >) {
        proof {
            if unpacker.remaining().len() >= 1 {
                lemma_byte_decoding(unpacker.remaining());
            }
        }
        match u8::unpack::<U, VERIFY>(unpacker, visitor) {
            Ok(byte) => Ok(byte != 0),
            Err(e) => Err(UnpackError::Unpacker(e.into_unpacker_err())),
        }
    }
}

/// A boolean is packed as the byte 1 or 0, and whatever the checks asked for, the byte 0 is
/// unpacked as `false` and every other byte as `true`.
pub proof fn lemma_bool_tolerance(byte: u8, rest: Seq<u8>, verify: bool)
    ensures
        true.spec_pack() == seq![1u8],
        false.spec_pack() == seq![0u8],
        bool::spec_unpack(seq![byte] + rest, &(), verify) == Decoded::<bool, ()>::Done(
            byte != 0,
            1,
        ),
{
}

/// The encoding of a byte is the byte.
pub proof fn lemma_byte_encoding(byte: u8)
    ensures
        byte.spec_pack() == seq![byte],
{
    reveal_with_fuel(crate::le::le_bytes, 2);
    assert(byte.spec_pack() =~= seq![byte]);
}

/// A byte string that is not empty decodes, as a byte, to its first byte.
pub proof fn lemma_byte_decoding(bytes: Seq<u8>)
    requires
        bytes.len() >= 1,
    ensures
        u8::spec_unpack(bytes, &(), true) == Decoded::<u8, ()>::Done(bytes[0], 1),
        u8::spec_unpack(bytes, &(), false) == Decoded::<u8, ()>::Done(bytes[0], 1),
{
    reveal_with_fuel(crate::le::le_value, 2);
    assert(bytes.take(1).skip(1).len() == 0);
}

} // verus!
