//! An enum packed behind a tag: how a type of several variants implements [`Packable`] by
//! hand.

use vstd::prelude::*;

use crate::error::{UnknownTagError, UnpackError};
use crate::bool::{lemma_byte_decoding, lemma_byte_encoding};
use crate::le::{from_twos_complement, le_value};
use crate::packable::{Decoded, Packable};
use crate::packer::{lemma_accepted_twice, Packer};
use crate::unpacker::Unpacker;

verus! {

/// An `i32` that may be missing.
#[derive(Clone, Copy, Debug, PartialEq, Eq, Structural)]
pub enum Maybe {
    /// No number: packed as the tag 0.
    Nothing,
    /// A number: packed as the tag 1, then the number.
    Just(i32),
}

impl DeepView for Maybe {
    type V = Maybe;

    open spec fn deep_view(&self) -> Maybe {
        *self
    }
}

/// `Maybe`: a tag byte, 0 or 1, then the fields of the variant that the tag stands for.
/// Unpacking fails on any other tag, with the tag.
impl Packable for Maybe {
    type UnpackError = UnknownTagError<u8>;

    type UnpackVisitor = ();

    open spec fn valid(&self) -> bool {
        true
    }

    open spec fn passes(&self, visitor: &()) -> bool {
        true
    }

    open spec fn spec_pack(&self) -> Seq<u8> {
        match self {
            Maybe::Nothing => seq![0u8],
            Maybe::Just(value) => seq![1u8] + value.spec_pack(),
        }
    }

    open spec fn spec_unpack(bytes: Seq<u8>, visitor: &(), verify: bool) -> Decoded<Maybe, u8> {
        if bytes.len() < 1 {
            Decoded::Short(1, bytes.len())
        } else if bytes[0] == 0 {
            Decoded::Done(Maybe::Nothing, 1)
        } else if bytes[0] == 1 {
            if bytes.len() < 5 {
                Decoded::Short(4, (bytes.len() - 1) as nat)
            } else {
                Decoded::Done(
                    Maybe::Just(
                        from_twos_complement(le_value(bytes.skip(1).take(4)), 4) as i32,
                    ),
                    5,
                )
            }
        } else {
            Decoded::Invalid(bytes[0])
        }
    }

    proof fn lemma_round_trip(&self, rest: Seq<u8>, visitor: &(), verify: bool) {
        match self {
            Maybe::Nothing => {},
            Maybe::Just(value) => {
                value.lemma_round_trip(rest, visitor, verify);
                assert((self.spec_pack() + rest).skip(1) =~= value.spec_pack() + rest);
            },
        }
    }

    proof fn lemma_truncated(&self, len: nat, visitor: &(), verify: bool) {
        match self {
            Maybe::Nothing => {},
            Maybe::Just(value) => {
                crate::le::lemma_le_bytes_len(
                    crate::le::twos_complement(*value as int, 4),
                    4,
                );
            },
        }
    }

    proof fn lemma_invalid_can_occur(bytes: Seq<u8>, visitor: &(), verify: bool) {
    }

    fn pack<P: Packer>(&self, packer: &mut P) -> (r: Result<(), P::Error>) {
        proof {
            lemma_byte_encoding(0);
            lemma_byte_encoding(1);
        }
        match self {
            Maybe::Nothing => 0u8.pack(packer),
            Maybe::Just(value) => {
                let ghost before = *packer;
                1u8.pack(packer)?;
                let ghost between = *packer;
                let r = value.pack(packer);
                proof {
                    if r is Ok {
                        lemma_accepted_twice(
                            &before,
                            &between,
                            packer,
                            seq![1u8],
                            value.spec_pack(),
                        );
                    }
                }
                r
            },
        }
    }

    fn unpack<U: Unpacker, const VERIFY: bool>(unpacker: &mut U, visitor: &()) -> (r: Result<
        Self,
        UnpackError<UnknownTagError<u8>, U::Error>,
    >) {
        proof {
            if unpacker.remaining().len() >= 1 {
                lemma_byte_decoding(unpacker.remaining());
            }
        }
        let ghost before = unpacker.remaining();
        let tag = match u8::unpack::<U, VERIFY>(unpacker, visitor) {
            Ok(tag) => tag,
            Err(e) => {
                return Err(UnpackError::Unpacker(e.into_unpacker_err()));
            },
        };
        if tag == 0 {
            Ok(Maybe::Nothing)
        } else if tag == 1 {
            match i32::unpack::<U, VERIFY>(unpacker, visitor) {
                Ok(value) => {
                    proof {
                        assert(before.skip(1).skip(4) =~= before.skip(5));
                    }
                    Ok(Maybe::Just(value))
                },
                Err(e) => Err(UnpackError::Unpacker(e.into_unpacker_err())),
            }
        } else {
            Err(UnpackError::Packable(UnknownTagError(tag)))
        }
    }
}

} // verus!
