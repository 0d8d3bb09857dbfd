//! A struct with a check of its own: how a type whose values are held against the caller's
//! context implements [`Packable`] by hand.

use vstd::prelude::*;

use crate::bool::{lemma_byte_decoding, lemma_byte_encoding};
use crate::error::{CoerceInto, ErrorView, UnpackError};
use crate::packable::{Decoded, Packable};
use crate::packer::Packer;
use crate::unpacker::Unpacker;
use crate::visitor::Narrow;

verus! {

/// A byte that unpacking with every check holds against a cap, which the caller gives as
/// the visitor.
#[derive(Clone, Copy, Debug, PartialEq, Eq, Structural)]
pub struct Capped(pub u8);

/// The byte that was unpacked lies above the cap.
#[derive(Clone, Copy, Debug, PartialEq, Eq, Structural)]
pub struct OverCap {
    /// The byte that was unpacked.
    pub value: u8,
    /// The cap that it was held against.
    pub cap: u8,
}

impl ErrorView for OverCap {
    type View = OverCap;

    open spec fn error_view(&self) -> OverCap {
        *self
    }

    open spec fn can_occur() -> bool {
        true
    }
}

/// An error of this type turns into itself.
impl CoerceInto<OverCap> for OverCap {
    open spec fn spec_coerce(view: OverCap) -> OverCap {
        view
    }

    proof fn lemma_coerce_can_occur() {
    }

    fn coerce_into(self) -> (r: OverCap) {
        self
    }
}

/// A cap is the cap of every capped part of a value.
impl Narrow<u8> for u8 {
    open spec fn spec_narrow(&self) -> &u8 {
        self
    }

    fn narrow(&self) -> (r: &u8) {
        self
    }
}

impl DeepView for Capped {
    type V = Capped;

    open spec fn deep_view(&self) -> Capped {
        *self
    }
}

/// `Capped`: its one byte. Unpacking with every check fails where the byte lies above the
/// cap, with the byte and the cap; without the checks any byte is taken.
impl Packable for Capped {
    type UnpackError = OverCap;

    type UnpackVisitor = u8;

    open spec fn valid(&self) -> bool {
        true
    }

    open spec fn passes(&self, visitor: &u8) -> bool {
        self.0 <= *visitor
    }

    open spec fn spec_pack(&self) -> Seq<u8> {
        seq![self.0]
    }

    open spec fn spec_unpack(bytes: Seq<u8>, visitor: &u8, verify: bool) -> Decoded<
        Capped,
        OverCap,
    > {
        if bytes.len() < 1 {
            Decoded::Short(1, bytes.len())
        } else if verify && bytes[0] > *visitor {
            Decoded::Invalid((OverCap { value: bytes[0], cap: *visitor }))
        } else {
            Decoded::Done(Capped(bytes[0]), 1)
        }
    }

    proof fn lemma_round_trip(&self, rest: Seq<u8>, visitor: &u8, verify: bool) {
    }

    proof fn lemma_truncated(&self, len: nat, visitor: &u8, verify: bool) {
    }

    proof fn lemma_invalid_can_occur(bytes: Seq<u8>, visitor: &u8, verify: bool) {
    }

    fn pack<P: Packer>(&self, packer: &mut P) -> (r: Result<(), P::Error>) {
        proof {
            lemma_byte_encoding(self.0);
        }
        self.0.pack(packer)
    }

    fn unpack<U: Unpacker, const VERIFY: bool>(unpacker: &mut U, visitor: &u8) -> (r: Result<
        Self,
        UnpackError<OverCap, U::Error>,
    >) {
        proof {
            if unpacker.remaining().len() >= 1 {
                lemma_byte_decoding(unpacker.remaining());
            }
        }
        let value = match u8::unpack::<U, VERIFY>(unpacker, &()) {
            Ok(value) => value,
            Err(e) => {
                return Err(UnpackError::Unpacker(e.into_unpacker_err()));
            },
        };
        if VERIFY && value > *visitor {
            Err(UnpackError::Packable(OverCap { value, cap: *visitor }))
        } else {
            Ok(Capped(value))
        }
    }
}

/// A byte above the cap is packed as any other, and unpacking what was packed with every
/// check gives the error, with the byte and the cap.
pub proof fn lemma_over_cap_refused(value: Capped, rest: Seq<u8>, cap: u8)
    requires
        value.0 > cap,
    ensures
        Capped::spec_unpack(value.spec_pack() + rest, &cap, true) == Decoded::<
            Capped,
            OverCap,
        >::Invalid((OverCap { value: value.0, cap })),
        Capped::spec_unpack(value.spec_pack() + rest, &cap, false) == Decoded::<
            Capped,
            OverCap,
        >::Done(value, 1),
{
}

} // verus!
