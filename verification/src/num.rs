//! Integers: fixed width, least significant byte first.

use core::convert::Infallible;
use vstd::prelude::*;

use crate::error::{ErrorView, UnpackError};
use crate::le::{
    from_twos_complement, le_bytes, le_value, lemma_le_bytes_len, lemma_le_bytes_of_value,
    lemma_le_value_of_bytes, lemma_radix_pow_values, pack_le, twos_complement, unpack_le,
};
use crate::packable::{Decoded, Packable};
use crate::packer::Packer;
use crate::unpacker::Unpacker;

verus! {

/// `u8`: 1 byte, least significant first.
impl Packable for u8 {
    type UnpackError = Infallible;

    type UnpackVisitor = ();

    open spec fn valid(&self) -> bool {
        true
    }

    open spec fn passes(&self, visitor: &()) -> bool {
        true
    }

    open spec fn spec_pack(&self) -> Seq<u8> {
        le_bytes(*self as nat, 1)
    }

    open spec fn spec_unpack(bytes: Seq<u8>, visitor: &(), verify: bool) -> Decoded<u8, ()> {
        if bytes.len() >= 1 {
            Decoded::Done(le_value(bytes.take(1)) as u8, 1)
        } else {
            Decoded::Short(1, bytes.len())
        }
    }

    proof fn lemma_round_trip(&self, rest: Seq<u8>, visitor: &(), verify: bool) {
        lemma_radix_pow_values();
        lemma_le_bytes_len(*self as nat, 1);
        lemma_le_value_of_bytes(*self as nat, 1);
        assert((self.spec_pack() + rest).take(1) =~= self.spec_pack());
    }

    proof fn lemma_truncated(&self, len: nat, visitor: &(), verify: bool) {
        lemma_le_bytes_len(*self as nat, 1);
    }

    proof fn lemma_invalid_can_occur(bytes: Seq<u8>, visitor: &(), verify: bool) {
    }

    fn pack<P: Packer>(&self, packer: &mut P) -> (r: Result<(), P::Error>) {
        pack_le(*self as u128, 1, packer)
    }

    fn unpack<U: Unpacker, const VERIFY: bool>(unpacker: &mut U, visitor: &()) -> (r: Result<
        Self,
        UnpackError<Infallible, U::Error>,
    >) {
        let ghost bytes = unpacker.remaining();
        match unpack_le(unpacker, 1) {
            Ok(value) => {
                proof {
                    lemma_radix_pow_values();
                    assert(forall|x: u8| #[trigger] x.valid());
                    assert(Self::spec_unpack(bytes, visitor, VERIFY) == Decoded::<u8, ()>::Done(
                        value as u8,
                        1,
                    ));
                }
                Ok(value as u8)
            },
            Err(e) => {
                proof {
                    assert(Self::spec_unpack(bytes, visitor, VERIFY) == Decoded::<u8, ()>::Short(
                        1,
                        bytes.len(),
                    ));
                }
                Err(UnpackError::Unpacker(e))
            },
        }
    }
}

/// `u16`: 2 bytes, least significant first.
impl Packable for u16 {
    type UnpackError = Infallible;

    type UnpackVisitor = ();

    open spec fn valid(&self) -> bool {
        true
    }

    open spec fn passes(&self, visitor: &()) -> bool {
        true
    }

    open spec fn spec_pack(&self) -> Seq<u8> {
        le_bytes(*self as nat, 2)
    }

    open spec fn spec_unpack(bytes: Seq<u8>, visitor: &(), verify: bool) -> Decoded<u16, ()> {
        if bytes.len() >= 2 {
            Decoded::Done(le_value(bytes.take(2)) as u16, 2)
        } else {
            Decoded::Short(2, bytes.len())
        }
    }

    proof fn lemma_round_trip(&self, rest: Seq<u8>, visitor: &(), verify: bool) {
        lemma_radix_pow_values();
        lemma_le_bytes_len(*self as nat, 2);
        lemma_le_value_of_bytes(*self as nat, 2);
        assert((self.spec_pack() + rest).take(2) =~= self.spec_pack());
    }

    proof fn lemma_truncated(&self, len: nat, visitor: &(), verify: bool) {
        lemma_le_bytes_len(*self as nat, 2);
    }

    proof fn lemma_invalid_can_occur(bytes: Seq<u8>, visitor: &(), verify: bool) {
    }

    fn pack<P: Packer>(&self, packer: &mut P) -> (r: Result<(), P::Error>) {
        pack_le(*self as u128, 2, packer)
    }

    fn unpack<U: Unpacker, const VERIFY: bool>(unpacker: &mut U, visitor: &()) -> (r: Result<
        Self,
        UnpackError<Infallible, U::Error>,
    >) {
        let ghost bytes = unpacker.remaining();
        match unpack_le(unpacker, 2) {
            Ok(value) => {
                proof {
                    lemma_radix_pow_values();
                    assert(forall|x: u16| #[trigger] x.valid());
                    assert(Self::spec_unpack(bytes, visitor, VERIFY) == Decoded::<u16, ()>::Done(
                        value as u16,
                        2,
                    ));
                }
                Ok(value as u16)
            },
            Err(e) => {
                proof {
                    assert(Self::spec_unpack(bytes, visitor, VERIFY) == Decoded::<u16, ()>::Short(
                        2,
                        bytes.len(),
                    ));
                }
                Err(UnpackError::Unpacker(e))
            },
        }
    }
}

/// `u32`: 4 bytes, least significant first.
impl Packable for u32 {
    type UnpackError = Infallible;

    type UnpackVisitor = ();

    open spec fn valid(&self) -> bool {
        true
    }

    open spec fn passes(&self, visitor: &()) -> bool {
        true
    }

    open spec fn spec_pack(&self) -> Seq<u8> {
        le_bytes(*self as nat, 4)
    }

    open spec fn spec_unpack(bytes: Seq<u8>, visitor: &(), verify: bool) -> Decoded<u32, ()> {
        if bytes.len() >= 4 {
            Decoded::Done(le_value(bytes.take(4)) as u32, 4)
        } else {
            Decoded::Short(4, bytes.len())
        }
    }

    proof fn lemma_round_trip(&self, rest: Seq<u8>, visitor: &(), verify: bool) {
        lemma_radix_pow_values();
        lemma_le_bytes_len(*self as nat, 4);
        lemma_le_value_of_bytes(*self as nat, 4);
        assert((self.spec_pack() + rest).take(4) =~= self.spec_pack());
    }

    proof fn lemma_truncated(&self, len: nat, visitor: &(), verify: bool) {
        lemma_le_bytes_len(*self as nat, 4);
    }

    proof fn lemma_invalid_can_occur(bytes: Seq<u8>, visitor: &(), verify: bool) {
    }

    fn pack<P: Packer>(&self, packer: &mut P) -> (r: Result<(), P::Error>) {
        pack_le(*self as u128, 4, packer)
    }

    fn unpack<U: Unpacker, const VERIFY: bool>(unpacker: &mut U, visitor: &()) -> (r: Result<
        Self,
        UnpackError<Infallible, U::Error>,
    >) {
        let ghost bytes = unpacker.remaining();
        match unpack_le(unpacker, 4) {
            Ok(value) => {
                proof {
                    lemma_radix_pow_values();
                    assert(forall|x: u32| #[trigger] x.valid());
                    assert(Self::spec_unpack(bytes, visitor, VERIFY) == Decoded::<u32, ()>::Done(
                        value as u32,
                        4,
                    ));
                }
                Ok(value as u32)
            },
            Err(e) => {
                proof {
                    assert(Self::spec_unpack(bytes, visitor, VERIFY) == Decoded::<u32, ()>::Short(
                        4,
                        bytes.len(),
                    ));
                }
                Err(UnpackError::Unpacker(e))
            },
        }
    }
}

/// `u64`: 8 bytes, least significant first.
impl Packable for u64 {
    type UnpackError = Infallible;

    type UnpackVisitor = ();

    open spec fn valid(&self) -> bool {
        true
    }

    open spec fn passes(&self, visitor: &()) -> bool {
        true
    }

    open spec fn spec_pack(&self) -> Seq<u8> {
        le_bytes(*self as nat, 8)
    }

    open spec fn spec_unpack(bytes: Seq<u8>, visitor: &(), verify: bool) -> Decoded<u64, ()> {
        if bytes.len() >= 8 {
            Decoded::Done(le_value(bytes.take(8)) as u64, 8)
        } else {
            Decoded::Short(8, bytes.len())
        }
    }

    proof fn lemma_round_trip(&self, rest: Seq<u8>, visitor: &(), verify: bool) {
        lemma_radix_pow_values();
        lemma_le_bytes_len(*self as nat, 8);
        lemma_le_value_of_bytes(*self as nat, 8);
        assert((self.spec_pack() + rest).take(8) =~= self.spec_pack());
    }

    proof fn lemma_truncated(&self, len: nat, visitor: &(), verify: bool) {
        lemma_le_bytes_len(*self as nat, 8);
    }

    proof fn lemma_invalid_can_occur(bytes: Seq<u8>, visitor: &(), verify: bool) {
    }

    fn pack<P: Packer>(&self, packer: &mut P) -> (r: Result<(), P::Error>) {
        pack_le(*self as u128, 8, packer)
    }

    fn unpack<U: Unpacker, const VERIFY: bool>(unpacker: &mut U, visitor: &()) -> (r: Result<
        Self,
        UnpackError<Infallible, U::Error>,
    >) {
        let ghost bytes = unpacker.remaining();
        match unpack_le(unpacker, 8) {
            Ok(value) => {
                proof {
                    lemma_radix_pow_values();
                    assert(forall|x: u64| #[trigger] x.valid());
                    assert(Self::spec_unpack(bytes, visitor, VERIFY) == Decoded::<u64, ()>::Done(
                        value as u64,
                        8,
                    ));
                }
                Ok(value as u64)
            },
            Err(e) => {
                proof {
                    assert(Self::spec_unpack(bytes, visitor, VERIFY) == Decoded::<u64, ()>::Short(
                        8,
                        bytes.len(),
                    ));
                }
                Err(UnpackError::Unpacker(e))
            },
        }
    }
}

/// `u128`: 16 bytes, least significant first.
impl Packable for u128 {
    type UnpackError = Infallible;

    type UnpackVisitor = ();

    open spec fn valid(&self) -> bool {
        true
    }

    open spec fn passes(&self, visitor: &()) -> bool {
        true
    }

    open spec fn spec_pack(&self) -> Seq<u8> {
        le_bytes(*self as nat, 16)
    }

    open spec fn spec_unpack(bytes: Seq<u8>, visitor: &(), verify: bool) -> Decoded<u128, ()> {
        if bytes.len() >= 16 {
            Decoded::Done(le_value(bytes.take(16)) as u128, 16)
        } else {
            Decoded::Short(16, bytes.len())
        }
    }

    proof fn lemma_round_trip(&self, rest: Seq<u8>, visitor: &(), verify: bool) {
        lemma_radix_pow_values();
        lemma_le_bytes_len(*self as nat, 16);
        lemma_le_value_of_bytes(*self as nat, 16);
        assert((self.spec_pack() + rest).take(16) =~= self.spec_pack());
    }

    proof fn lemma_truncated(&self, len: nat, visitor: &(), verify: bool) {
        lemma_le_bytes_len(*self as nat, 16);
    }

    proof fn lemma_invalid_can_occur(bytes: Seq<u8>, visitor: &(), verify: bool) {
    }

    fn pack<P: Packer>(&self, packer: &mut P) -> (r: Result<(), P::Error>) {
        pack_le(*self as u128, 16, packer)
    }

    fn unpack<U: Unpacker, const VERIFY: bool>(unpacker: &mut U, visitor: &()) -> (r: Result<
        Self,
        UnpackError<Infallible, U::Error>,
    >) {
        let ghost bytes = unpacker.remaining();
        match unpack_le(unpacker, 16) {
            Ok(value) => {
                proof {
                    lemma_radix_pow_values();
                    assert(forall|x: u128| #[trigger] x.valid());
                    assert(Self::spec_unpack(bytes, visitor, VERIFY) == Decoded::<u128, ()>::Done(
                        value as u128,
                        16,
                    ));
                }
                Ok(value as u128)
            },
            Err(e) => {
                proof {
                    assert(Self::spec_unpack(bytes, visitor, VERIFY) == Decoded::<u128, ()>::Short(
                        16,
                        bytes.len(),
                    ));
                }
                Err(UnpackError::Unpacker(e))
            },
        }
    }
}

/// `i8`: 1 byte of two's complement, least significant first.
impl Packable for i8 {
    type UnpackError = Infallible;

    type UnpackVisitor = ();

    open spec fn valid(&self) -> bool {
        true
    }

    open spec fn passes(&self, visitor: &()) -> bool {
        true
    }

    open spec fn spec_pack(&self) -> Seq<u8> {
        le_bytes(twos_complement(*self as int, 1), 1)
    }

    open spec fn spec_unpack(bytes: Seq<u8>, visitor: &(), verify: bool) -> Decoded<i8, ()> {
        if bytes.len() >= 1 {
            Decoded::Done(from_twos_complement(le_value(bytes.take(1)), 1) as i8, 1)
        } else {
            Decoded::Short(1, bytes.len())
        }
    }

    proof fn lemma_round_trip(&self, rest: Seq<u8>, visitor: &(), verify: bool) {
        lemma_radix_pow_values();
        let code = twos_complement(*self as int, 1);
        lemma_le_bytes_len(code, 1);
        lemma_le_value_of_bytes(code, 1);
        assert((self.spec_pack() + rest).take(1) =~= self.spec_pack());
    }

    proof fn lemma_truncated(&self, len: nat, visitor: &(), verify: bool) {
        lemma_le_bytes_len(twos_complement(*self as int, 1), 1);
    }

    proof fn lemma_invalid_can_occur(bytes: Seq<u8>, visitor: &(), verify: bool) {
    }

    fn pack<P: Packer>(&self, packer: &mut P) -> (r: Result<(), P::Error>) {
        proof {
            lemma_radix_pow_values();
        }
        let code: u128 = if *self >= 0 {
            *self as u128
        } else {
            (*self - i8::MIN) as u128 + 0x80
        };
        pack_le(code, 1, packer)
    }

    fn unpack<U: Unpacker, const VERIFY: bool>(unpacker: &mut U, visitor: &()) -> (r: Result<
        Self,
        UnpackError<Infallible, U::Error>,
    >) {
        let ghost bytes = unpacker.remaining();
        match unpack_le(unpacker, 1) {
            Ok(code) => {
                proof {
                    lemma_radix_pow_values();
                    assert(forall|x: i8| #[trigger] x.valid());
                    assert(Self::spec_unpack(bytes, visitor, VERIFY) == Decoded::<i8, ()>::Done(
                        from_twos_complement(code as nat, 1) as i8,
                        1,
                    ));
                }
                if code < 0x80 {
                    Ok(code as i8)
                } else {
                    Ok((code - 0x80) as i8 + i8::MIN)
                }
            },
            Err(e) => {
                proof {
                    assert(Self::spec_unpack(bytes, visitor, VERIFY) == Decoded::<i8, ()>::Short(
                        1,
                        bytes.len(),
                    ));
                }
                Err(UnpackError::Unpacker(e))
            },
        }
    }
}

/// `i16`: 2 bytes of two's complement, least significant first.
impl Packable for i16 {
    type UnpackError = Infallible;

    type UnpackVisitor = ();

    open spec fn valid(&self) -> bool {
        true
    }

    open spec fn passes(&self, visitor: &()) -> bool {
        true
    }

    open spec fn spec_pack(&self) -> Seq<u8> {
        le_bytes(twos_complement(*self as int, 2), 2)
    }

    open spec fn spec_unpack(bytes: Seq<u8>, visitor: &(), verify: bool) -> Decoded<i16, ()> {
        if bytes.len() >= 2 {
            Decoded::Done(from_twos_complement(le_value(bytes.take(2)), 2) as i16, 2)
        } else {
            Decoded::Short(2, bytes.len())
        }
    }

    proof fn lemma_round_trip(&self, rest: Seq<u8>, visitor: &(), verify: bool) {
        lemma_radix_pow_values();
        let code = twos_complement(*self as int, 2);
        lemma_le_bytes_len(code, 2);
        lemma_le_value_of_bytes(code, 2);
        assert((self.spec_pack() + rest).take(2) =~= self.spec_pack());
    }

    proof fn lemma_truncated(&self, len: nat, visitor: &(), verify: bool) {
        lemma_le_bytes_len(twos_complement(*self as int, 2), 2);
    }

    proof fn lemma_invalid_can_occur(bytes: Seq<u8>, visitor: &(), verify: bool) {
    }

    fn pack<P: Packer>(&self, packer: &mut P) -> (r: Result<(), P::Error>) {
        proof {
            lemma_radix_pow_values();
        }
        let code: u128 = if *self >= 0 {
            *self as u128
        } else {
            (*self - i16::MIN) as u128 + 0x8000
        };
        pack_le(code, 2, packer)
    }

    fn unpack<U: Unpacker, const VERIFY: bool>(unpacker: &mut U, visitor: &()) -> (r: Result<
        Self,
        UnpackError<Infallible, U::Error>,
    >) {
        let ghost bytes = unpacker.remaining();
        match unpack_le(unpacker, 2) {
            Ok(code) => {
                proof {
                    lemma_radix_pow_values();
                    assert(forall|x: i16| #[trigger] x.valid());
                    assert(Self::spec_unpack(bytes, visitor, VERIFY) == Decoded::<i16, ()>::Done(
                        from_twos_complement(code as nat, 2) as i16,
                        2,
                    ));
                }
                if code < 0x8000 {
                    Ok(code as i16)
                } else {
                    Ok((code - 0x8000) as i16 + i16::MIN)
                }
            },
            Err(e) => {
                proof {
                    assert(Self::spec_unpack(bytes, visitor, VERIFY) == Decoded::<i16, ()>::Short(
                        2,
                        bytes.len(),
                    ));
                }
                Err(UnpackError::Unpacker(e))
            },
        }
    }
}

/// `i32`: 4 bytes of two's complement, least significant first.
impl Packable for i32 {
    type UnpackError = Infallible;

    type UnpackVisitor = ();

    open spec fn valid(&self) -> bool {
        true
    }

    open spec fn passes(&self, visitor: &()) -> bool {
        true
    }

    open spec fn spec_pack(&self) -> Seq<u8> {
        le_bytes(twos_complement(*self as int, 4), 4)
    }

    open spec fn spec_unpack(bytes: Seq<u8>, visitor: &(), verify: bool) -> Decoded<i32, ()> {
        if bytes.len() >= 4 {
            Decoded::Done(from_twos_complement(le_value(bytes.take(4)), 4) as i32, 4)
        } else {
            Decoded::Short(4, bytes.len())
        }
    }

    proof fn lemma_round_trip(&self, rest: Seq<u8>, visitor: &(), verify: bool) {
        lemma_radix_pow_values();
        let code = twos_complement(*self as int, 4);
        lemma_le_bytes_len(code, 4);
        lemma_le_value_of_bytes(code, 4);
        assert((self.spec_pack() + rest).take(4) =~= self.spec_pack());
    }

    proof fn lemma_truncated(&self, len: nat, visitor: &(), verify: bool) {
        lemma_le_bytes_len(twos_complement(*self as int, 4), 4);
    }

    proof fn lemma_invalid_can_occur(bytes: Seq<u8>, visitor: &(), verify: bool) {
    }

    fn pack<P: Packer>(&self, packer: &mut P) -> (r: Result<(), P::Error>) {
        proof {
            lemma_radix_pow_values();
        }
        let code: u128 = if *self >= 0 {
            *self as u128
        } else {
            (*self - i32::MIN) as u128 + 0x8000_0000
        };
        pack_le(code, 4, packer)
    }

    fn unpack<U: Unpacker, const VERIFY: bool>(unpacker: &mut U, visitor: &()) -> (r: Result<
        Self,
        UnpackError<Infallible, U::Error>,
    >) {
        let ghost bytes = unpacker.remaining();
        match unpack_le(unpacker, 4) {
            Ok(code) => {
                proof {
                    lemma_radix_pow_values();
                    assert(forall|x: i32| #[trigger] x.valid());
                    assert(Self::spec_unpack(bytes, visitor, VERIFY) == Decoded::<i32, ()>::Done(
                        from_twos_complement(code as nat, 4) as i32,
                        4,
                    ));
                }
                if code < 0x8000_0000 {
                    Ok(code as i32)
                } else {
                    Ok((code - 0x8000_0000) as i32 + i32::MIN)
                }
            },
            Err(e) => {
                proof {
                    assert(Self::spec_unpack(bytes, visitor, VERIFY) == Decoded::<i32, ()>::Short(
                        4,
                        bytes.len(),
                    ));
                }
                Err(UnpackError::Unpacker(e))
            },
        }
    }
}

/// `i64`: 8 bytes of two's complement, least significant first.
impl Packable for i64 {
    type UnpackError = Infallible;

    type UnpackVisitor = ();

    open spec fn valid(&self) -> bool {
        true
    }

    open spec fn passes(&self, visitor: &()) -> bool {
        true
    }

    open spec fn spec_pack(&self) -> Seq<u8> {
        le_bytes(twos_complement(*self as int, 8), 8)
    }

    open spec fn spec_unpack(bytes: Seq<u8>, visitor: &(), verify: bool) -> Decoded<i64, ()> {
        if bytes.len() >= 8 {
            Decoded::Done(from_twos_complement(le_value(bytes.take(8)), 8) as i64, 8)
        } else {
            Decoded::Short(8, bytes.len())
        }
    }

    proof fn lemma_round_trip(&self, rest: Seq<u8>, visitor: &(), verify: bool) {
        lemma_radix_pow_values();
        let code = twos_complement(*self as int, 8);
        lemma_le_bytes_len(code, 8);
        lemma_le_value_of_bytes(code, 8);
        assert((self.spec_pack() + rest).take(8) =~= self.spec_pack());
    }

    proof fn lemma_truncated(&self, len: nat, visitor: &(), verify: bool) {
        lemma_le_bytes_len(twos_complement(*self as int, 8), 8);
    }

    proof fn lemma_invalid_can_occur(bytes: Seq<u8>, visitor: &(), verify: bool) {
    }

    fn pack<P: Packer>(&self, packer: &mut P) -> (r: Result<(), P::Error>) {
        proof {
            lemma_radix_pow_values();
        }
        let code: u128 = if *self >= 0 {
            *self as u128
        } else {
            (*self - i64::MIN) as u128 + 0x8000_0000_0000_0000
        };
        pack_le(code, 8, packer)
    }

    fn unpack<U: Unpacker, const VERIFY: bool>(unpacker: &mut U, visitor: &()) -> (r: Result<
        Self,
        UnpackError<Infallible, U::Error>,
    >) {
        let ghost bytes = unpacker.remaining();
        match unpack_le(unpacker, 8) {
            Ok(code) => {
                proof {
                    lemma_radix_pow_values();
                    assert(forall|x: i64| #[trigger] x.valid());
                    assert(Self::spec_unpack(bytes, visitor, VERIFY) == Decoded::<i64, ()>::Done(
                        from_twos_complement(code as nat, 8) as i64,
                        8,
                    ));
                }
                if code < 0x8000_0000_0000_0000 {
                    Ok(code as i64)
                } else {
                    Ok((code - 0x8000_0000_0000_0000) as i64 + i64::MIN)
                }
            },
            Err(e) => {
                proof {
                    assert(Self::spec_unpack(bytes, visitor, VERIFY) == Decoded::<i64, ()>::Short(
                        8,
                        bytes.len(),
                    ));
                }
                Err(UnpackError::Unpacker(e))
            },
        }
    }
}

/// `i128`: 16 bytes of two's complement, least significant first.
impl Packable for i128 {
    type UnpackError = Infallible;

    type UnpackVisitor = ();

    open spec fn valid(&self) -> bool {
        true
    }

    open spec fn passes(&self, visitor: &()) -> bool {
        true
    }

    open spec fn spec_pack(&self) -> Seq<u8> {
        le_bytes(twos_complement(*self as int, 16), 16)
    }

    open spec fn spec_unpack(bytes: Seq<u8>, visitor: &(), verify: bool) -> Decoded<i128, ()> {
        if bytes.len() >= 16 {
            Decoded::Done(from_twos_complement(le_value(bytes.take(16)), 16) as i128, 16)
        } else {
            Decoded::Short(16, bytes.len())
        }
    }

    proof fn lemma_round_trip(&self, rest: Seq<u8>, visitor: &(), verify: bool) {
        lemma_radix_pow_values();
        let code = twos_complement(*self as int, 16);
        lemma_le_bytes_len(code, 16);
        lemma_le_value_of_bytes(code, 16);
        assert((self.spec_pack() + rest).take(16) =~= self.spec_pack());
    }

    proof fn lemma_truncated(&self, len: nat, visitor: &(), verify: bool) {
        lemma_le_bytes_len(twos_complement(*self as int, 16), 16);
    }

    proof fn lemma_invalid_can_occur(bytes: Seq<u8>, visitor: &(), verify: bool) {
    }

    fn pack<P: Packer>(&self, packer: &mut P) -> (r: Result<(), P::Error>) {
        proof {
            lemma_radix_pow_values();
        }
        let code: u128 = if *self >= 0 {
            *self as u128
        } else {
            (*self - i128::MIN) as u128 + 0x8000_0000_0000_0000_0000_0000_0000_0000
        };
        pack_le(code, 16, packer)
    }

    fn unpack<U: Unpacker, const VERIFY: bool>(unpacker: &mut U, visitor: &()) -> (r: Result<
        Self,
        UnpackError<Infallible, U::Error>,
    >) {
        let ghost bytes = unpacker.remaining();
        match unpack_le(unpacker, 16) {
            Ok(code) => {
                proof {
                    lemma_radix_pow_values();
                    assert(forall|x: i128| #[trigger] x.valid());
                    assert(Self::spec_unpack(bytes, visitor, VERIFY) == Decoded::<i128, ()>::Done(
                        from_twos_complement(code as nat, 16) as i128,
                        16,
                    ));
                }
                if code < 0x8000_0000_0000_0000_0000_0000_0000_0000 {
                    Ok(code as i128)
                } else {
                    Ok((code - 0x8000_0000_0000_0000_0000_0000_0000_0000) as i128 + i128::MIN)
                }
            },
            Err(e) => {
                proof {
                    assert(Self::spec_unpack(bytes, visitor, VERIFY) == Decoded::<i128, ()>::Short(
                        16,
                        bytes.len(),
                    ));
                }
                Err(UnpackError::Unpacker(e))
            },
        }
    }
}

/// `usize`: packed as a `u64`. Unpacking fails where the number does not fit a `usize`.
impl Packable for usize {
    type UnpackError = core::num::TryFromIntError;

    type UnpackVisitor = ();

    open spec fn valid(&self) -> bool {
        true
    }

    open spec fn passes(&self, visitor: &()) -> bool {
        true
    }

    open spec fn spec_pack(&self) -> Seq<u8> {
        le_bytes(*self as nat, 8)
    }

    open spec fn spec_unpack(bytes: Seq<u8>, visitor: &(), verify: bool) -> Decoded<usize, ()> {
        if bytes.len() >= 8 {
            if le_value(bytes.take(8)) <= usize::MAX {
                Decoded::Done(le_value(bytes.take(8)) as usize, 8)
            } else {
                Decoded::Invalid(())
            }
        } else {
            Decoded::Short(8, bytes.len())
        }
    }

    proof fn lemma_round_trip(&self, rest: Seq<u8>, visitor: &(), verify: bool) {
        lemma_radix_pow_values();
        lemma_le_bytes_len(*self as nat, 8);
        lemma_le_value_of_bytes(*self as nat, 8);
        assert((self.spec_pack() + rest).take(8) =~= self.spec_pack());
    }

    proof fn lemma_truncated(&self, len: nat, visitor: &(), verify: bool) {
        lemma_le_bytes_len(*self as nat, 8);
    }

    proof fn lemma_invalid_can_occur(bytes: Seq<u8>, visitor: &(), verify: bool) {
        assert(<core::num::TryFromIntError as ErrorView>::can_occur());
    }

    fn pack<P: Packer>(&self, packer: &mut P) -> (r: Result<(), P::Error>) {
        pack_le(*self as u128, 8, packer)
    }

    fn unpack<U: Unpacker, const VERIFY: bool>(unpacker: &mut U, visitor: &()) -> (r: Result<
        Self,
        UnpackError<core::num::TryFromIntError, U::Error>,
    >) {
        let ghost bytes = unpacker.remaining();
        proof {
            assert(u64::spec_unpack(bytes, visitor, VERIFY) == if bytes.len() >= 8 {
                Decoded::<u64, ()>::Done(le_value(bytes.take(8)) as u64, 8)
            } else {
                Decoded::<u64, ()>::Short(8, bytes.len())
            });
            if bytes.len() >= 8 {
                lemma_radix_pow_values();
                lemma_le_bytes_of_value(bytes.take(8));
            }
            assert(forall|x: usize| #[trigger] x.valid());
        }
        match u64::unpack::<U, VERIFY>(unpacker, visitor) {
            Ok(value) => match usize::try_from(value) {
                Ok(value) => Ok(value),
                Err(e) => Err(UnpackError::Packable(e)),
            },
            Err(e) => Err(UnpackError::Unpacker(e.into_unpacker_err())),
        }
    }
}

/// `isize`: packed as an `i64`. Unpacking fails where the number does not fit an `isize`.
impl Packable for isize {
    type UnpackError = core::num::TryFromIntError;

    type UnpackVisitor = ();

    open spec fn valid(&self) -> bool {
        true
    }

    open spec fn passes(&self, visitor: &()) -> bool {
        true
    }

    open spec fn spec_pack(&self) -> Seq<u8> {
        le_bytes(twos_complement(*self as int, 8), 8)
    }

    open spec fn spec_unpack(bytes: Seq<u8>, visitor: &(), verify: bool) -> Decoded<isize, ()> {
        if bytes.len() >= 8 {
            if isize::MIN <= from_twos_complement(le_value(bytes.take(8)), 8) <= isize::MAX {
                Decoded::Done(from_twos_complement(le_value(bytes.take(8)), 8) as isize, 8)
            } else {
                Decoded::Invalid(())
            }
        } else {
            Decoded::Short(8, bytes.len())
        }
    }

    proof fn lemma_round_trip(&self, rest: Seq<u8>, visitor: &(), verify: bool) {
        lemma_radix_pow_values();
        let code = twos_complement(*self as int, 8);
        lemma_le_bytes_len(code, 8);
        lemma_le_value_of_bytes(code, 8);
        assert((self.spec_pack() + rest).take(8) =~= self.spec_pack());
    }

    proof fn lemma_truncated(&self, len: nat, visitor: &(), verify: bool) {
        lemma_le_bytes_len(twos_complement(*self as int, 8), 8);
    }

    proof fn lemma_invalid_can_occur(bytes: Seq<u8>, visitor: &(), verify: bool) {
        assert(<core::num::TryFromIntError as ErrorView>::can_occur());
    }

    fn pack<P: Packer>(&self, packer: &mut P) -> (r: Result<(), P::Error>) {
        (*self as i64).pack(packer)
    }

    fn unpack<U: Unpacker, const VERIFY: bool>(unpacker: &mut U, visitor: &()) -> (r: Result<
        Self,
        UnpackError<core::num::TryFromIntError, U::Error>,
    >) {
        let ghost bytes = unpacker.remaining();
        proof {
            assert(i64::spec_unpack(bytes, visitor, VERIFY) == if bytes.len() >= 8 {
                Decoded::<i64, ()>::Done(
                    from_twos_complement(le_value(bytes.take(8)), 8) as i64,
                    8,
                )
            } else {
                Decoded::<i64, ()>::Short(8, bytes.len())
            });
            if bytes.len() >= 8 {
                lemma_radix_pow_values();
                lemma_le_bytes_of_value(bytes.take(8));
            }
            assert(forall|x: isize| #[trigger] x.valid());
        }
        match i64::unpack::<U, VERIFY>(unpacker, visitor) {
            Ok(value) => match isize::try_from(value) {
                Ok(value) => Ok(value),
                Err(e) => Err(UnpackError::Packable(e)),
            },
            Err(e) => Err(UnpackError::Unpacker(e.into_unpacker_err())),
        }
    }
}

} // verus!
