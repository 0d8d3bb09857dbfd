//! Bounded integers: integers that stay within a range, used as the length prefixes of
//! collections.

use core::convert::Infallible;
use vstd::prelude::*;
use vstd::std_specs::convert::TryFromSpecImpl;

use crate::error::{CoerceInto, ErrorView, UnpackError};
use crate::le::{le_bytes, le_value, lemma_le_bytes_of_value, lemma_radix_pow_values, radix_pow};
use crate::packable::{Decoded, Packable};
use crate::packer::Packer;
use crate::unpacker::Unpacker;

verus! {

/// A type whose values are the length prefixes of collections: an unsigned integer of a fixed
/// width, which may be held to a range.
///
/// The type decides how wide the prefix is on the wire and how many items a collection behind
/// it can have.
pub trait Bounded: Packable<UnpackVisitor = ()> {
    /// The error of a length that the type refuses.
    type LenError;

    /// The number of bytes of the prefix.
    spec fn spec_width() -> nat;

    /// The least length that the type accepts.
    spec fn spec_min() -> nat;

    /// The greatest length that the type accepts.
    spec fn spec_max() -> nat;

    /// The length that the value stands for.
    spec fn spec_len(&self) -> nat;

    /// The length that a value with this deep view stands for.
    spec fn spec_len_of(view: Self::V) -> nat;

    /// The value that stands for `len`.
    spec fn spec_from_len(len: nat) -> Self;

    /// Whether `err` is the error that refuses `len`.
    spec fn is_len_error(err: Self::LenError, len: nat) -> bool;

    /// A valid value stands for a length in the range of the type, is packed as that length
    /// in `spec_width` bytes, least significant first, and is unpacked without a check
    /// against a visitor.
    proof fn lemma_bounded(&self)
        requires
            self.valid(),
        ensures
            Self::spec_min() <= self.spec_len() <= Self::spec_max(),
            Self::spec_len_of(self.deep_view()) == self.spec_len(),
            self.spec_pack() == le_bytes(self.spec_len(), Self::spec_width()),
            self.passes(&()),
    ;

    /// Every length in the range of the type has its value.
    proof fn lemma_from_len(len: nat)
        requires
            Self::spec_min() <= len <= Self::spec_max(),
        ensures
            Self::spec_from_len(len).valid(),
            Self::spec_from_len(len).spec_len() == len,
    ;

    /// The value that stands for `len`, if the type accepts `len`.
    fn try_from_len(len: usize) -> (r: Result<Self, Self::LenError>)
        ensures
            match r {
                Ok(bounded) => Self::spec_min() <= len <= Self::spec_max() && bounded.valid()
                    && bounded.spec_len() == len,
                Err(e) => !(Self::spec_min() <= len <= Self::spec_max()) && Self::is_len_error(
                    e,
                    len as nat,
                ),
            },
    ;

    /// The length that the value stands for.
    fn len(&self) -> (r: u64)
        requires
            self.valid(),
        ensures
            r == self.spec_len(),
    ;
}

/// `u8` as a length prefix: 1 byte, every value accepted.
impl Bounded for u8 {
    type LenError = core::num::TryFromIntError;

    open spec fn spec_width() -> nat {
        1
    }

    open spec fn spec_min() -> nat {
        0
    }

    open spec fn spec_max() -> nat {
        u8::MAX as nat
    }

    open spec fn spec_len(&self) -> nat {
        *self as nat
    }

    open spec fn spec_len_of(view: u8) -> nat {
        view as nat
    }

    open spec fn spec_from_len(len: nat) -> Self {
        len as u8
    }

    open spec fn is_len_error(err: core::num::TryFromIntError, len: nat) -> bool {
        true
    }

    proof fn lemma_bounded(&self) {
    }

    proof fn lemma_from_len(len: nat) {
    }

    fn try_from_len(len: usize) -> (r: Result<Self, Self::LenError>) {
        u8::try_from(len)
    }

    fn len(&self) -> (r: u64) {
        *self as u64
    }
}

/// `u16` as a length prefix: 2 bytes, every value accepted.
impl Bounded for u16 {
    type LenError = core::num::TryFromIntError;

    open spec fn spec_width() -> nat {
        2
    }

    open spec fn spec_min() -> nat {
        0
    }

    open spec fn spec_max() -> nat {
        u16::MAX as nat
    }

    open spec fn spec_len(&self) -> nat {
        *self as nat
    }

    open spec fn spec_len_of(view: u16) -> nat {
        view as nat
    }

    open spec fn spec_from_len(len: nat) -> Self {
        len as u16
    }

    open spec fn is_len_error(err: core::num::TryFromIntError, len: nat) -> bool {
        true
    }

    proof fn lemma_bounded(&self) {
    }

    proof fn lemma_from_len(len: nat) {
    }

    fn try_from_len(len: usize) -> (r: Result<Self, Self::LenError>) {
        u16::try_from(len)
    }

    fn len(&self) -> (r: u64) {
        *self as u64
    }
}

/// `u32` as a length prefix: 4 bytes, every value accepted.
impl Bounded for u32 {
    type LenError = core::num::TryFromIntError;

    open spec fn spec_width() -> nat {
        4
    }

    open spec fn spec_min() -> nat {
        0
    }

    open spec fn spec_max() -> nat {
        u32::MAX as nat
    }

    open spec fn spec_len(&self) -> nat {
        *self as nat
    }

    open spec fn spec_len_of(view: u32) -> nat {
        view as nat
    }

    open spec fn spec_from_len(len: nat) -> Self {
        len as u32
    }

    open spec fn is_len_error(err: core::num::TryFromIntError, len: nat) -> bool {
        true
    }

    proof fn lemma_bounded(&self) {
    }

    proof fn lemma_from_len(len: nat) {
    }

    fn try_from_len(len: usize) -> (r: Result<Self, Self::LenError>) {
        u32::try_from(len)
    }

    fn len(&self) -> (r: u64) {
        *self as u64
    }
}

/// `u64` as a length prefix: 8 bytes, every value accepted.
impl Bounded for u64 {
    type LenError = core::num::TryFromIntError;

    open spec fn spec_width() -> nat {
        8
    }

    open spec fn spec_min() -> nat {
        0
    }

    open spec fn spec_max() -> nat {
        u64::MAX as nat
    }

    open spec fn spec_len(&self) -> nat {
        *self as nat
    }

    open spec fn spec_len_of(view: u64) -> nat {
        view as nat
    }

    open spec fn spec_from_len(len: nat) -> Self {
        len as u64
    }

    open spec fn is_len_error(err: core::num::TryFromIntError, len: nat) -> bool {
        true
    }

    proof fn lemma_bounded(&self) {
    }

    proof fn lemma_from_len(len: nat) {
    }

    fn try_from_len(len: usize) -> (r: Result<Self, Self::LenError>) {
        u64::try_from(len)
    }

    fn len(&self) -> (r: u64) {
        *self as u64
    }
}

/// Error type of a `u8` that is outside the range of a [`BoundedU8`]: the number.
#[derive(Clone, Copy, Debug, PartialEq, Eq)]
pub struct InvalidBoundedU8<const MIN: u8, const MAX: u8>(pub u8);

impl<const MIN: u8, const MAX: u8> ErrorView for InvalidBoundedU8<MIN, MAX> {
    type View = u8;

    open spec fn error_view(&self) -> u8 {
        self.0
    }

    open spec fn can_occur() -> bool {
        true
    }
}

impl<const MIN: u8, const MAX: u8> CoerceInto<InvalidBoundedU8<MIN, MAX>> for InvalidBoundedU8<
    MIN,
    MAX,
> {
    open spec fn spec_coerce(view: u8) -> u8 {
        view
    }

    proof fn lemma_coerce_can_occur() {
    }

    fn coerce_into(self) -> (r: InvalidBoundedU8<MIN, MAX>) {
        self
    }
}

/// Error type of a `usize` that cannot be a [`BoundedU8`].
#[derive(Clone, Copy, Debug, PartialEq, Eq)]
pub enum TryIntoBoundedU8Error {
    /// The number does not fit a `u8`: the number.
    Truncated(usize),
    /// The number is outside the range: the number.
    Invalid(u8),
}

/// A `u8` between `MIN` and `MAX`, both included.
#[derive(Clone, Copy, Debug, PartialEq, Eq, PartialOrd, Ord, Hash)]
pub struct BoundedU8<const MIN: u8, const MAX: u8>(u8);

impl<const MIN: u8, const MAX: u8> DeepView for BoundedU8<MIN, MAX> {
    type V = u8;

    closed spec fn deep_view(&self) -> u8 {
        self.0
    }
}

impl<const MIN: u8, const MAX: u8> BoundedU8<MIN, MAX> {
    #[verifier::type_invariant]
    spec fn in_range(self) -> bool {
        MIN <= self.0 <= MAX
    }

    /// The number.
    pub closed spec fn spec_get(&self) -> u8 {
        self.0
    }

    /// The number, which is within the range.
    pub fn get(self) -> (r: u8)
        ensures
            r == self.spec_get(),
            MIN <= r <= MAX,
            self.valid(),
    {
        proof {
            use_type_invariant(&self);
        }
        self.0
    }

    /// The bounded integer of `value`, if `value` is within the range.
    pub fn new(value: u8) -> (r: Result<Self, InvalidBoundedU8<MIN, MAX>>)
        ensures
            match r {
                Ok(bounded) => MIN <= value <= MAX && bounded.spec_get() == value
                    && bounded.valid(),
                Err(e) => !(MIN <= value <= MAX) && e.0 == value,
            },
    {
        if MIN <= value && value <= MAX {
            Ok(BoundedU8(value))
        } else {
            Err(InvalidBoundedU8(value))
        }
    }
}

impl<const MIN: u8, const MAX: u8> TryFrom<u8> for BoundedU8<MIN, MAX> {
    type Error = InvalidBoundedU8<MIN, MAX>;

    fn try_from(value: u8) -> (r: Result<Self, Self::Error>) {
        Self::new(value)
    }
}

impl<const MIN: u8, const MAX: u8> TryFromSpecImpl<u8> for BoundedU8<MIN, MAX> {
    open spec fn obeys_try_from_spec() -> bool {
        true
    }

    closed spec fn try_from_spec(value: u8) -> Result<Self, InvalidBoundedU8<MIN, MAX>> {
        if MIN <= value <= MAX {
            Ok(BoundedU8(value))
        } else {
            Err(InvalidBoundedU8(value))
        }
    }
}

impl<const MIN: u8, const MAX: u8> TryFrom<usize> for BoundedU8<MIN, MAX> {
    type Error = TryIntoBoundedU8Error;

    fn try_from(value: usize) -> (r: Result<Self, Self::Error>) {
        Self::try_from_len(value)
    }
}

impl<const MIN: u8, const MAX: u8> TryFromSpecImpl<usize> for BoundedU8<MIN, MAX> {
    open spec fn obeys_try_from_spec() -> bool {
        true
    }

    closed spec fn try_from_spec(value: usize) -> Result<Self, TryIntoBoundedU8Error> {
        if value > u8::MAX {
            Err(TryIntoBoundedU8Error::Truncated(value))
        } else if MIN <= value <= MAX {
            Ok(BoundedU8(value as u8))
        } else {
            Err(TryIntoBoundedU8Error::Invalid(value as u8))
        }
    }
}

/// `BoundedU8`: packed as its `u8`. Unpacking fails where the number is outside the range.
impl<const MIN: u8, const MAX: u8> Packable for BoundedU8<MIN, MAX> {
    type UnpackError = InvalidBoundedU8<MIN, MAX>;

    type UnpackVisitor = ();

    closed spec fn valid(&self) -> bool {
        MIN <= self.0 <= MAX
    }

    open spec fn passes(&self, visitor: &()) -> bool {
        true
    }

    closed spec fn spec_pack(&self) -> Seq<u8> {
        le_bytes(self.0 as nat, 1)
    }

    open spec fn spec_unpack(bytes: Seq<u8>, visitor: &(), verify: bool) -> Decoded<u8, u8> {
        if bytes.len() >= 1 {
            if MIN <= le_value(bytes.take(1)) <= MAX {
                Decoded::Done(le_value(bytes.take(1)) as u8, 1)
            } else {
                Decoded::Invalid(le_value(bytes.take(1)) as u8)
            }
        } else {
            Decoded::Short(1, bytes.len())
        }
    }

    proof fn lemma_round_trip(&self, rest: Seq<u8>, visitor: &(), verify: bool) {
        self.0.lemma_round_trip(rest, visitor, verify);
        lemma_radix_pow_values();
        lemma_le_bytes_of_value((self.spec_pack() + rest).take(1));
    }

    proof fn lemma_truncated(&self, len: nat, visitor: &(), verify: bool) {
        crate::le::lemma_le_bytes_len(self.0 as nat, 1);
    }

    proof fn lemma_invalid_can_occur(bytes: Seq<u8>, visitor: &(), verify: bool) {
    }

    fn pack<P: Packer>(&self, packer: &mut P) -> (r: Result<(), P::Error>) {
        self.0.pack(packer)
    }

    fn unpack<U: Unpacker, const VERIFY: bool>(unpacker: &mut U, visitor: &()) -> (r: Result<
        Self,
        UnpackError<Self::UnpackError, U::Error>,
    >) {
        let ghost bytes = unpacker.remaining();
        proof {
            assert(u8::spec_unpack(bytes, visitor, VERIFY) == if bytes.len() >= 1 {
                Decoded::<u8, ()>::Done(le_value(bytes.take(1)) as u8, 1)
            } else {
                Decoded::<u8, ()>::Short(1, bytes.len())
            });
            if bytes.len() >= 1 {
                lemma_radix_pow_values();
                lemma_le_bytes_of_value(bytes.take(1));
            }
        }
        match u8::unpack::<U, VERIFY>(unpacker, visitor) {
            Ok(value) => match Self::new(value) {
                Ok(bounded) => Ok(bounded),
                Err(e) => Err(UnpackError::Packable(e)),
            },
            Err(e) => Err(UnpackError::Unpacker(e.into_unpacker_err())),
        }
    }
}

/// A `u8` within the range of a `BoundedU8` is unpacked as itself, the numbers `MIN` and
/// `MAX` among them; one outside the range is refused with an error that holds the number.
pub proof fn lemma_bounded_u8_enforced<const MIN: u8, const MAX: u8>(
    value: u8,
    rest: Seq<u8>,
    verify: bool,
)
    ensures
        BoundedU8::<MIN, MAX>::spec_unpack(value.spec_pack() + rest, &(), verify) == if MIN
            <= value <= MAX {
            Decoded::<u8, u8>::Done(value, 1)
        } else {
            Decoded::<u8, u8>::Invalid(value)
        },
{
    lemma_radix_pow_values();
    crate::le::lemma_le_bytes_len(value as nat, 1);
    crate::le::lemma_le_value_of_bytes(value as nat, 1);
    assert((value.spec_pack() + rest).take(1) =~= value.spec_pack());
}

/// `BoundedU8` as a length prefix: 1 byte, the lengths from `MIN` to `MAX` accepted.
impl<const MIN: u8, const MAX: u8> Bounded for BoundedU8<MIN, MAX> {
    type LenError = TryIntoBoundedU8Error;

    open spec fn spec_width() -> nat {
        1
    }

    open spec fn spec_min() -> nat {
        MIN as nat
    }

    open spec fn spec_max() -> nat {
        MAX as nat
    }

    closed spec fn spec_len(&self) -> nat {
        self.0 as nat
    }

    open spec fn spec_len_of(view: u8) -> nat {
        view as nat
    }

    closed spec fn spec_from_len(len: nat) -> Self {
        BoundedU8(len as u8)
    }

    open spec fn is_len_error(err: TryIntoBoundedU8Error, len: nat) -> bool {
        if len > u8::MAX {
            err == TryIntoBoundedU8Error::Truncated(len as usize)
        } else {
            err == TryIntoBoundedU8Error::Invalid(len as u8)
        }
    }

    proof fn lemma_bounded(&self) {
    }

    proof fn lemma_from_len(len: nat) {
    }

    fn try_from_len(len: usize) -> (r: Result<Self, Self::LenError>) {
        match u8::try_from(len) {
            Ok(value) => match Self::new(value) {
                Ok(bounded) => Ok(bounded),
                Err(e) => Err(TryIntoBoundedU8Error::Invalid(e.0)),
            },
            Err(_) => Err(TryIntoBoundedU8Error::Truncated(len)),
        }
    }

    fn len(&self) -> (r: u64) {
        self.0 as u64
    }
}

/// Error type of a `u16` that is outside the range of a [`BoundedU16`]: the number.
#[derive(Clone, Copy, Debug, PartialEq, Eq)]
pub struct InvalidBoundedU16<const MIN: u16, const MAX: u16>(pub u16);

impl<const MIN: u16, const MAX: u16> ErrorView for InvalidBoundedU16<MIN, MAX> {
    type View = u16;

    open spec fn error_view(&self) -> u16 {
        self.0
    }

    open spec fn can_occur() -> bool {
        true
    }
}

impl<const MIN: u16, const MAX: u16> CoerceInto<InvalidBoundedU16<MIN, MAX>> for InvalidBoundedU16<
    MIN,
    MAX,
> {
    open spec fn spec_coerce(view: u16) -> u16 {
        view
    }

    proof fn lemma_coerce_can_occur() {
    }

    fn coerce_into(self) -> (r: InvalidBoundedU16<MIN, MAX>) {
        self
    }
}

/// Error type of a `usize` that cannot be a [`BoundedU16`].
#[derive(Clone, Copy, Debug, PartialEq, Eq)]
pub enum TryIntoBoundedU16Error {
    /// The number does not fit a `u16`: the number.
    Truncated(usize),
    /// The number is outside the range: the number.
    Invalid(u16),
}

/// A `u16` between `MIN` and `MAX`, both included.
#[derive(Clone, Copy, Debug, PartialEq, Eq, PartialOrd, Ord, Hash)]
pub struct BoundedU16<const MIN: u16, const MAX: u16>(u16);

impl<const MIN: u16, const MAX: u16> DeepView for BoundedU16<MIN, MAX> {
    type V = u16;

    closed spec fn deep_view(&self) -> u16 {
        self.0
    }
}

impl<const MIN: u16, const MAX: u16> BoundedU16<MIN, MAX> {
    #[verifier::type_invariant]
    spec fn in_range(self) -> bool {
        MIN <= self.0 <= MAX
    }

    /// The number.
    pub closed spec fn spec_get(&self) -> u16 {
        self.0
    }

    /// The number, which is within the range.
    pub fn get(self) -> (r: u16)
        ensures
            r == self.spec_get(),
            MIN <= r <= MAX,
            self.valid(),
    {
        proof {
            use_type_invariant(&self);
        }
        self.0
    }

    /// The bounded integer of `value`, if `value` is within the range.
    pub fn new(value: u16) -> (r: Result<Self, InvalidBoundedU16<MIN, MAX>>)
        ensures
            match r {
                Ok(bounded) => MIN <= value <= MAX && bounded.spec_get() == value
                    && bounded.valid(),
                Err(e) => !(MIN <= value <= MAX) && e.0 == value,
            },
    {
        if MIN <= value && value <= MAX {
            Ok(BoundedU16(value))
        } else {
            Err(InvalidBoundedU16(value))
        }
    }
}

impl<const MIN: u16, const MAX: u16> TryFrom<u16> for BoundedU16<MIN, MAX> {
    type Error = InvalidBoundedU16<MIN, MAX>;

    fn try_from(value: u16) -> (r: Result<Self, Self::Error>) {
        Self::new(value)
    }
}

impl<const MIN: u16, const MAX: u16> TryFromSpecImpl<u16> for BoundedU16<MIN, MAX> {
    open spec fn obeys_try_from_spec() -> bool {
        true
    }

    closed spec fn try_from_spec(value: u16) -> Result<Self, InvalidBoundedU16<MIN, MAX>> {
        if MIN <= value <= MAX {
            Ok(BoundedU16(value))
        } else {
            Err(InvalidBoundedU16(value))
        }
    }
}

impl<const MIN: u16, const MAX: u16> TryFrom<usize> for BoundedU16<MIN, MAX> {
    type Error = TryIntoBoundedU16Error;

    fn try_from(value: usize) -> (r: Result<Self, Self::Error>) {
        Self::try_from_len(value)
    }
}

impl<const MIN: u16, const MAX: u16> TryFromSpecImpl<usize> for BoundedU16<MIN, MAX> {
    open spec fn obeys_try_from_spec() -> bool {
        true
    }

    closed spec fn try_from_spec(value: usize) -> Result<Self, TryIntoBoundedU16Error> {
        if value > u16::MAX {
            Err(TryIntoBoundedU16Error::Truncated(value))
        } else if MIN <= value <= MAX {
            Ok(BoundedU16(value as u16))
        } else {
            Err(TryIntoBoundedU16Error::Invalid(value as u16))
        }
    }
}

/// `BoundedU16`: packed as its `u16`. Unpacking fails where the number is outside the range.
impl<const MIN: u16, const MAX: u16> Packable for BoundedU16<MIN, MAX> {
    type UnpackError = InvalidBoundedU16<MIN, MAX>;

    type UnpackVisitor = ();

    closed spec fn valid(&self) -> bool {
        MIN <= self.0 <= MAX
    }

    open spec fn passes(&self, visitor: &()) -> bool {
        true
    }

    closed spec fn spec_pack(&self) -> Seq<u8> {
        le_bytes(self.0 as nat, 2)
    }

    open spec fn spec_unpack(bytes: Seq<u8>, visitor: &(), verify: bool) -> Decoded<u16, u16> {
        if bytes.len() >= 2 {
            if MIN <= le_value(bytes.take(2)) <= MAX {
                Decoded::Done(le_value(bytes.take(2)) as u16, 2)
            } else {
                Decoded::Invalid(le_value(bytes.take(2)) as u16)
            }
        } else {
            Decoded::Short(2, bytes.len())
        }
    }

    proof fn lemma_round_trip(&self, rest: Seq<u8>, visitor: &(), verify: bool) {
        self.0.lemma_round_trip(rest, visitor, verify);
        lemma_radix_pow_values();
        lemma_le_bytes_of_value((self.spec_pack() + rest).take(2));
    }

    proof fn lemma_truncated(&self, len: nat, visitor: &(), verify: bool) {
        crate::le::lemma_le_bytes_len(self.0 as nat, 2);
    }

    proof fn lemma_invalid_can_occur(bytes: Seq<u8>, visitor: &(), verify: bool) {
    }

    fn pack<P: Packer>(&self, packer: &mut P) -> (r: Result<(), P::Error>) {
        self.0.pack(packer)
    }

    fn unpack<U: Unpacker, const VERIFY: bool>(unpacker: &mut U, visitor: &()) -> (r: Result<
        Self,
        UnpackError<Self::UnpackError, U::Error>,
    >) {
        let ghost bytes = unpacker.remaining();
        proof {
            assert(u16::spec_unpack(bytes, visitor, VERIFY) == if bytes.len() >= 2 {
                Decoded::<u16, ()>::Done(le_value(bytes.take(2)) as u16, 2)
            } else {
                Decoded::<u16, ()>::Short(2, bytes.len())
            });
            if bytes.len() >= 2 {
                lemma_radix_pow_values();
                lemma_le_bytes_of_value(bytes.take(2));
            }
        }
        match u16::unpack::<U, VERIFY>(unpacker, visitor) {
            Ok(value) => match Self::new(value) {
                Ok(bounded) => Ok(bounded),
                Err(e) => Err(UnpackError::Packable(e)),
            },
            Err(e) => Err(UnpackError::Unpacker(e.into_unpacker_err())),
        }
    }
}

/// A `u16` within the range of a `BoundedU16` is unpacked as itself, the numbers `MIN` and
/// `MAX` among them; one outside the range is refused with an error that holds the number.
pub proof fn lemma_bounded_u16_enforced<const MIN: u16, const MAX: u16>(
    value: u16,
    rest: Seq<u8>,
    verify: bool,
)
    ensures
        BoundedU16::<MIN, MAX>::spec_unpack(value.spec_pack() + rest, &(), verify) == if MIN
            <= value <= MAX {
            Decoded::<u16, u16>::Done(value, 2)
        } else {
            Decoded::<u16, u16>::Invalid(value)
        },
{
    lemma_radix_pow_values();
    crate::le::lemma_le_bytes_len(value as nat, 2);
    crate::le::lemma_le_value_of_bytes(value as nat, 2);
    assert((value.spec_pack() + rest).take(2) =~= value.spec_pack());
}

/// `BoundedU16` as a length prefix: 2 bytes, the lengths from `MIN` to `MAX` accepted.
impl<const MIN: u16, const MAX: u16> Bounded for BoundedU16<MIN, MAX> {
    type LenError = TryIntoBoundedU16Error;

    open spec fn spec_width() -> nat {
        2
    }

    open spec fn spec_min() -> nat {
        MIN as nat
    }

    open spec fn spec_max() -> nat {
        MAX as nat
    }

    closed spec fn spec_len(&self) -> nat {
        self.0 as nat
    }

    open spec fn spec_len_of(view: u16) -> nat {
        view as nat
    }

    closed spec fn spec_from_len(len: nat) -> Self {
        BoundedU16(len as u16)
    }

    open spec fn is_len_error(err: TryIntoBoundedU16Error, len: nat) -> bool {
        if len > u16::MAX {
            err == TryIntoBoundedU16Error::Truncated(len as usize)
        } else {
            err == TryIntoBoundedU16Error::Invalid(len as u16)
        }
    }

    proof fn lemma_bounded(&self) {
    }

    proof fn lemma_from_len(len: nat) {
    }

    fn try_from_len(len: usize) -> (r: Result<Self, Self::LenError>) {
        match u16::try_from(len) {
            Ok(value) => match Self::new(value) {
                Ok(bounded) => Ok(bounded),
                Err(e) => Err(TryIntoBoundedU16Error::Invalid(e.0)),
            },
            Err(_) => Err(TryIntoBoundedU16Error::Truncated(len)),
        }
    }

    fn len(&self) -> (r: u64) {
        self.0 as u64
    }
}

/// Error type of a `u32` that is outside the range of a [`BoundedU32`]: the number.
#[derive(Clone, Copy, Debug, PartialEq, Eq)]
pub struct InvalidBoundedU32<const MIN: u32, const MAX: u32>(pub u32);

impl<const MIN: u32, const MAX: u32> ErrorView for InvalidBoundedU32<MIN, MAX> {
    type View = u32;

    open spec fn error_view(&self) -> u32 {
        self.0
    }

    open spec fn can_occur() -> bool {
        true
    }
}

impl<const MIN: u32, const MAX: u32> CoerceInto<InvalidBoundedU32<MIN, MAX>> for InvalidBoundedU32<
    MIN,
    MAX,
> {
    open spec fn spec_coerce(view: u32) -> u32 {
        view
    }

    proof fn lemma_coerce_can_occur() {
    }

    fn coerce_into(self) -> (r: InvalidBoundedU32<MIN, MAX>) {
        self
    }
}

/// Error type of a `usize` that cannot be a [`BoundedU32`].
#[derive(Clone, Copy, Debug, PartialEq, Eq)]
pub enum TryIntoBoundedU32Error {
    /// The number does not fit a `u32`: the number.
    Truncated(usize),
    /// The number is outside the range: the number.
    Invalid(u32),
}

/// A `u32` between `MIN` and `MAX`, both included.
#[derive(Clone, Copy, Debug, PartialEq, Eq, PartialOrd, Ord, Hash)]
pub struct BoundedU32<const MIN: u32, const MAX: u32>(u32);

impl<const MIN: u32, const MAX: u32> DeepView for BoundedU32<MIN, MAX> {
    type V = u32;

    closed spec fn deep_view(&self) -> u32 {
        self.0
    }
}

impl<const MIN: u32, const MAX: u32> BoundedU32<MIN, MAX> {
    #[verifier::type_invariant]
    spec fn in_range(self) -> bool {
        MIN <= self.0 <= MAX
    }

    /// The number.
    pub closed spec fn spec_get(&self) -> u32 {
        self.0
    }

    /// The number, which is within the range.
    pub fn get(self) -> (r: u32)
        ensures
            r == self.spec_get(),
            MIN <= r <= MAX,
            self.valid(),
    {
        proof {
            use_type_invariant(&self);
        }
        self.0
    }

    /// The bounded integer of `value`, if `value` is within the range.
    pub fn new(value: u32) -> (r: Result<Self, InvalidBoundedU32<MIN, MAX>>)
        ensures
            match r {
                Ok(bounded) => MIN <= value <= MAX && bounded.spec_get() == value
                    && bounded.valid(),
                Err(e) => !(MIN <= value <= MAX) && e.0 == value,
            },
    {
        if MIN <= value && value <= MAX {
            Ok(BoundedU32(value))
        } else {
            Err(InvalidBoundedU32(value))
        }
    }
}

impl<const MIN: u32, const MAX: u32> TryFrom<u32> for BoundedU32<MIN, MAX> {
    type Error = InvalidBoundedU32<MIN, MAX>;

    fn try_from(value: u32) -> (r: Result<Self, Self::Error>) {
        Self::new(value)
    }
}

impl<const MIN: u32, const MAX: u32> TryFromSpecImpl<u32> for BoundedU32<MIN, MAX> {
    open spec fn obeys_try_from_spec() -> bool {
        true
    }

    closed spec fn try_from_spec(value: u32) -> Result<Self, InvalidBoundedU32<MIN, MAX>> {
        if MIN <= value <= MAX {
            Ok(BoundedU32(value))
        } else {
            Err(InvalidBoundedU32(value))
        }
    }
}

impl<const MIN: u32, const MAX: u32> TryFrom<usize> for BoundedU32<MIN, MAX> {
    type Error = TryIntoBoundedU32Error;

    fn try_from(value: usize) -> (r: Result<Self, Self::Error>) {
        Self::try_from_len(value)
    }
}

impl<const MIN: u32, const MAX: u32> TryFromSpecImpl<usize> for BoundedU32<MIN, MAX> {
    open spec fn obeys_try_from_spec() -> bool {
        true
    }

    closed spec fn try_from_spec(value: usize) -> Result<Self, TryIntoBoundedU32Error> {
        if value > u32::MAX {
            Err(TryIntoBoundedU32Error::Truncated(value))
        } else if MIN <= value <= MAX {
            Ok(BoundedU32(value as u32))
        } else {
            Err(TryIntoBoundedU32Error::Invalid(value as u32))
        }
    }
}

/// `BoundedU32`: packed as its `u32`. Unpacking fails where the number is outside the range.
impl<const MIN: u32, const MAX: u32> Packable for BoundedU32<MIN, MAX> {
    type UnpackError = InvalidBoundedU32<MIN, MAX>;

    type UnpackVisitor = ();

    closed spec fn valid(&self) -> bool {
        MIN <= self.0 <= MAX
    }

    open spec fn passes(&self, visitor: &()) -> bool {
        true
    }

    closed spec fn spec_pack(&self) -> Seq<u8> {
        le_bytes(self.0 as nat, 4)
    }

    open spec fn spec_unpack(bytes: Seq<u8>, visitor: &(), verify: bool) -> Decoded<u32, u32> {
        if bytes.len() >= 4 {
            if MIN <= le_value(bytes.take(4)) <= MAX {
                Decoded::Done(le_value(bytes.take(4)) as u32, 4)
            } else {
                Decoded::Invalid(le_value(bytes.take(4)) as u32)
            }
        } else {
            Decoded::Short(4, bytes.len())
        }
    }

    proof fn lemma_round_trip(&self, rest: Seq<u8>, visitor: &(), verify: bool) {
        self.0.lemma_round_trip(rest, visitor, verify);
        lemma_radix_pow_values();
        lemma_le_bytes_of_value((self.spec_pack() + rest).take(4));
    }

    proof fn lemma_truncated(&self, len: nat, visitor: &(), verify: bool) {
        crate::le::lemma_le_bytes_len(self.0 as nat, 4);
    }

    proof fn lemma_invalid_can_occur(bytes: Seq<u8>, visitor: &(), verify: bool) {
    }

    fn pack<P: Packer>(&self, packer: &mut P) -> (r: Result<(), P::Error>) {
        self.0.pack(packer)
    }

    fn unpack<U: Unpacker, const VERIFY: bool>(unpacker: &mut U, visitor: &()) -> (r: Result<
        Self,
        UnpackError<Self::UnpackError, U::Error>,
    >) {
        let ghost bytes = unpacker.remaining();
        proof {
            assert(u32::spec_unpack(bytes, visitor, VERIFY) == if bytes.len() >= 4 {
                Decoded::<u32, ()>::Done(le_value(bytes.take(4)) as u32, 4)
            } else {
                Decoded::<u32, ()>::Short(4, bytes.len())
            });
            if bytes.len() >= 4 {
                lemma_radix_pow_values();
                lemma_le_bytes_of_value(bytes.take(4));
            }
        }
        match u32::unpack::<U, VERIFY>(unpacker, visitor) {
            Ok(value) => match Self::new(value) {
                Ok(bounded) => Ok(bounded),
                Err(e) => Err(UnpackError::Packable(e)),
            },
            Err(e) => Err(UnpackError::Unpacker(e.into_unpacker_err())),
        }
    }
}

/// A `u32` within the range of a `BoundedU32` is unpacked as itself, the numbers `MIN` and
/// `MAX` among them; one outside the range is refused with an error that holds the number.
pub proof fn lemma_bounded_u32_enforced<const MIN: u32, const MAX: u32>(
    value: u32,
    rest: Seq<u8>,
    verify: bool,
)
    ensures
        BoundedU32::<MIN, MAX>::spec_unpack(value.spec_pack() + rest, &(), verify) == if MIN
            <= value <= MAX {
            Decoded::<u32, u32>::Done(value, 4)
        } else {
            Decoded::<u32, u32>::Invalid(value)
        },
{
    lemma_radix_pow_values();
    crate::le::lemma_le_bytes_len(value as nat, 4);
    crate::le::lemma_le_value_of_bytes(value as nat, 4);
    assert((value.spec_pack() + rest).take(4) =~= value.spec_pack());
}

/// `BoundedU32` as a length prefix: 4 bytes, the lengths from `MIN` to `MAX` accepted.
impl<const MIN: u32, const MAX: u32> Bounded for BoundedU32<MIN, MAX> {
    type LenError = TryIntoBoundedU32Error;

    open spec fn spec_width() -> nat {
        4
    }

    open spec fn spec_min() -> nat {
        MIN as nat
    }

    open spec fn spec_max() -> nat {
        MAX as nat
    }

    closed spec fn spec_len(&self) -> nat {
        self.0 as nat
    }

    open spec fn spec_len_of(view: u32) -> nat {
        view as nat
    }

    closed spec fn spec_from_len(len: nat) -> Self {
        BoundedU32(len as u32)
    }

    open spec fn is_len_error(err: TryIntoBoundedU32Error, len: nat) -> bool {
        if len > u32::MAX {
            err == TryIntoBoundedU32Error::Truncated(len as usize)
        } else {
            err == TryIntoBoundedU32Error::Invalid(len as u32)
        }
    }

    proof fn lemma_bounded(&self) {
    }

    proof fn lemma_from_len(len: nat) {
    }

    fn try_from_len(len: usize) -> (r: Result<Self, Self::LenError>) {
        match u32::try_from(len) {
            Ok(value) => match Self::new(value) {
                Ok(bounded) => Ok(bounded),
                Err(e) => Err(TryIntoBoundedU32Error::Invalid(e.0)),
            },
            Err(_) => Err(TryIntoBoundedU32Error::Truncated(len)),
        }
    }

    fn len(&self) -> (r: u64) {
        self.0 as u64
    }
}

/// Error type of a `u64` that is outside the range of a [`BoundedU64`]: the number.
#[derive(Clone, Copy, Debug, PartialEq, Eq)]
pub struct InvalidBoundedU64<const MIN: u64, const MAX: u64>(pub u64);

impl<const MIN: u64, const MAX: u64> ErrorView for InvalidBoundedU64<MIN, MAX> {
    type View = u64;

    open spec fn error_view(&self) -> u64 {
        self.0
    }

    open spec fn can_occur() -> bool {
        true
    }
}

impl<const MIN: u64, const MAX: u64> CoerceInto<InvalidBoundedU64<MIN, MAX>> for InvalidBoundedU64<
    MIN,
    MAX,
> {
    open spec fn spec_coerce(view: u64) -> u64 {
        view
    }

    proof fn lemma_coerce_can_occur() {
    }

    fn coerce_into(self) -> (r: InvalidBoundedU64<MIN, MAX>) {
        self
    }
}

/// Error type of a `usize` that cannot be a [`BoundedU64`].
#[derive(Clone, Copy, Debug, PartialEq, Eq)]
pub enum TryIntoBoundedU64Error {
    /// The number does not fit a `u64`: the number.
    Truncated(usize),
    /// The number is outside the range: the number.
    Invalid(u64),
}

/// A `u64` between `MIN` and `MAX`, both included.
#[derive(Clone, Copy, Debug, PartialEq, Eq, PartialOrd, Ord, Hash)]
pub struct BoundedU64<const MIN: u64, const MAX: u64>(u64);

impl<const MIN: u64, const MAX: u64> DeepView for BoundedU64<MIN, MAX> {
    type V = u64;

    closed spec fn deep_view(&self) -> u64 {
        self.0
    }
}

impl<const MIN: u64, const MAX: u64> BoundedU64<MIN, MAX> {
    #[verifier::type_invariant]
    spec fn in_range(self) -> bool {
        MIN <= self.0 <= MAX
    }

    /// The number.
    pub closed spec fn spec_get(&self) -> u64 {
        self.0
    }

    /// The number, which is within the range.
    pub fn get(self) -> (r: u64)
        ensures
            r == self.spec_get(),
            MIN <= r <= MAX,
            self.valid(),
    {
        proof {
            use_type_invariant(&self);
        }
        self.0
    }

    /// The bounded integer of `value`, if `value` is within the range.
    pub fn new(value: u64) -> (r: Result<Self, InvalidBoundedU64<MIN, MAX>>)
        ensures
            match r {
                Ok(bounded) => MIN <= value <= MAX && bounded.spec_get() == value
                    && bounded.valid(),
                Err(e) => !(MIN <= value <= MAX) && e.0 == value,
            },
    {
        if MIN <= value && value <= MAX {
            Ok(BoundedU64(value))
        } else {
            Err(InvalidBoundedU64(value))
        }
    }
}

impl<const MIN: u64, const MAX: u64> TryFrom<u64> for BoundedU64<MIN, MAX> {
    type Error = InvalidBoundedU64<MIN, MAX>;

    fn try_from(value: u64) -> (r: Result<Self, Self::Error>) {
        Self::new(value)
    }
}

impl<const MIN: u64, const MAX: u64> TryFromSpecImpl<u64> for BoundedU64<MIN, MAX> {
    open spec fn obeys_try_from_spec() -> bool {
        true
    }

    closed spec fn try_from_spec(value: u64) -> Result<Self, InvalidBoundedU64<MIN, MAX>> {
        if MIN <= value <= MAX {
            Ok(BoundedU64(value))
        } else {
            Err(InvalidBoundedU64(value))
        }
    }
}

impl<const MIN: u64, const MAX: u64> TryFrom<usize> for BoundedU64<MIN, MAX> {
    type Error = TryIntoBoundedU64Error;

    fn try_from(value: usize) -> (r: Result<Self, Self::Error>) {
        Self::try_from_len(value)
    }
}

impl<const MIN: u64, const MAX: u64> TryFromSpecImpl<usize> for BoundedU64<MIN, MAX> {
    open spec fn obeys_try_from_spec() -> bool {
        true
    }

    closed spec fn try_from_spec(value: usize) -> Result<Self, TryIntoBoundedU64Error> {
        if value > u64::MAX {
            Err(TryIntoBoundedU64Error::Truncated(value))
        } else if MIN <= value <= MAX {
            Ok(BoundedU64(value as u64))
        } else {
            Err(TryIntoBoundedU64Error::Invalid(value as u64))
        }
    }
}

/// `BoundedU64`: packed as its `u64`. Unpacking fails where the number is outside the range.
impl<const MIN: u64, const MAX: u64> Packable for BoundedU64<MIN, MAX> {
    type UnpackError = InvalidBoundedU64<MIN, MAX>;

    type UnpackVisitor = ();

    closed spec fn valid(&self) -> bool {
        MIN <= self.0 <= MAX
    }

    open spec fn passes(&self, visitor: &()) -> bool {
        true
    }

    closed spec fn spec_pack(&self) -> Seq<u8> {
        le_bytes(self.0 as nat, 8)
    }

    open spec fn spec_unpack(bytes: Seq<u8>, visitor: &(), verify: bool) -> Decoded<u64, u64> {
        if bytes.len() >= 8 {
            if MIN <= le_value(bytes.take(8)) <= MAX {
                Decoded::Done(le_value(bytes.take(8)) as u64, 8)
            } else {
                Decoded::Invalid(le_value(bytes.take(8)) as u64)
            }
        } else {
            Decoded::Short(8, bytes.len())
        }
    }

    proof fn lemma_round_trip(&self, rest: Seq<u8>, visitor: &(), verify: bool) {
        self.0.lemma_round_trip(rest, visitor, verify);
        lemma_radix_pow_values();
        lemma_le_bytes_of_value((self.spec_pack() + rest).take(8));
    }

    proof fn lemma_truncated(&self, len: nat, visitor: &(), verify: bool) {
        crate::le::lemma_le_bytes_len(self.0 as nat, 8);
    }

    proof fn lemma_invalid_can_occur(bytes: Seq<u8>, visitor: &(), verify: bool) {
    }

    fn pack<P: Packer>(&self, packer: &mut P) -> (r: Result<(), P::Error>) {
        self.0.pack(packer)
    }

    fn unpack<U: Unpacker, const VERIFY: bool>(unpacker: &mut U, visitor: &()) -> (r: Result<
        Self,
        UnpackError<Self::UnpackError, U::Error>,
    >) {
        let ghost bytes = unpacker.remaining();
        proof {
            assert(u64::spec_unpack(bytes, visitor, VERIFY) == if bytes.len() >= 8 {
                Decoded::<u64, ()>::Done(le_value(bytes.take(8)) as u64, 8)
            } else {
                Decoded::<u64, ()>::Short(8, bytes.len())
            });
            if bytes.len() >= 8 {
                lemma_radix_pow_values();
                lemma_le_bytes_of_value(bytes.take(8));
            }
        }
        match u64::unpack::<U, VERIFY>(unpacker, visitor) {
            Ok(value) => match Self::new(value) {
                Ok(bounded) => Ok(bounded),
                Err(e) => Err(UnpackError::Packable(e)),
            },
            Err(e) => Err(UnpackError::Unpacker(e.into_unpacker_err())),
        }
    }
}

/// A `u64` within the range of a `BoundedU64` is unpacked as itself, the numbers `MIN` and
/// `MAX` among them; one outside the range is refused with an error that holds the number.
pub proof fn lemma_bounded_u64_enforced<const MIN: u64, const MAX: u64>(
    value: u64,
    rest: Seq<u8>,
    verify: bool,
)
    ensures
        BoundedU64::<MIN, MAX>::spec_unpack(value.spec_pack() + rest, &(), verify) == if MIN
            <= value <= MAX {
            Decoded::<u64, u64>::Done(value, 8)
        } else {
            Decoded::<u64, u64>::Invalid(value)
        },
{
    lemma_radix_pow_values();
    crate::le::lemma_le_bytes_len(value as nat, 8);
    crate::le::lemma_le_value_of_bytes(value as nat, 8);
    assert((value.spec_pack() + rest).take(8) =~= value.spec_pack());
}

/// `BoundedU64` as a length prefix: 8 bytes, the lengths from `MIN` to `MAX` accepted.
impl<const MIN: u64, const MAX: u64> Bounded for BoundedU64<MIN, MAX> {
    type LenError = TryIntoBoundedU64Error;

    open spec fn spec_width() -> nat {
        8
    }

    open spec fn spec_min() -> nat {
        MIN as nat
    }

    open spec fn spec_max() -> nat {
        MAX as nat
    }

    closed spec fn spec_len(&self) -> nat {
        self.0 as nat
    }

    open spec fn spec_len_of(view: u64) -> nat {
        view as nat
    }

    closed spec fn spec_from_len(len: nat) -> Self {
        BoundedU64(len as u64)
    }

    open spec fn is_len_error(err: TryIntoBoundedU64Error, len: nat) -> bool {
        if len > u64::MAX {
            err == TryIntoBoundedU64Error::Truncated(len as usize)
        } else {
            err == TryIntoBoundedU64Error::Invalid(len as u64)
        }
    }

    proof fn lemma_bounded(&self) {
    }

    proof fn lemma_from_len(len: nat) {
    }

    fn try_from_len(len: usize) -> (r: Result<Self, Self::LenError>) {
        match u64::try_from(len) {
            Ok(value) => match Self::new(value) {
                Ok(bounded) => Ok(bounded),
                Err(e) => Err(TryIntoBoundedU64Error::Invalid(e.0)),
            },
            Err(_) => Err(TryIntoBoundedU64Error::Truncated(len)),
        }
    }

    fn len(&self) -> (r: u64) {
        self.0 as u64
    }
}

} // verus!
