//! The texts of errors, for a reader.

use core::convert::Infallible;
use vstd::prelude::*;
use vstd::string::StringExecFns;

use crate::auth::password::PasswordError;
use crate::bounded::{
    InvalidBoundedU16, InvalidBoundedU32, InvalidBoundedU64, InvalidBoundedU8,
    TryIntoBoundedU16Error, TryIntoBoundedU32Error, TryIntoBoundedU64Error,
    TryIntoBoundedU8Error,
};
use crate::capped::OverCap;
use crate::error::{UnexpectedEOF, UnknownTagError, UnpackError};
use crate::map::{UnpackMapError, UnpackOrderedMapError};
use crate::option::UnpackOptionError;
use crate::prefix::UnpackPrefixError;
use crate::set::{UnpackOrderedSetError, UnpackSetError};

verus! {

/// A value that has a text for a reader: an error, or a number that an error holds.
pub trait Message {
    /// The text of the value.
    spec fn spec_message(&self) -> Seq<char>;

    /// The text of the value.
    fn message(&self) -> (r: String)
        ensures
            r@ == self.spec_message(),
    ;
}

/// The digit of a number below ten.
pub open spec fn spec_digit(d: nat) -> Seq<char> {
    seq![((0x30 + d) as u8) as char]
}

/// The decimal digits of a number, without leading zeros.
pub open spec fn spec_decimal(n: nat) -> Seq<char>
    decreases n,
{
    if n < 10 {
        spec_digit(n)
    } else {
        spec_decimal(n / 10) + spec_digit(n % 10)
    }
}

/// The digit of a number below ten.
pub fn digit(d: u8) -> (r: &'static str)
    requires
        d < 10,
    ensures
        r@ == spec_digit(d as nat),
{
    proof {
        reveal_strlit("0");
        reveal_strlit("1");
        reveal_strlit("2");
        reveal_strlit("3");
        reveal_strlit("4");
        reveal_strlit("5");
        reveal_strlit("6");
        reveal_strlit("7");
        reveal_strlit("8");
        reveal_strlit("9");
    }
    let r = if d == 0 {
        "0"
    } else if d == 1 {
        "1"
    } else if d == 2 {
        "2"
    } else if d == 3 {
        "3"
    } else if d == 4 {
        "4"
    } else if d == 5 {
        "5"
    } else if d == 6 {
        "6"
    } else if d == 7 {
        "7"
    } else if d == 8 {
        "8"
    } else {
        "9"
    };
    proof {
        assert(r@ =~= spec_digit(d as nat));
    }
    r
}

/// The decimal digits of a number, without leading zeros.
pub fn decimal(n: u128) -> (r: String)
    ensures
        r@ == spec_decimal(n as nat),
    decreases n,
{
    if n < 10 {
        String::from_str(digit(n as u8))
    } else {
        let mut r = decimal(n / 10);
        r.append(digit((n % 10) as u8));
        r
    }
}

/// A text, and another behind it.
pub fn joined(text: &str, rest: String) -> (r: String)
    ensures
        r@ == text@ + rest@,
{
    String::from_str(text).concat(rest.as_str())
}

impl Message for u8 {
    open spec fn spec_message(&self) -> Seq<char> {
        spec_decimal(*self as nat)
    }

    fn message(&self) -> (r: String) {
        decimal(*self as u128)
    }
}

impl Message for u16 {
    open spec fn spec_message(&self) -> Seq<char> {
        spec_decimal(*self as nat)
    }

    fn message(&self) -> (r: String) {
        decimal(*self as u128)
    }
}

impl Message for u32 {
    open spec fn spec_message(&self) -> Seq<char> {
        spec_decimal(*self as nat)
    }

    fn message(&self) -> (r: String) {
        decimal(*self as u128)
    }
}

impl Message for u64 {
    open spec fn spec_message(&self) -> Seq<char> {
        spec_decimal(*self as nat)
    }

    fn message(&self) -> (r: String) {
        decimal(*self as u128)
    }
}

impl Message for usize {
    open spec fn spec_message(&self) -> Seq<char> {
        spec_decimal(*self as nat)
    }

    fn message(&self) -> (r: String) {
        decimal(*self as u128)
    }
}

/// An error that cannot occur has no text.
impl Message for Infallible {
    open spec fn spec_message(&self) -> Seq<char> {
        Seq::empty()
    }

    fn message(&self) -> (r: String) {
        String::new()
    }
}

/// The text of a number that does not fit, in the words of std.
impl Message for core::num::TryFromIntError {
    open spec fn spec_message(&self) -> Seq<char> {
        "out of range integral type conversion attempted"@
    }

    fn message(&self) -> (r: String) {
        String::from_str("out of range integral type conversion attempted")
    }
}

/// The text of bytes that are no UTF-8. It does not name the place of the first such byte.
impl Message for std::string::FromUtf8Error {
    open spec fn spec_message(&self) -> Seq<char> {
        "invalid utf-8 sequence"@
    }

    fn message(&self) -> (r: String) {
        String::from_str("invalid utf-8 sequence")
    }
}

impl Message for UnexpectedEOF {
    open spec fn spec_message(&self) -> Seq<char> {
        "not enough bytes, required "@ + spec_decimal(self.required as nat) + " but had "@
            + spec_decimal(self.had as nat)
    }

    fn message(&self) -> (r: String) {
        let mut r = joined("not enough bytes, required ", decimal(self.required as u128));
        r.append(" but had ");
        r.append(decimal(self.had as u128).as_str());
        r
    }
}

impl<T: Message> Message for UnknownTagError<T> {
    open spec fn spec_message(&self) -> Seq<char> {
        "unknown tag value "@ + self.0.spec_message()
    }

    fn message(&self) -> (r: String) {
        joined("unknown tag value ", self.0.message())
    }
}

impl<T: Message, U: Message> Message for UnpackError<T, U> {
    open spec fn spec_message(&self) -> Seq<char> {
        match self {
            UnpackError::Packable(e) => "packable error while unpacking: "@ + e.spec_message(),
            UnpackError::Unpacker(e) => "unpacker error while unpacking: "@ + e.spec_message(),
        }
    }

    fn message(&self) -> (r: String) {
        match self {
            UnpackError::Packable(e) => joined("packable error while unpacking: ", e.message()),
            UnpackError::Unpacker(e) => joined("unpacker error while unpacking: ", e.message()),
        }
    }
}

impl<E: Message> Message for UnpackOptionError<E> {
    open spec fn spec_message(&self) -> Seq<char> {
        match self {
            UnpackOptionError::UnknownTag(tag) => "unknown tag value "@ + spec_decimal(
                *tag as nat,
            ) + " for option"@,
            UnpackOptionError::Inner(e) => "cannot unpack some variant: "@ + e.spec_message(),
        }
    }

    fn message(&self) -> (r: String) {
        match self {
            UnpackOptionError::UnknownTag(tag) => {
                let mut r = joined("unknown tag value ", decimal(*tag as u128));
                r.append(" for option");
                r
            },
            UnpackOptionError::Inner(e) => joined("cannot unpack some variant: ", e.message()),
        }
    }
}

impl<T: Message, E: Message> Message for UnpackPrefixError<T, E> {
    open spec fn spec_message(&self) -> Seq<char> {
        match self {
            UnpackPrefixError::Item(e) => "cannot unpack item: "@ + e.spec_message(),
            UnpackPrefixError::Prefix(e) => "cannot unpack prefix: "@ + e.spec_message(),
        }
    }

    fn message(&self) -> (r: String) {
        match self {
            UnpackPrefixError::Item(e) => joined("cannot unpack item: ", e.message()),
            UnpackPrefixError::Prefix(e) => joined("cannot unpack prefix: ", e.message()),
        }
    }
}

impl<T, I: Message, P: Message> Message for UnpackSetError<T, I, P> {
    open spec fn spec_message(&self) -> Seq<char> {
        match self {
            UnpackSetError::DuplicateItem(_) => "duplicate item in set"@,
            UnpackSetError::Item(e) => "cannot unpack item: "@ + e.spec_message(),
            UnpackSetError::Prefix(e) => "cannot unpack prefix: "@ + e.spec_message(),
        }
    }

    fn message(&self) -> (r: String) {
        match self {
            UnpackSetError::DuplicateItem(_) => String::from_str("duplicate item in set"),
            UnpackSetError::Item(e) => joined("cannot unpack item: ", e.message()),
            UnpackSetError::Prefix(e) => joined("cannot unpack prefix: ", e.message()),
        }
    }
}

impl<T, I: Message, P: Message> Message for UnpackOrderedSetError<T, I, P> {
    open spec fn spec_message(&self) -> Seq<char> {
        match self {
            UnpackOrderedSetError::SetError(e) => e.spec_message(),
            UnpackOrderedSetError::Unordered => "unordered set"@,
        }
    }

    fn message(&self) -> (r: String) {
        match self {
            UnpackOrderedSetError::SetError(e) => e.message(),
            UnpackOrderedSetError::Unordered => String::from_str("unordered set"),
        }
    }
}

impl<K, KE: Message, VE: Message, P: Message> Message for UnpackMapError<K, KE, VE, P> {
    open spec fn spec_message(&self) -> Seq<char> {
        match self {
            UnpackMapError::DuplicateKey(_) => "duplicate key in map"@,
            UnpackMapError::Key(e) => "cannot unpack key: "@ + e.spec_message(),
            UnpackMapError::Value(e) => "cannot unpack value: "@ + e.spec_message(),
            UnpackMapError::Prefix(e) => "cannot unpack prefix: "@ + e.spec_message(),
        }
    }

    fn message(&self) -> (r: String) {
        match self {
            UnpackMapError::DuplicateKey(_) => String::from_str("duplicate key in map"),
            UnpackMapError::Key(e) => joined("cannot unpack key: ", e.message()),
            UnpackMapError::Value(e) => joined("cannot unpack value: ", e.message()),
            UnpackMapError::Prefix(e) => joined("cannot unpack prefix: ", e.message()),
        }
    }
}

impl<K, KE: Message, VE: Message, P: Message> Message for UnpackOrderedMapError<K, KE, VE, P> {
    open spec fn spec_message(&self) -> Seq<char> {
        match self {
            UnpackOrderedMapError::MapError(e) => e.spec_message(),
            UnpackOrderedMapError::Unordered => "unordered map"@,
        }
    }

    fn message(&self) -> (r: String) {
        match self {
            UnpackOrderedMapError::MapError(e) => e.message(),
            UnpackOrderedMapError::Unordered => String::from_str("unordered map"),
        }
    }
}

/// The text of a number outside a range: the number, and the range.
pub open spec fn spec_out_of_bounds(value: nat, min: nat, max: nat) -> Seq<char> {
    "the integer `"@ + spec_decimal(value) + "` is out of bounds (`"@ + spec_decimal(min)
        + "..="@ + spec_decimal(max) + "`)"@
}

/// The text of a number outside a range: the number, and the range.
pub fn out_of_bounds(value: u64, min: u64, max: u64) -> (r: String)
    ensures
        r@ == spec_out_of_bounds(value as nat, min as nat, max as nat),
{
    let mut r = joined("the integer `", decimal(value as u128));
    r.append("` is out of bounds (`");
    r.append(decimal(min as u128).as_str());
    r.append("..=");
    r.append(decimal(max as u128).as_str());
    r.append("`)");
    r
}

/// The text of a number that does not fit the type named `width`: the number, and the type.
pub open spec fn spec_truncated(value: nat, width: Seq<char>) -> Seq<char> {
    "the integer `"@ + spec_decimal(value) + "` was truncated while casting it into a `"@
        + width + "`"@
}

/// The text of a number that does not fit the type named `width`: the number, and the type.
pub fn truncated(value: usize, width: &str) -> (r: String)
    ensures
        r@ == spec_truncated(value as nat, width@),
{
    let mut r = joined("the integer `", decimal(value as u128));
    r.append("` was truncated while casting it into a `");
    r.append(width);
    r.append("`");
    r
}

impl<const MIN: u8, const MAX: u8> Message for InvalidBoundedU8<MIN, MAX> {
    open spec fn spec_message(&self) -> Seq<char> {
        spec_out_of_bounds(self.0 as nat, MIN as nat, MAX as nat)
    }

    fn message(&self) -> (r: String) {
        out_of_bounds(self.0 as u64, MIN as u64, MAX as u64)
    }
}

impl<const MIN: u16, const MAX: u16> Message for InvalidBoundedU16<MIN, MAX> {
    open spec fn spec_message(&self) -> Seq<char> {
        spec_out_of_bounds(self.0 as nat, MIN as nat, MAX as nat)
    }

    fn message(&self) -> (r: String) {
        out_of_bounds(self.0 as u64, MIN as u64, MAX as u64)
    }
}

impl<const MIN: u32, const MAX: u32> Message for InvalidBoundedU32<MIN, MAX> {
    open spec fn spec_message(&self) -> Seq<char> {
        spec_out_of_bounds(self.0 as nat, MIN as nat, MAX as nat)
    }

    fn message(&self) -> (r: String) {
        out_of_bounds(self.0 as u64, MIN as u64, MAX as u64)
    }
}

impl<const MIN: u64, const MAX: u64> Message for InvalidBoundedU64<MIN, MAX> {
    open spec fn spec_message(&self) -> Seq<char> {
        spec_out_of_bounds(self.0 as nat, MIN as nat, MAX as nat)
    }

    fn message(&self) -> (r: String) {
        out_of_bounds(self.0, MIN, MAX)
    }
}

/// The text of a number outside a range of which only the number is known.
pub open spec fn spec_invalid(value: nat) -> Seq<char> {
    "the integer `"@ + spec_decimal(value) + "` is out of bounds"@
}

/// The text of a number outside a range of which only the number is known.
pub fn invalid(value: u64) -> (r: String)
    ensures
        r@ == spec_invalid(value as nat),
{
    let mut r = joined("the integer `", decimal(value as u128));
    r.append("` is out of bounds");
    r
}

impl Message for TryIntoBoundedU8Error {
    open spec fn spec_message(&self) -> Seq<char> {
        match self {
            TryIntoBoundedU8Error::Truncated(len) => spec_truncated(*len as nat, "u8"@),
            TryIntoBoundedU8Error::Invalid(value) => spec_invalid(*value as nat),
        }
    }

    fn message(&self) -> (r: String) {
        match self {
            TryIntoBoundedU8Error::Truncated(len) => truncated(*len, "u8"),
            TryIntoBoundedU8Error::Invalid(value) => invalid(*value as u64),
        }
    }
}

impl Message for TryIntoBoundedU16Error {
    open spec fn spec_message(&self) -> Seq<char> {
        match self {
            TryIntoBoundedU16Error::Truncated(len) => spec_truncated(*len as nat, "u16"@),
            TryIntoBoundedU16Error::Invalid(value) => spec_invalid(*value as nat),
        }
    }

    fn message(&self) -> (r: String) {
        match self {
            TryIntoBoundedU16Error::Truncated(len) => truncated(*len, "u16"),
            TryIntoBoundedU16Error::Invalid(value) => invalid(*value as u64),
        }
    }
}

impl Message for TryIntoBoundedU32Error {
    open spec fn spec_message(&self) -> Seq<char> {
        match self {
            TryIntoBoundedU32Error::Truncated(len) => spec_truncated(*len as nat, "u32"@),
            TryIntoBoundedU32Error::Invalid(value) => spec_invalid(*value as nat),
        }
    }

    fn message(&self) -> (r: String) {
        match self {
            TryIntoBoundedU32Error::Truncated(len) => truncated(*len, "u32"),
            TryIntoBoundedU32Error::Invalid(value) => invalid(*value as u64),
        }
    }
}

impl Message for TryIntoBoundedU64Error {
    open spec fn spec_message(&self) -> Seq<char> {
        match self {
            TryIntoBoundedU64Error::Truncated(len) => spec_truncated(*len as nat, "u64"@),
            TryIntoBoundedU64Error::Invalid(value) => spec_invalid(*value as nat),
        }
    }

    fn message(&self) -> (r: String) {
        match self {
            TryIntoBoundedU64Error::Truncated(len) => truncated(*len, "u64"),
            TryIntoBoundedU64Error::Invalid(value) => invalid(*value),
        }
    }
}

impl Message for OverCap {
    open spec fn spec_message(&self) -> Seq<char> {
        "the byte "@ + spec_decimal(self.value as nat) + " lies above the cap "@ + spec_decimal(
            self.cap as nat,
        )
    }

    fn message(&self) -> (r: String) {
        let mut r = joined("the byte ", decimal(self.value as u128));
        r.append(" lies above the cap ");
        r.append(decimal(self.cap as u128).as_str());
        r
    }
}

impl Message for crate::auth::jwt::Error {
    open spec fn spec_message(&self) -> Seq<char> {
        match self {
            crate::auth::jwt::Error::InvalidExpiry { issued_at, expiry } => "invalid expiry time "@
                + spec_decimal(*expiry as nat) + " from issue time "@ + spec_decimal(
                *issued_at as nat,
            ),
            crate::auth::jwt::Error::InvalidNbf { issued_at, nbf } => "invalid not before time "@
                + spec_decimal(*nbf as nat) + " from issue time "@ + spec_decimal(
                *issued_at as nat,
            ),
            crate::auth::jwt::Error::InvalidSystemTime => "system time is before the UNIX epoch"@,
        }
    }

    fn message(&self) -> (r: String) {
        match self {
            crate::auth::jwt::Error::InvalidExpiry { issued_at, expiry } => {
                let mut r = joined("invalid expiry time ", decimal(*expiry as u128));
                r.append(" from issue time ");
                r.append(decimal(*issued_at as u128).as_str());
                r
            },
            crate::auth::jwt::Error::InvalidNbf { issued_at, nbf } => {
                let mut r = joined("invalid not before time ", decimal(*nbf as u128));
                r.append(" from issue time ");
                r.append(decimal(*issued_at as u128).as_str());
                r
            },
            crate::auth::jwt::Error::InvalidSystemTime => String::from_str(
                "system time is before the UNIX epoch",
            ),
        }
    }
}

/// The text of a character as a reader of code would write it: between single quotes, and
/// escaped where it cannot be printed.
pub uninterp spec fn spec_char_debug(c: char) -> Seq<char>;

/// A character as a string.
///
/// Trusted: `String::from` of std for a `char`, which gives the string of the one character.
#[verifier::external_body]
pub(crate) fn char_text(c: char) -> (r: String)
    ensures
        r@ == seq![c],
{
    String::from(c)
}

/// A character as a reader of code would write it.
///
/// Trusted: `Debug` of std for `char`, through `format!`. The text depends on the character
/// alone and is named `spec_char_debug`.
#[verifier::external_body]
pub(crate) fn char_debug(c: char) -> (r: String)
    ensures
        r@ == spec_char_debug(c),
{
    format!("{:?}", c)
}

impl Message for crate::prefix_hex::Error {
    open spec fn spec_message(&self) -> Seq<char> {
        match self {
            crate::prefix_hex::Error::InvalidPrefix { c0, c1 } => "Invalid hex prefix: expected `0x` but got `"@
                + seq![*c0] + seq![*c1] + "`"@,
            crate::prefix_hex::Error::InvalidHexCharacter { c, index } => "Invalid hex character "@
                + spec_char_debug(*c) + " at position "@ + spec_decimal(*index as nat),
            crate::prefix_hex::Error::InvalidStringLength => "Invalid hex string length"@,
            crate::prefix_hex::Error::InvalidStringLengthSlice { expected, actual } => "Invalid hex string length for slice: expected "@
                + spec_decimal(*expected as nat) + " got "@ + spec_decimal(*actual as nat),
            crate::prefix_hex::Error::OddLength => "Odd number of digits in hex string"@,
        }
    }

    fn message(&self) -> (r: String) {
        match self {
            crate::prefix_hex::Error::InvalidPrefix { c0, c1 } => {
                let mut r = joined("Invalid hex prefix: expected `0x` but got `", char_text(*c0));
                r.append(char_text(*c1).as_str());
                r.append("`");
                r
            },
            crate::prefix_hex::Error::InvalidHexCharacter { c, index } => {
                let mut r = joined("Invalid hex character ", char_debug(*c));
                r.append(" at position ");
                r.append(decimal(*index as u128).as_str());
                r
            },
            crate::prefix_hex::Error::InvalidStringLength => String::from_str(
                "Invalid hex string length",
            ),
            crate::prefix_hex::Error::InvalidStringLengthSlice { expected, actual } => {
                let mut r = joined(
                    "Invalid hex string length for slice: expected ",
                    decimal(*expected as u128),
                );
                r.append(" got ");
                r.append(decimal(*actual as u128).as_str());
                r
            },
            crate::prefix_hex::Error::OddLength => String::from_str(
                "Odd number of digits in hex string",
            ),
        }
    }
}

/// The text of a hash that cannot be computed: what `argon2` says of the reason.
impl Message for PasswordError {
    open spec fn spec_message(&self) -> Seq<char> {
        self.0@
    }

    fn message(&self) -> (r: String) {
        String::from_str(self.0.as_str())
    }
}

} // verus!
