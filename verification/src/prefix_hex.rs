//! Hex strings with a `0x` prefix: bytes to text and back.

use vstd::prelude::*;
use vstd::string::{StrSliceExecFns, StringExecFns, StringSliceAdditionalSpecFns};

verus! {

/// Error type of a text that is no prefixed hex string.
#[derive(Debug, PartialEq, Eq)]
pub enum Error {
    /// The text does not start with `0x`: its first two characters.
    InvalidPrefix { c0: char, c1: char },
    /// A character is no hex digit: the character and its place behind the prefix.
    InvalidHexCharacter { c: char, index: usize },
    /// The text is too short to hold a prefix.
    InvalidStringLength,
    /// The digits are not as many as the bytes of the array take.
    InvalidStringLengthSlice { expected: usize, actual: usize },
    /// The digits are odd in number.
    OddLength,
}

/// The hex digit of a number below 16, in lower case.
pub open spec fn hex_digit(n: u8) -> char {
    if n < 10 {
        (0x30 + n) as char
    } else {
        (0x61 + n - 10) as char
    }
}

/// The hex digits of the bytes, two for each byte, the high one first.
pub open spec fn spec_hex(bytes: Seq<u8>) -> Seq<char>
    decreases bytes.len(),
{
    if bytes.len() == 0 {
        Seq::empty()
    } else {
        spec_hex(bytes.drop_last()) + seq![
            hex_digit(bytes.last() / 16),
            hex_digit(bytes.last() % 16),
        ]
    }
}

/// The number that a hex digit stands for, in either case, if the byte is one.
pub open spec fn hex_value(c: u8) -> Option<u8> {
    if 0x30 <= c <= 0x39 {
        Some((c - 0x30) as u8)
    } else if 0x41 <= c <= 0x46 {
        Some((c - 0x41 + 10) as u8)
    } else if 0x61 <= c <= 0x66 {
        Some((c - 0x61 + 10) as u8)
    } else {
        None
    }
}

/// The bytes that the hex digits `text` spell, two digits for each byte.
pub open spec fn spec_unhex(text: Seq<u8>) -> Seq<u8> {
    Seq::new(
        text.len() / 2,
        |i: int| (hex_value(text[2 * i]).unwrap() * 16 + hex_value(text[2 * i + 1]).unwrap()) as u8,
    )
}

/// Whether `index` is the place of the first byte of `text` that is no hex digit.
pub open spec fn first_bad_digit(text: Seq<u8>, index: int) -> bool {
    &&& 0 <= index < text.len()
    &&& hex_value(text[index]) is None
    &&& forall|i: int| 0 <= i < index ==> hex_value(#[trigger] text[i]) is Some
}

/// What the bytes of a text decode to as hex digits: the bytes they spell, or the error of
/// an odd number of digits, or of the first byte that is no digit.
pub open spec fn hex_decoded(text: Seq<u8>, r: Result<Seq<u8>, Error>) -> bool {
    if text.len() % 2 != 0 {
        r == Err::<Seq<u8>, Error>(Error::OddLength)
    } else {
        match r {
            Ok(bytes) => bytes == spec_unhex(text) && forall|i: int|
                0 <= i < text.len() ==> hex_value(#[trigger] text[i]) is Some,
            Err(Error::InvalidHexCharacter { c, index }) => first_bad_digit(text, index as int)
                && c == text[index as int] as char,
            Err(_) => false,
        }
    }
}

/// The hex digits of the bytes.
///
/// Trusted: `hex::encode`, which writes two lower-case digits for each byte, the high one
/// first.
#[verifier::external_body]
pub(crate) fn hex_encode(bytes: &[u8]) -> (r: String)
    ensures
        r@ == spec_hex(bytes@),
{
    ::hex::encode(bytes)
}

/// The bytes that the hex digits spell.
///
/// Trusted: `hex::decode`, which refuses a text of odd length, then reads the text two
/// digits at a time, in either case, and fails at the first byte that is no digit with that
/// byte and its place. The error of `hex` is handed on as the error of this library.
#[verifier::external_body]
pub(crate) fn hex_decode(text: &str) -> (r: Result<Vec<u8>, Error>)
    ensures
        hex_decoded(
            text.spec_bytes(),
            match r {
                Ok(bytes) => Ok(bytes@),
                Err(e) => Err(e),
            },
        ),
{
    match ::hex::decode(text) {
        Ok(bytes) => Ok(bytes),
        Err(::hex::FromHexError::InvalidHexCharacter { c, index }) => Err(
            Error::InvalidHexCharacter { c, index },
        ),
        Err(::hex::FromHexError::InvalidStringLength) => Err(Error::InvalidStringLength),
        Err(::hex::FromHexError::OddLength) => Err(Error::OddLength),
    }
}

/// The text behind the prefix `0x`, or the error of a text without it.
pub open spec fn spec_strip_prefix(text: Seq<char>) -> Result<Seq<char>, Error> {
    if text.len() >= 2 && text[0] == '0' && text[1] == 'x' {
        Ok(text.skip(2))
    } else if text.len() < 2 {
        Err(Error::InvalidStringLength)
    } else {
        Err(Error::InvalidPrefix { c0: text[0], c1: text[1] })
    }
}

/// Takes the prefix `0x` off the text.
pub fn strip_prefix(hex: &str) -> (r: Result<&str, Error>)
    ensures
        match spec_strip_prefix(hex@) {
            Ok(rest) => r matches Ok(s) && s@ == rest,
            Err(e) => r == Err::<&str, Error>(e),
        },
{
    let len = hex.unicode_len();
    if len < 2 {
        return Err(Error::InvalidStringLength);
    }
    let c0 = hex.get_char(0);
    let c1 = hex.get_char(1);
    if c0 == '0' && c1 == 'x' {
        Ok(hex.substring_char(2, len))
    } else {
        Err(Error::InvalidPrefix { c0, c1 })
    }
}

/// Whether the character is a hex digit, in either case.
pub open spec fn is_hex_char(c: char) -> bool {
    ('0' <= c && c <= '9') || ('a' <= c && c <= 'f') || ('A' <= c && c <= 'F')
}

/// Whether `index` is the place of the first character of `text` that is no hex digit.
pub open spec fn first_bad_char(text: Seq<char>, index: int) -> bool {
    &&& 0 <= index < text.len()
    &&& !is_hex_char(text[index])
    &&& forall|i: int| 0 <= i < index ==> is_hex_char(#[trigger] text[i])
}

/// The digits of a prefixed hex number: the text behind the prefix `0x`, which may not be
/// empty.
pub fn number_digits(hex: &str) -> (r: Result<&str, Error>)
    ensures
        match spec_strip_prefix(hex@) {
            Ok(rest) => if rest.len() == 0 {
                r == Err::<&str, Error>(Error::InvalidStringLength)
            } else {
                r matches Ok(s) && s@ == rest
            },
            Err(e) => r == Err::<&str, Error>(e),
        },
{
    let digits = strip_prefix(hex)?;
    if digits.unicode_len() == 0 {
        return Err(Error::InvalidStringLength);
    }
    Ok(digits)
}

/// The error of digits that spell no hex number: the first character that is no hex digit,
/// with its place; or, where every character is a hex digit, the error of their number.
pub fn number_error(digits: &str) -> (r: Error)
    ensures
        match r {
            Error::InvalidHexCharacter { c, index } => first_bad_char(digits@, index as int) && c
                == digits@[index as int],
            Error::InvalidStringLength => forall|i: int|
                0 <= i < digits@.len() ==> is_hex_char(#[trigger] digits@[i]),
            _ => false,
        },
{
    let len = digits.unicode_len();
    let mut index: usize = 0;
    while index < len
        invariant
            index <= len,
            len == digits@.len(),
            forall|i: int| 0 <= i < index ==> is_hex_char(#[trigger] digits@[i]),
        decreases len - index,
    {
        let c = digits.get_char(index);
        if !(('0' <= c && c <= '9') || ('a' <= c && c <= 'f') || ('A' <= c && c <= 'F')) {
            return Error::InvalidHexCharacter { c, index };
        }
        index += 1;
    }
    Error::InvalidStringLength
}

/// The prefixed hex string of the bytes: `0x`, then the hex digits.
pub open spec fn spec_prefixed_hex(bytes: Seq<u8>) -> Seq<char> {
    seq!['0', 'x'] + spec_hex(bytes)
}

/// The prefixed hex string of the bytes.
pub fn encode_bytes(bytes: &[u8]) -> (r: String)
    ensures
        r@ == spec_prefixed_hex(bytes@),
{
    let digits = hex_encode(bytes);
    let prefix = String::from_str("0x");
    proof {
        reveal_strlit("0x");
        assert("0x"@ =~= seq!['0', 'x']);
    }
    prefix.concat(digits.as_str())
}

/// A type whose values have a prefixed hex string.
pub trait ToHexPrefixed: Sized {
    /// The bytes of the value.
    spec fn hex_bytes(&self) -> Seq<u8>;

    /// The prefixed hex string of the value.
    fn to_hex_prefixed(self) -> (r: String)
        ensures
            r@ == spec_prefixed_hex(self.hex_bytes()),
    ;
}

impl ToHexPrefixed for Vec<u8> {
    open spec fn hex_bytes(&self) -> Seq<u8> {
        self@
    }

    fn to_hex_prefixed(self) -> (r: String) {
        encode_bytes(self.as_slice())
    }
}

impl ToHexPrefixed for &[u8] {
    open spec fn hex_bytes(&self) -> Seq<u8> {
        self@
    }

    fn to_hex_prefixed(self) -> (r: String) {
        encode_bytes(self)
    }
}

impl<const N: usize> ToHexPrefixed for [u8; N] {
    open spec fn hex_bytes(&self) -> Seq<u8> {
        self@
    }

    fn to_hex_prefixed(self) -> (r: String) {
        encode_bytes(self.as_slice())
    }
}

impl<const N: usize> ToHexPrefixed for &[u8; N] {
    open spec fn hex_bytes(&self) -> Seq<u8> {
        self@
    }

    fn to_hex_prefixed(self) -> (r: String) {
        encode_bytes(self.as_slice())
    }
}

impl ToHexPrefixed for Box<[u8]> {
    open spec fn hex_bytes(&self) -> Seq<u8> {
        self@
    }

    fn to_hex_prefixed(self) -> (r: String) {
        encode_bytes(crate::boxed::boxed_as_slice(&self))
    }
}

impl ToHexPrefixed for &Box<[u8]> {
    open spec fn hex_bytes(&self) -> Seq<u8> {
        self@
    }

    fn to_hex_prefixed(self) -> (r: String) {
        encode_bytes(crate::boxed::boxed_as_slice(self))
    }
}

/// The prefixed hex string of a value.
pub fn encode<T: ToHexPrefixed>(value: T) -> (r: String)
    ensures
        r@ == spec_prefixed_hex(value.hex_bytes()),
{
    value.to_hex_prefixed()
}

/// What a text decodes to as the prefixed hex string of bytes, of any number where `exact`
/// is `None` and of that number where it is given. The error of a wrong number of digits
/// names the number of digits that was expected, or `usize::MAX` where that is less.
pub open spec fn hex_prefixed_decoded(
    text: Seq<char>,
    exact: Option<nat>,
    r: Result<Seq<u8>, Error>,
) -> bool {
    match spec_strip_prefix(text) {
        Ok(rest) => {
            let digits = vstd::utf8::encode_utf8(rest);
            match exact {
                Some(n) if digits.len() % 2 != 0 || digits.len() / 2 != n => r == Err::<
                    Seq<u8>,
                    Error,
                >(
                    Error::InvalidStringLengthSlice {
                        expected: crate::tally::clip(2 * n),
                        actual: digits.len() as usize,
                    },
                ),
                _ => hex_decoded(digits, r),
            }
        },
        Err(e) => r == Err::<Seq<u8>, Error>(e),
    }
}

/// A type whose values can be read from a prefixed hex string.
pub trait FromHexPrefixed: Sized {
    /// The bytes of the value.
    spec fn bytes(&self) -> Seq<u8>;

    /// The number of bytes that a value has, if all values have the same number.
    spec fn exact_len() -> Option<nat>;

    /// Reads a value from its prefixed hex string.
    fn from_hex_prefixed(hex: &str) -> (r: Result<Self, Error>)
        ensures
            hex_prefixed_decoded(
                hex@,
                Self::exact_len(),
                match r {
                    Ok(value) => Ok(value.bytes()),
                    Err(e) => Err(e),
                },
            ),
    ;
}

impl FromHexPrefixed for Vec<u8> {
    open spec fn bytes(&self) -> Seq<u8> {
        self@
    }

    open spec fn exact_len() -> Option<nat> {
        None
    }

    fn from_hex_prefixed(hex: &str) -> (r: Result<Self, Error>) {
        let rest = strip_prefix(hex)?;
        hex_decode(rest)
    }
}

impl<const N: usize> FromHexPrefixed for [u8; N] {
    open spec fn bytes(&self) -> Seq<u8> {
        self@
    }

    open spec fn exact_len() -> Option<nat> {
        Some(N as nat)
    }

    fn from_hex_prefixed(hex: &str) -> (r: Result<Self, Error>) {
        let rest = strip_prefix(hex)?;
        let len = rest.as_bytes().len();
        if len % 2 != 0 || len / 2 != N {
            let expected = if N <= usize::MAX / 2 {
                N * 2
            } else {
                usize::MAX
            };
            return Err(Error::InvalidStringLengthSlice { expected, actual: len });
        }
        let bytes = hex_decode(rest)?;
        let mut buffer = [0u8; N];
        let mut i: usize = 0;
        while i < N
            invariant
                i <= N,
                bytes@.len() == N,
                forall|j: int| 0 <= j < i ==> buffer@[j] == bytes@[j],
            decreases N - i,
        {
            buffer[i] = bytes[i];
            i += 1;
        }
        proof {
            assert(buffer@ =~= bytes@);
        }
        Ok(buffer)
    }
}

/// Reads a value from its prefixed hex string.
pub fn decode<T: FromHexPrefixed>(hex: &str) -> (r: Result<T, Error>)
    ensures
        hex_prefixed_decoded(
            hex@,
            T::exact_len(),
            match r {
                Ok(value) => Ok(value.bytes()),
                Err(e) => Err(e),
            },
        ),
{
    T::from_hex_prefixed(hex)
}

} // verus!
