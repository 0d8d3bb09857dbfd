use std::collections::{BTreeMap, BTreeSet};

use packable::auth::jwt;
use packable::bounded::{BoundedU8, InvalidBoundedU8, TryIntoBoundedU8Error, TryIntoBoundedU64Error};
use packable::capped::{Capped, OverCap};
use packable::error::{UnexpectedEOF, UnknownTagError, UnpackError};
use packable::maybe::Maybe;
use packable::message::{decimal, Message};
use packable::option::UnpackOptionError;
use packable::prefix::VecPrefix;
use packable::prefix_hex;
use packable::PackableExt;

#[test]
fn decimal_digits() {
    assert_eq!(decimal(0), "0");
    assert_eq!(decimal(7), "7");
    assert_eq!(decimal(10), "10");
    assert_eq!(decimal(1050), "1050");
    assert_eq!(decimal(u128::MAX), "340282366920938463463374607431768211455");
    assert_eq!(255u8.message(), "255");
    assert_eq!(u64::MAX.message(), "18446744073709551615");
}

#[test]
fn messages_of_the_plain_errors() {
    assert_eq!(
        UnexpectedEOF { required: 4, had: 2 }.message(),
        "not enough bytes, required 4 but had 2"
    );
    assert_eq!(UnknownTagError(2u8).message(), "unknown tag value 2");
    assert_eq!(
        UnpackOptionError::<UnknownTagError<u8>>::UnknownTag(9).message(),
        "unknown tag value 9 for option"
    );
    assert_eq!(OverCap { value: 42, cap: 10 }.message(), "the byte 42 lies above the cap 10");
}

#[test]
fn messages_of_unpacking() {
    let err = Maybe::unpack_verified(&[2], &()).unwrap_err();
    assert_eq!(err.message(), "packable error while unpacking: unknown tag value 2");
    let err = Maybe::unpack_verified(&[1, 7], &()).unwrap_err();
    assert_eq!(
        err.message(),
        "unpacker error while unpacking: not enough bytes, required 4 but had 1"
    );
    let err = Option::<Capped>::unpack_verified(&[1, 4], &3).unwrap_err();
    assert_eq!(
        err.message(),
        "packable error while unpacking: cannot unpack some variant: the byte 4 lies above the cap 3"
    );
    let err = u32::unpack_verified(&[1], &()).unwrap_err();
    assert_eq!(
        err.message(),
        "unpacker error while unpacking: not enough bytes, required 4 but had 1"
    );
}

#[test]
fn messages_of_collections() {
    let err = Vec::<Maybe>::unpack_verified(&[1, 0, 0, 0, 0, 0, 0, 0, 3], &()).unwrap_err();
    assert_eq!(
        err.message(),
        "packable error while unpacking: cannot unpack item: unknown tag value 3"
    );
    let err = VecPrefix::<u8, BoundedU8<1, 8>>::unpack_verified(&[0], &()).unwrap_err();
    assert_eq!(
        err.message(),
        "packable error while unpacking: cannot unpack prefix: the integer `0` is out of bounds (`1..=8`)"
    );
    let err = BTreeSet::<u8>::unpack_verified(&[2, 0, 0, 0, 0, 0, 0, 0, 5, 5], &()).unwrap_err();
    assert_eq!(err.message(), "packable error while unpacking: duplicate item in set");
    let err = BTreeSet::<u8>::unpack_verified(&[2, 0, 0, 0, 0, 0, 0, 0, 5, 4], &()).unwrap_err();
    assert_eq!(err.message(), "packable error while unpacking: unordered set");
    let err =
        BTreeMap::<u8, u8>::unpack_verified(&[2, 0, 0, 0, 0, 0, 0, 0, 5, 1, 5, 2], &()).unwrap_err();
    assert_eq!(err.message(), "packable error while unpacking: duplicate key in map");
    let err =
        BTreeMap::<u8, u8>::unpack_verified(&[2, 0, 0, 0, 0, 0, 0, 0, 5, 1, 4, 2], &()).unwrap_err();
    assert_eq!(err.message(), "packable error while unpacking: unordered map");
    let err = BTreeMap::<u8, Maybe>::unpack_verified(&[1, 0, 0, 0, 0, 0, 0, 0, 5, 9], &())
        .unwrap_err();
    assert_eq!(
        err.message(),
        "packable error while unpacking: cannot unpack value: unknown tag value 9"
    );
}

#[test]
fn messages_of_bounds() {
    assert_eq!(
        InvalidBoundedU8::<1, 8>(9).message(),
        "the integer `9` is out of bounds (`1..=8`)"
    );
    assert_eq!(
        TryIntoBoundedU8Error::Truncated(300).message(),
        "the integer `300` was truncated while casting it into a `u8`"
    );
    assert_eq!(TryIntoBoundedU8Error::Invalid(9).message(), "the integer `9` is out of bounds");
    assert_eq!(
        TryIntoBoundedU64Error::Invalid(u64::MAX).message(),
        "the integer `18446744073709551615` is out of bounds"
    );
}

#[test]
fn messages_of_hex_errors() {
    assert_eq!(
        prefix_hex::Error::InvalidPrefix { c0: '1', c1: 'x' }.message(),
        "Invalid hex prefix: expected `0x` but got `1x`"
    );
    assert_eq!(
        prefix_hex::Error::InvalidHexCharacter { c: 'y', index: 3 }.message(),
        "Invalid hex character 'y' at position 3"
    );
    assert_eq!(
        prefix_hex::Error::InvalidHexCharacter { c: '\n', index: 0 }.message(),
        "Invalid hex character '\\n' at position 0"
    );
    assert_eq!(prefix_hex::Error::InvalidStringLength.message(), "Invalid hex string length");
    assert_eq!(
        prefix_hex::Error::InvalidStringLengthSlice { expected: 6, actual: 4 }.message(),
        "Invalid hex string length for slice: expected 6 got 4"
    );
    assert_eq!(prefix_hex::Error::OddLength.message(), "Odd number of digits in hex string");
}

#[test]
fn messages_of_claims_errors() {
    assert_eq!(
        jwt::Error::InvalidExpiry { issued_at: 1000, expiry: 999 }.message(),
        "invalid expiry time 999 from issue time 1000"
    );
    assert_eq!(
        jwt::Error::InvalidNbf { issued_at: 1000, nbf: 1 }.message(),
        "invalid not before time 1 from issue time 1000"
    );
    assert_eq!(
        jwt::Error::InvalidSystemTime.message(),
        "system time is before the UNIX epoch"
    );
}
