use std::collections::{BTreeMap, BTreeSet, HashMap};

use packable::error::UnpackError;
use packable::map::{UnpackMapError, UnpackOrderedMapError};
use packable::option::UnpackOptionError;
use packable::prefix::UnpackPrefixError;
use packable::prefix_hex;
use packable::set::{UnpackOrderedSetError, UnpackSetError};
use packable::PackableExt;

#[test]
fn option_inner_error() {
    assert!(matches!(
        Option::<Option<u8>>::unpack_verified(&[1, 9, 0], &()),
        Err(UnpackError::Packable(UnpackOptionError::Inner(UnpackOptionError::UnknownTag(9))))
    ));
}

#[test]
fn vec_item_error() {
    assert!(matches!(
        Vec::<Option<u8>>::unpack_verified(&[2, 0, 0, 0, 0, 0, 0, 0, 0, 5], &()),
        Err(UnpackError::Packable(UnpackPrefixError::Item(UnpackOptionError::UnknownTag(5))))
    ));
    assert!(matches!(
        Vec::<u16>::unpack_verified(&[2, 0, 0, 0, 0, 0, 0, 0, 1, 0, 2], &()),
        Err(UnpackError::Unpacker(_))
    ));
    assert!(matches!(
        Vec::<u16>::unpack_verified(&[2, 0, 0, 0, 0, 0, 0], &()),
        Err(UnpackError::Unpacker(_))
    ));
}

#[test]
fn set_item_error() {
    assert!(matches!(
        BTreeSet::<Option<u8>>::unpack_verified(&[2, 0, 0, 0, 0, 0, 0, 0, 0, 3], &()),
        Err(UnpackError::Packable(UnpackOrderedSetError::SetError(UnpackSetError::Item(
            UnpackOptionError::UnknownTag(3)
        ))))
    ));
}

#[test]
fn map_key_and_value_errors() {
    assert!(matches!(
        BTreeMap::<Option<u8>, u8>::unpack_verified(&[1, 0, 0, 0, 0, 0, 0, 0, 4, 0], &()),
        Err(UnpackError::Packable(UnpackOrderedMapError::MapError(UnpackMapError::Key(
            UnpackOptionError::UnknownTag(4)
        ))))
    ));
    assert!(matches!(
        BTreeMap::<u8, Option<u8>>::unpack_verified(&[1, 0, 0, 0, 0, 0, 0, 0, 4, 6], &()),
        Err(UnpackError::Packable(UnpackOrderedMapError::MapError(UnpackMapError::Value(
            UnpackOptionError::UnknownTag(6)
        ))))
    ));
    assert!(matches!(
        HashMap::<u8, Option<u8>>::unpack_verified(&[1, 0, 0, 0, 0, 0, 0, 0, 4, 6], &()),
        Err(UnpackError::Packable(UnpackMapError::Value(UnpackOptionError::UnknownTag(6))))
    ));
}

#[test]
fn a_repeated_key_is_reported_before_its_value_is_read() {
    assert!(matches!(
        BTreeMap::<u8, u16>::unpack_verified(&[2, 0, 0, 0, 0, 0, 0, 0, 4, 6, 0, 4], &()),
        Err(UnpackError::Packable(UnpackOrderedMapError::MapError(
            UnpackMapError::DuplicateKey(4)
        )))
    ));
    assert!(matches!(
        BTreeMap::<u8, u16>::unpack_verified(&[2, 0, 0, 0, 0, 0, 0, 0, 4, 6, 0, 3], &()),
        Err(UnpackError::Packable(UnpackOrderedMapError::Unordered))
    ));
    assert!(matches!(
        HashMap::<u8, u16>::unpack_verified(&[2, 0, 0, 0, 0, 0, 0, 0, 4, 6, 0, 4], &()),
        Err(UnpackError::Packable(UnpackMapError::DuplicateKey(4)))
    ));
    assert!(matches!(
        HashMap::<u8, u16>::unpack_verified(&[2, 0, 0, 0, 0, 0, 0, 0, 4, 6, 0, 3], &()),
        Err(UnpackError::Unpacker(_))
    ));
}

#[test]
fn hex_errors() {
    assert_eq!(prefix_hex::decode::<Vec<u8>>("0"), Err(prefix_hex::Error::InvalidStringLength));
    assert_eq!(prefix_hex::decode::<Vec<u8>>(""), Err(prefix_hex::Error::InvalidStringLength));
    assert_eq!(
        prefix_hex::decode::<Vec<u8>>("1x"),
        Err(prefix_hex::Error::InvalidPrefix { c0: '1', c1: 'x' })
    );
    assert_eq!(
        prefix_hex::decode::<Vec<u8>>("0x0g"),
        Err(prefix_hex::Error::InvalidHexCharacter { c: 'g', index: 1 })
    );
    assert_eq!(prefix_hex::decode::<Vec<u8>>("0xAbCd"), Ok(vec![0xab, 0xcd]));
    assert_eq!(prefix_hex::strip_prefix("0x12"), Ok("12"));
    assert_eq!(prefix_hex::encode_bytes(&[0, 255, 16]), "0x00ff10");
    assert_eq!(prefix_hex::encode(Vec::<u8>::new()), "0x");
}
