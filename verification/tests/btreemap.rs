use std::collections::BTreeMap;

use packable::error::UnpackError;
use packable::map::{UnpackMapError, UnpackOrderedMapError};
use packable::PackableExt;

#[test]
fn btreemap_invalid_duplicate() {
    let bytes = [(1, 5), (2, 4), (3, 3), (3, 2), (4, 1)];
    let bytes = Vec::from_iter(
        bytes
            .len()
            .to_le_bytes()
            .into_iter()
            .chain(bytes.into_iter().flat_map(|(k, v)| [k, v])),
    );

    let prefixed = BTreeMap::<u8, u8>::unpack_verified(&bytes, &());

    assert!(matches!(
        prefixed,
        Err(UnpackError::Packable(UnpackOrderedMapError::MapError(
            UnpackMapError::DuplicateKey(3u8)
        ))),
    ));
}

#[test]
fn btreemap_invalid_unordered() {
    let bytes = [(1, 4), (2, 3), (4, 1), (3, 2)];
    let bytes = Vec::from_iter(
        bytes
            .len()
            .to_le_bytes()
            .into_iter()
            .chain(bytes.into_iter().flat_map(|(k, v)| [k, v])),
    );

    let prefixed = BTreeMap::<u8, u8>::unpack_verified(&bytes, &());

    assert!(matches!(
        prefixed,
        Err(UnpackError::Packable(UnpackOrderedMapError::Unordered)),
    ));
}

#[test]
fn btreemap_packable_btreemap() {
    let value = BTreeMap::from([(None, 1u32), (Some(0u32), 1), (Some(1u32), 2)]);
    let bytes = value.pack_to_vec();
    assert_eq!(bytes.len(), value.packed_len());
    assert_eq!(
        bytes.len(),
        core::mem::size_of::<u64>()
            + (core::mem::size_of::<u8>() + core::mem::size_of::<u32>())
            + 2 * (core::mem::size_of::<u8>() + 2 * core::mem::size_of::<u32>())
    );
    let unpacked = BTreeMap::<Option<u32>, u32>::unpack_verified(&bytes, &()).unwrap();
    assert_eq!(unpacked, value);
    let unpacked = BTreeMap::<Option<u32>, u32>::unpack_unverified(&bytes, &()).unwrap();
    assert_eq!(unpacked, value);
}
