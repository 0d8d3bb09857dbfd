use std::collections::BTreeSet;

use packable::error::UnpackError;
use packable::set::{UnpackOrderedSetError, UnpackSetError};
use packable::PackableExt;

#[test]
fn packable_btreeset() {
    let value = BTreeSet::from([None, Some(0u32)]);
    let bytes = value.pack_to_vec();
    assert_eq!(bytes.len(), value.packed_len());
    assert_eq!(
        bytes.len(),
        core::mem::size_of::<u64>()
            + (core::mem::size_of::<u8>() + core::mem::size_of::<u32>())
            + core::mem::size_of::<u8>()
    );
    let unpacked = BTreeSet::<Option<u32>>::unpack_verified(&bytes, &()).unwrap();
    assert_eq!(unpacked, value);
    let unpacked = BTreeSet::<Option<u32>>::unpack_unverified(&bytes, &()).unwrap();
    assert_eq!(unpacked, value);
}

#[test]
fn btreeset_invalid_duplicate() {
    let bytes = [1, 2, 3, 3, 4];
    let bytes = Vec::from_iter(bytes.len().to_le_bytes().into_iter().chain(bytes));

    let prefixed = BTreeSet::<u8>::unpack_verified(&bytes, &());

    println!("{prefixed:?}");

    assert!(matches!(
        prefixed,
        Err(UnpackError::Packable(UnpackOrderedSetError::SetError(
            UnpackSetError::DuplicateItem(3u8)
        ))),
    ));
}

#[test]
fn btreeset_invalid_unordered() {
    let bytes = [1, 2, 4, 3];
    let bytes = Vec::from_iter(bytes.len().to_le_bytes().into_iter().chain(bytes));

    let prefixed = BTreeSet::<u8>::unpack_verified(&bytes, &());

    assert!(matches!(
        prefixed,
        Err(UnpackError::Packable(UnpackOrderedSetError::Unordered)),
    ));
}
