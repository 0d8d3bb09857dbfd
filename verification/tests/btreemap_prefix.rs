use std::collections::BTreeMap;

use packable::bounded::{BoundedU32, BoundedU8, InvalidBoundedU32, TryIntoBoundedU32Error};
use packable::error::UnpackError;
use packable::map::{UnpackMapError, UnpackOrderedMapError};
use packable::prefix::BTreeMapPrefix;
use packable::{Packable, PackableExt};

fn generic_test<P>(value: &P) -> Vec<u8>
where
    P: Packable<UnpackVisitor = ()> + PartialEq + core::fmt::Debug,
    P::UnpackError: core::fmt::Debug,
{
    let bytes = value.pack_to_vec();
    assert_eq!(bytes.len(), value.packed_len());
    let unpacked = P::unpack_verified(&bytes, &()).unwrap();
    assert_eq!(&unpacked, value);
    let unpacked = P::unpack_unverified(&bytes, &()).unwrap();
    assert_eq!(&unpacked, value);
    bytes
}

#[test]
fn btreemap_prefix_from_btreemap_invalid_error() {
    let set = BTreeMap::from_iter((0..16).zip(4..20));
    let prefixed = BTreeMapPrefix::<u8, u8, BoundedU32<1, 8>>::try_from(set);

    assert!(matches!(prefixed, Err(TryIntoBoundedU32Error::Invalid(16))));
}

#[test]
fn btreemap_prefix_from_btreemap_truncated_error() {
    let set = BTreeMap::from_iter((0..257).zip(0..257));
    let prefixed = BTreeMapPrefix::<u16, u16, u8>::try_from(set);

    assert!(prefixed.is_err());
}

#[test]
fn packable_btreemap_prefix_u16() {
    assert_eq!(
        generic_test(
            &<BTreeMapPrefix<Option<u32>, u32, u16>>::try_from(BTreeMap::from([
                (Some(0u32), 0),
                (Some(1), 5),
                (None, 10)
            ]))
            .unwrap()
        )
        .len(),
        core::mem::size_of::<u16>()
            + (core::mem::size_of::<u8>() + core::mem::size_of::<u32>())
            + 2 * (core::mem::size_of::<u8>() + 2 * core::mem::size_of::<u32>())
    );
}

#[test]
fn packable_btreemap_prefix_bounded_u32() {
    let bytes = generic_test(
        &<BTreeMapPrefix<Option<u32>, u32, BoundedU32<1, 64>>>::try_from(BTreeMap::from([
            (Some(0u32), 0),
            (Some(1), 5),
            (None, 10),
        ]))
        .unwrap(),
    );
    assert_eq!(
        bytes,
        vec![3, 0, 0, 0, 0, 10, 0, 0, 0, 1, 0, 0, 0, 0, 0, 0, 0, 0, 1, 1, 0, 0, 0, 5, 0, 0, 0]
    );
}

#[test]
fn packable_btreemap_prefix_invalid_length_bounded_u32() {
    const LEN: usize = 65;
    let bytes = Vec::from_iter(
        (LEN as u32)
            .to_le_bytes()
            .into_iter()
            .chain(core::iter::repeat(0).take(2 * (LEN + 1))),
    );

    let prefixed = BTreeMapPrefix::<u8, u8, BoundedU32<1, 64>>::unpack_verified(&bytes, &());

    assert!(matches!(
        prefixed,
        Err(UnpackError::Packable(UnpackOrderedMapError::MapError(
            UnpackMapError::Prefix(InvalidBoundedU32(65))
        ))),
    ));
}

#[test]
fn packable_btreemap_prefix_duplicate_u8() {
    const LEN: usize = 64;
    let mut bytes = (0u8..LEN as u8)
        .zip((0u8..LEN as u8).rev())
        .flat_map(|(k, v)| [k, v])
        .collect::<Vec<_>>();
    bytes[LEN - 2] = bytes[LEN - 4];
    let dup = bytes[LEN - 2];

    let bytes = Vec::from_iter((LEN as u8).to_le_bytes().into_iter().chain(bytes));

    let prefixed = BTreeMapPrefix::<u8, u8, u8>::unpack_verified(&bytes, &());

    assert!(matches!(
        prefixed,
        Err(UnpackError::Packable(UnpackOrderedMapError::MapError(
            UnpackMapError::DuplicateKey(d)
        ))) if d == dup
    ));
}

#[test]
fn packable_btreemap_prefix_unordered_bounded_u8() {
    const LEN: usize = 64;
    let mut bytes = (0u8..LEN as u8)
        .zip((0u8..LEN as u8).rev())
        .flat_map(|(k, v)| [k, v])
        .collect::<Vec<_>>();
    let (s1, s2) = bytes.split_at_mut(2);
    s1.swap_with_slice(&mut s2[..2]);

    let bytes = Vec::from_iter((LEN as u8).to_le_bytes().into_iter().chain(bytes));

    let prefixed = BTreeMapPrefix::<u8, u8, BoundedU8<1, 64>>::unpack_verified(&bytes, &());

    assert!(matches!(
        prefixed,
        Err(UnpackError::Packable(UnpackOrderedMapError::Unordered)),
    ));
}
