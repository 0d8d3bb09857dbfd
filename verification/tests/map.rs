use std::collections::HashMap;

use packable::bounded::{BoundedU8, InvalidBoundedU8, TryIntoBoundedU8Error};
use packable::error::UnpackError;
use packable::map::UnpackMapError;
use packable::prefix::HashMapPrefix;
use packable::{Packable, PackableExt};

fn generic_test<P>(value: &P) -> Vec<u8>
where
    P: Packable<UnpackVisitor = ()> + PartialEq + core::fmt::Debug,
    P::UnpackError: core::fmt::Debug,
{
    let bytes = value.pack_to_vec();
    assert_eq!(bytes.len(), value.packed_len());
    let unpacked = P::unpack_verified(&bytes, &()).unwrap();
    assert_eq!(&unpacked, value);
    let unpacked = P::unpack_unverified(&bytes, &()).unwrap();
    assert_eq!(&unpacked, value);
    bytes
}

#[test]
fn map_packable_btreemap() {
    assert_eq!(
        generic_test(&HashMap::from([(7u32, None), (0u32, Some(1u32)), (1u32, Some(2))])).len(),
        core::mem::size_of::<u64>()
            + (core::mem::size_of::<u32>() + core::mem::size_of::<u8>())
            + 2 * (core::mem::size_of::<u8>() + 2 * core::mem::size_of::<u32>())
    );
}

#[test]
fn map_invalid_duplicate() {
    let bytes = [(1, 5), (2, 4), (3, 3), (3, 2), (4, 1)];
    let bytes = Vec::from_iter(
        bytes
            .len()
            .to_le_bytes()
            .into_iter()
            .chain(bytes.into_iter().flat_map(|(k, v)| [k, v])),
    );

    let prefixed = HashMap::<u8, u8>::unpack_verified(&bytes, &());

    assert!(matches!(
        prefixed,
        Err(UnpackError::Packable(UnpackMapError::DuplicateKey(3u8))),
    ));
}

#[test]
fn hash_map_takes_keys_in_any_order() {
    let bytes = vec![3, 0, 0, 0, 0, 0, 0, 0, 9, 1, 2, 2, 5, 3];
    let unpacked = HashMap::<u8, u8>::unpack_verified(&bytes, &()).unwrap();
    assert_eq!(unpacked, HashMap::from([(9, 1), (2, 2), (5, 3)]));
}

#[test]
fn hash_map_prefix_round_trip() {
    let map = HashMap::from([(1u16, 10u8), (2, 20), (3, 30)]);
    let prefixed = HashMapPrefix::<u16, u8, BoundedU8<1, 8>>::try_from(map).unwrap();
    assert_eq!(generic_test(&prefixed).len(), 1 + 3 * 3);
}

#[test]
fn hash_map_prefix_bounds() {
    let map: HashMap<u16, u8> = HashMap::from_iter((0..9).map(|k| (k, 0)));
    let prefixed = HashMapPrefix::<u16, u8, BoundedU8<1, 8>>::try_from(map);
    assert!(matches!(prefixed, Err(TryIntoBoundedU8Error::Invalid(9))));

    let unpacked = HashMapPrefix::<u16, u8, BoundedU8<1, 8>>::unpack_verified(&[0], &());
    assert!(matches!(
        unpacked,
        Err(UnpackError::Packable(UnpackMapError::Prefix(InvalidBoundedU8(0))))
    ));

    let unpacked =
        HashMapPrefix::<u8, u8, BoundedU8<1, 8>>::unpack_verified(&[2, 7, 1, 7, 2], &());
    assert!(matches!(
        unpacked,
        Err(UnpackError::Packable(UnpackMapError::DuplicateKey(7)))
    ));
}
