use std::collections::BTreeSet;

use packable::bounded::{BoundedU16, BoundedU32, InvalidBoundedU16, TryIntoBoundedU32Error};
use packable::error::UnpackError;
use packable::set::{UnpackOrderedSetError, UnpackSetError};
use packable::prefix::BTreeSetPrefix;
use packable::{Packable, PackableExt};

fn generic_test<P>(value: &P) -> Vec<u8>
where
    P: Packable<UnpackVisitor = ()> + PartialEq + core::fmt::Debug,
    P::UnpackError: core::fmt::Debug,
{
    let bytes = value.pack_to_vec();
    assert_eq!(bytes.len(), value.packed_len());
    let unpacked = P::unpack_verified(&bytes, &()).unwrap();
    assert_eq!(&unpacked, value);
    let unpacked = P::unpack_unverified(&bytes, &()).unwrap();
    assert_eq!(&unpacked, value);
    bytes
}

#[test]
fn btreeset_prefix_from_btreeset_invalid_error() {
    let set = BTreeSet::from_iter(0..16);
    let prefixed = BTreeSetPrefix::<u8, BoundedU32<1, 8>>::try_from(set);

    assert!(matches!(prefixed, Err(TryIntoBoundedU32Error::Invalid(16))));
}

#[test]
fn btreeset_prefix_from_btreeset_truncated_error() {
    let set = BTreeSet::from_iter(0..257);
    let prefixed = BTreeSetPrefix::<u16, u8>::try_from(set);

    assert!(prefixed.is_err());
}

#[test]
fn packable_btreeset_prefix_u32() {
    assert_eq!(
        generic_test(
            &<BTreeSetPrefix<Option<u32>, u32>>::try_from(BTreeSet::from([Some(0u32), None]))
                .unwrap()
        )
        .len(),
        core::mem::size_of::<u32>()
            + (core::mem::size_of::<u8>() + core::mem::size_of::<u32>())
            + core::mem::size_of::<u8>()
    );
}

#[test]
fn packable_btreeset_prefix_invalid_length_bounded_u16() {
    const LEN: usize = 65;
    let bytes = Vec::from_iter(
        (LEN as u16)
            .to_le_bytes()
            .into_iter()
            .chain(core::iter::repeat(0).take(LEN + 1)),
    );

    let prefixed = BTreeSetPrefix::<u8, BoundedU16<1, 64>>::unpack_verified(&bytes, &());

    assert!(matches!(
        prefixed,
        Err(UnpackError::Packable(UnpackOrderedSetError::SetError(
            UnpackSetError::Prefix(InvalidBoundedU16(65))
        ))),
    ));
}

#[test]
fn packable_btreeset_prefix_duplicate_u64() {
    const LEN: usize = 64;
    let mut bytes = (0u8..LEN as u8).collect::<Vec<_>>();
    bytes[LEN - 1] = bytes[LEN - 2];
    let dup = bytes[LEN - 1];

    let bytes = Vec::from_iter((LEN as u64).to_le_bytes().into_iter().chain(bytes));

    let prefixed = BTreeSetPrefix::<u8, u64>::unpack_verified(&bytes, &());

    assert!(matches!(
        prefixed,
        Err(UnpackError::Packable(UnpackOrderedSetError::SetError(
            UnpackSetError::DuplicateItem(d)
        ))) if d == dup
    ));
}

#[test]
fn packable_btreeset_prefix_unordered_u8() {
    const LEN: usize = 64;
    let mut bytes = (0u8..LEN as u8).collect::<Vec<_>>();
    bytes.swap(0, 1);

    let bytes = Vec::from_iter((LEN as u8).to_le_bytes().into_iter().chain(bytes));

    let prefixed = BTreeSetPrefix::<u8, u8>::unpack_verified(&bytes, &());

    assert!(matches!(
        prefixed,
        Err(UnpackError::Packable(UnpackOrderedSetError::Unordered)),
    ));
}
