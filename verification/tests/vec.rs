use packable::{Packable, PackableExt};

fn generic_test<P>(value: &P) -> Vec<u8>
where
    P: Packable<UnpackVisitor = ()> + PartialEq + core::fmt::Debug,
    P::UnpackError: core::fmt::Debug,
{
    let bytes = value.pack_to_vec();
    assert_eq!(bytes.len(), value.packed_len());
    let unpacked = P::unpack_verified(&bytes, &()).unwrap();
    assert_eq!(&unpacked, value);
    let unpacked = P::unpack_unverified(&bytes, &()).unwrap();
    assert_eq!(&unpacked, value);
    bytes
}

#[test]
fn packable_vec() {
    assert_eq!(
        generic_test(&vec![Some(0u32), None]).len(),
        core::mem::size_of::<u64>()
            + (core::mem::size_of::<u8>() + core::mem::size_of::<u32>())
            + core::mem::size_of::<u8>()
    );
}

#[test]
fn vec_packable_boxed_slice() {
    assert_eq!(
        generic_test(&vec![Some(0u32), None].into_boxed_slice()).len(),
        core::mem::size_of::<u64>()
            + (core::mem::size_of::<u8>() + core::mem::size_of::<u32>())
            + core::mem::size_of::<u8>()
    );
}

#[test]
fn vec_packable_string() {
    assert_eq!(
        generic_test(&"yellow submarine".to_owned()).len(),
        core::mem::size_of::<u64>() + 16 * core::mem::size_of::<u8>()
    );
}

#[test]
fn boxed_slice_packable_boxed_slice() {
    assert_eq!(
        generic_test(&vec![Some(0u32), None].into_boxed_slice()).len(),
        core::mem::size_of::<u64>()
            + (core::mem::size_of::<u8>() + core::mem::size_of::<u32>())
            + core::mem::size_of::<u8>()
    );
}

#[test]
fn string_packable_string() {
    assert_eq!(
        generic_test(&"yellow submarine".to_owned()).len(),
        core::mem::size_of::<u64>() + 16 * core::mem::size_of::<u8>()
    );
}

#[test]
fn vec_wire_format() {
    let bytes = vec![Some(0x0102_0304u32), None].pack_to_vec();
    assert_eq!(bytes, vec![2, 0, 0, 0, 0, 0, 0, 0, 1, 4, 3, 2, 1, 0]);
}

#[test]
fn string_rejects_invalid_utf8() {
    let bytes = vec![2, 0, 0, 0, 0, 0, 0, 0, 0xff, 0xfe];
    let unpacked = String::unpack_verified(&bytes, &());
    assert!(matches!(
        unpacked,
        Err(packable::error::UnpackError::Packable(packable::prefix::UnpackPrefixError::Item(_)))
    ));
}

#[test]
fn array_round_trip() {
    assert_eq!(generic_test(&[1u16, 2, 3]), vec![1, 0, 2, 0, 3, 0]);
    assert_eq!(generic_test(&[7u8; 4]), vec![7, 7, 7, 7]);
    assert_eq!(generic_test(&Box::new(0x0102u16)), vec![2, 1]);
}
