use packable::{Packable, PackableExt};

fn generic_test<P>(value: &P) -> Vec<u8>
where
    P: Packable<UnpackVisitor = ()> + PartialEq + core::fmt::Debug,
    P::UnpackError: core::fmt::Debug,
{
    let bytes = value.pack_to_vec();
    assert_eq!(bytes.len(), value.packed_len());
    let unpacked = P::unpack_verified(&bytes, &()).unwrap();
    assert_eq!(&unpacked, value);
    let unpacked = P::unpack_unverified(&bytes, &()).unwrap();
    assert_eq!(&unpacked, value);
    bytes
}

#[test]
fn packable_i8() {
    assert_eq!(generic_test(&0x6Fi8), 0x6Fi8.to_le_bytes());
    assert_eq!(generic_test(&-1i8), (-1i8).to_le_bytes());
    assert_eq!(generic_test(&i8::MIN), i8::MIN.to_le_bytes());
    assert_eq!(generic_test(&i8::MAX), i8::MAX.to_le_bytes());
}

#[test]
fn packable_u8() {
    assert_eq!(generic_test(&0x6Fu8), vec![0x6F]);
    assert_eq!(generic_test(&u8::MAX), vec![0xFF]);
}

#[test]
fn packable_i16() {
    assert_eq!(generic_test(&0x6F7Bi16), 0x6F7Bi16.to_le_bytes());
    assert_eq!(generic_test(&-2i16), (-2i16).to_le_bytes());
    assert_eq!(generic_test(&i16::MIN), i16::MIN.to_le_bytes());
}

#[test]
fn packable_u16() {
    assert_eq!(generic_test(&0x6F7Bu16), vec![0x7B, 0x6F]);
}

#[test]
fn packable_i32() {
    assert_eq!(generic_test(&0x6F7BD423i32), 0x6F7BD423i32.to_le_bytes());
    assert_eq!(generic_test(&-0x6F7BD423i32), (-0x6F7BD423i32).to_le_bytes());
    assert_eq!(generic_test(&i32::MIN), i32::MIN.to_le_bytes());
}

#[test]
fn packable_u32() {
    assert_eq!(generic_test(&0x6F7BD423u32), vec![0x23, 0xD4, 0x7B, 0x6F]);
}

#[test]
fn packable_i64() {
    assert_eq!(generic_test(&0x6F7BD423100423DBi64), 0x6F7BD423100423DBi64.to_le_bytes());
    assert_eq!(generic_test(&-0x6F7BD423100423DBi64), (-0x6F7BD423100423DBi64).to_le_bytes());
    assert_eq!(generic_test(&i64::MIN), i64::MIN.to_le_bytes());
    assert_eq!(generic_test(&i64::MAX), i64::MAX.to_le_bytes());
}

#[test]
fn packable_u64() {
    assert_eq!(
        generic_test(&0x6F7BD423100423DBu64),
        vec![0xDB, 0x23, 0x04, 0x10, 0x23, 0xD4, 0x7B, 0x6F]
    );
    assert_eq!(generic_test(&u64::MAX), vec![0xFF; 8]);
}

#[test]
fn packable_isize() {
    assert_eq!(generic_test(&0x6F7BD423isize), 0x6F7BD423i64.to_le_bytes());
    assert_eq!(generic_test(&-5isize), (-5i64).to_le_bytes());
}

#[test]
fn packable_usize() {
    assert_eq!(generic_test(&0x6F7BD423usize), 0x6F7BD423u64.to_le_bytes());
}

#[test]
fn packable_i128() {
    let value = 0x6F7BD423100423DBFF127B91CA0AB123i128;
    assert_eq!(generic_test(&value), value.to_le_bytes());
    assert_eq!(generic_test(&-value), (-value).to_le_bytes());
    assert_eq!(generic_test(&i128::MIN), i128::MIN.to_le_bytes());
}

#[test]
fn packable_u128() {
    let value = 0x6F7BD423100423DBFF127B91CA0AB123u128;
    assert_eq!(generic_test(&value), value.to_le_bytes());
    assert_eq!(generic_test(&u128::MAX), vec![0xFF; 16]);
}

#[test]
fn packable_f32_as_bits() {
    let value = core::f32::consts::PI;
    assert_eq!(generic_test(&value.to_bits()), value.to_le_bytes());
}

#[test]
fn packable_f64_as_bits() {
    let value = core::f64::consts::PI;
    assert_eq!(generic_test(&value.to_bits()), value.to_le_bytes());
}

#[test]
fn bool_packs_as_one_or_zero() {
    assert_eq!(generic_test(&true), vec![1]);
    assert_eq!(generic_test(&false), vec![0]);
}

#[test]
fn bool_unpacks_any_nonzero_byte_as_true() {
    assert_eq!(bool::unpack_verified(&[0], &()).unwrap(), false);
    for byte in 1..=255u8 {
        assert_eq!(bool::unpack_verified(&[byte], &()).unwrap(), true);
        assert_eq!(bool::unpack_unverified(&[byte], &()).unwrap(), true);
    }
}

#[test]
fn truncated_integers_report_the_missing_bytes() {
    let unpacked = u32::unpack_verified(&[1, 2, 3], &());
    match unpacked {
        Err(packable::error::UnpackError::Unpacker(eof)) => {
            assert_eq!(eof.required, 4);
            assert_eq!(eof.had, 3);
        }
        _ => panic!("expected an unexpected end of input"),
    }
    assert!(u8::unpack_verified(&[], &()).is_err());
    assert!(i128::unpack_verified(&[0; 15], &()).is_err());
    assert!(bool::unpack_verified(&[], &()).is_err());
}
