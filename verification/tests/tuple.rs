use packable::{Packable, PackableExt};

fn generic_test<P>(value: &P) -> Vec<u8>
where
    P: Packable<UnpackVisitor = ()> + PartialEq + core::fmt::Debug,
    P::UnpackError: core::fmt::Debug,
{
    let bytes = value.pack_to_vec();
    assert_eq!(bytes.len(), value.packed_len());
    let unpacked = P::unpack_verified(&bytes, &()).unwrap();
    assert_eq!(&unpacked, value);
    let unpacked = P::unpack_unverified(&bytes, &()).unwrap();
    assert_eq!(&unpacked, value);
    bytes
}

#[test]
fn packable_tuple() {
    let a = 8u8;
    let b = 16u16;
    let c = 32u32;
    let d = 64u64;
    let e = 32.0f32.to_bits();
    let f = 64.0f64.to_bits();
    let g = -8i8;
    let h = -16i16;
    let i = -32i32;
    let j = -64i64;
    let k = (-32.0f32).to_bits();
    let l = (-64.0f64).to_bits();
    assert_eq!(generic_test(&(a, b, c, d, e, f, g, h, i, j, k, l)).len(), 1 + 2 + 4 + 8 + 4 + 8 + 1 + 2 + 4 + 8 + 4 + 8);
    assert_eq!(generic_test(&(b, c, d, e, f, g, h, i, j, k, l)).len(), 2 + 4 + 8 + 4 + 8 + 1 + 2 + 4 + 8 + 4 + 8);
    assert_eq!(generic_test(&(c, d, e, f, g, h, i, j, k, l)).len(), 4 + 8 + 4 + 8 + 1 + 2 + 4 + 8 + 4 + 8);
    assert_eq!(generic_test(&(d, e, f, g, h, i, j, k, l)).len(), 8 + 4 + 8 + 1 + 2 + 4 + 8 + 4 + 8);
    assert_eq!(generic_test(&(e, f, g, h, i, j, k, l)).len(), 4 + 8 + 1 + 2 + 4 + 8 + 4 + 8);
    assert_eq!(generic_test(&(f, g, h, i, j, k, l)).len(), 8 + 1 + 2 + 4 + 8 + 4 + 8);
    assert_eq!(generic_test(&(g, h, i, j, k, l)).len(), 1 + 2 + 4 + 8 + 4 + 8);
    assert_eq!(generic_test(&(h, i, j, k, l)).len(), 2 + 4 + 8 + 4 + 8);
    assert_eq!(generic_test(&(i, j, k, l)).len(), 4 + 8 + 4 + 8);
    assert_eq!(generic_test(&(j, k, l)).len(), 8 + 4 + 8);
    assert_eq!(generic_test(&(k, l)).len(), 4 + 8);
    assert_eq!(generic_test(&(l,)).len(), 8);
}

#[test]
fn tuple_packs_components_in_order() {
    let bytes = (1u8, 0x0203u16, true).pack_to_vec();
    assert_eq!(bytes, vec![1, 3, 2, 1]);
}

#[test]
fn tuple_turns_later_errors_into_the_first() {
    let value = (Some(1u8), 2u16, [3u8, 4]);
    let bytes = generic_test(&value);
    assert_eq!(bytes, vec![1, 1, 2, 0, 3, 4]);
    let unpacked = <(Option<u8>, u16)>::unpack_verified(&[7, 0, 0], &());
    assert!(matches!(
        unpacked,
        Err(packable::error::UnpackError::Packable(
            packable::option::UnpackOptionError::UnknownTag(7)
        ))
    ));
}
