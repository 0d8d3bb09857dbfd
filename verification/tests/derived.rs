use packable::capped::{Capped, OverCap};
use packable::error::{UnknownTagError, UnpackError};
use packable::maybe::Maybe;
use packable::option::UnpackOptionError;
use packable::PackableExt;

#[test]
fn enum_tag_dispatch() {
    assert_eq!(Maybe::unpack_verified(&[0], &()).unwrap(), Maybe::Nothing);
    assert_eq!(Maybe::unpack_verified(&[1, 7, 0, 0, 0], &()).unwrap(), Maybe::Just(7));
    assert!(matches!(
        Maybe::unpack_verified(&[2, 0, 0, 0, 0], &()),
        Err(UnpackError::Packable(UnknownTagError(2)))
    ));
    assert_eq!(Maybe::Nothing.pack_to_vec(), vec![0]);
    assert_eq!(Maybe::Just(7).pack_to_vec(), vec![1, 7, 0, 0, 0]);
    assert_eq!(Maybe::Just(-1).pack_to_vec(), vec![1, 255, 255, 255, 255]);
}

#[test]
fn enum_truncated_variant() {
    match Maybe::unpack_verified(&[1, 7, 0], &()) {
        Err(UnpackError::Unpacker(eof)) => {
            assert_eq!(eof.required, 4);
            assert_eq!(eof.had, 2);
        }
        _ => panic!("expected an unexpected end of input"),
    }
}

#[test]
fn struct_check_within_cap() {
    assert_eq!(Capped(5).pack_to_vec(), vec![5]);
    assert_eq!(Capped::unpack_verified(&[5], &10).unwrap(), Capped(5));
    assert_eq!(Capped::unpack_verified(&[10, 99], &10).unwrap(), Capped(10));
}

#[test]
fn struct_check_over_cap() {
    assert_eq!(Capped(42).pack_to_vec(), vec![42]);
    match Capped::unpack_verified(&[42], &10) {
        Err(UnpackError::Packable(err)) => assert_eq!(err, OverCap { value: 42, cap: 10 }),
        _ => panic!("expected a byte over the cap"),
    }
    assert_eq!(Capped::unpack_unverified(&[42], &10).unwrap(), Capped(42));
}

#[test]
fn struct_check_truncated() {
    match Capped::unpack_verified(&[], &10) {
        Err(UnpackError::Unpacker(eof)) => {
            assert_eq!(eof.required, 1);
            assert_eq!(eof.had, 0);
        }
        _ => panic!("expected an unexpected end of input"),
    }
}

#[test]
fn struct_check_inside_option() {
    assert_eq!(Option::<Capped>::unpack_verified(&[1, 3], &3).unwrap(), Some(Capped(3)));
    assert_eq!(Option::<Capped>::unpack_verified(&[0], &3).unwrap(), None);
    match Option::<Capped>::unpack_verified(&[1, 4], &3) {
        Err(UnpackError::Packable(UnpackOptionError::Inner(err))) => {
            assert_eq!(err, OverCap { value: 4, cap: 3 })
        }
        _ => panic!("expected a byte over the cap"),
    }
}

#[test]
fn struct_check_inside_tuple() {
    assert_eq!((Capped(1), 513u16, Capped(2)).pack_to_vec(), vec![1, 1, 2, 2]);
    assert_eq!(
        <(Capped, u16, Capped)>::unpack_verified(&[1, 1, 2, 2], &2).unwrap(),
        (Capped(1), 513, Capped(2))
    );
    match <(Capped, u16, Capped)>::unpack_verified(&[1, 1, 2, 3], &2) {
        Err(UnpackError::Packable(err)) => assert_eq!(err, OverCap { value: 3, cap: 2 }),
        _ => panic!("expected a byte over the cap"),
    }
    match <(Capped, u16, Capped)>::unpack_verified(&[9, 1, 2, 3], &2) {
        Err(UnpackError::Packable(err)) => assert_eq!(err, OverCap { value: 9, cap: 2 }),
        _ => panic!("expected a byte over the cap"),
    }
    assert_eq!(
        <(Capped, u16, Capped)>::unpack_unverified(&[9, 1, 2, 3], &2).unwrap(),
        (Capped(9), 513, Capped(3))
    );
}
