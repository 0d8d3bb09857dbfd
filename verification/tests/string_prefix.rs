use packable::bounded::{BoundedU16, BoundedU32, InvalidBoundedU16, TryIntoBoundedU32Error};
use packable::error::UnpackError;
use packable::prefix::{StringPrefix, UnpackPrefixError};
use packable::PackableExt;

#[test]
fn packable_string_prefix_from_string_invalid_error() {
    // This measures 16 bytes.
    let string = String::from("yellow submarine");
    let prefixed = StringPrefix::<BoundedU32<1, 8>>::try_from(string);

    assert!(matches!(prefixed, Err(TryIntoBoundedU32Error::Invalid(16))));
}

#[test]
fn packable_string_prefix_from_string_truncated_error() {
    // This measures 257 bytes.
    let string = String::from(
        "In the town where I was born lived a man who sailed to sea and he told us of his life in the land of submarines. So we sailed on to the sun til we found a sea of green and we lived beneath the waves in our yellow submarine. We all live in a yellow submarine",
    );
    let prefixed = StringPrefix::<u8>::try_from(string);

    assert!(prefixed.is_err());
}

#[test]
fn packable_string_prefix_round_trip() {
    let prefixed = StringPrefix::<u16>::try_from(String::from("yellow submarine")).unwrap();
    let bytes = prefixed.pack_to_vec();
    assert_eq!(bytes.len(), prefixed.packed_len());
    assert_eq!(bytes.len(), core::mem::size_of::<u16>() + 16);
    assert_eq!(&bytes[..2], &[16, 0]);
    assert_eq!(&bytes[2..], b"yellow submarine");
    assert_eq!(StringPrefix::<u16>::unpack_verified(&bytes, &()).unwrap(), prefixed);

    let prefixed =
        StringPrefix::<BoundedU16<1, 64>>::try_from(String::from("yellow submarine")).unwrap();
    let bytes = prefixed.pack_to_vec();
    assert_eq!(StringPrefix::<BoundedU16<1, 64>>::unpack_verified(&bytes, &()).unwrap(), prefixed);
    assert_eq!(prefixed.as_str(), "yellow submarine");

    let mut long = vec![65, 0];
    long.extend(core::iter::repeat(b'a').take(66));
    assert!(matches!(
        StringPrefix::<BoundedU16<1, 64>>::unpack_verified(&long, &()),
        Err(UnpackError::Packable(UnpackPrefixError::Prefix(InvalidBoundedU16(65))))
    ));
    assert!(matches!(
        StringPrefix::<u16>::unpack_verified(&[2, 0, 0xff, 0xfe], &()),
        Err(UnpackError::Packable(UnpackPrefixError::Item(_)))
    ));
    assert!(matches!(
        StringPrefix::<u16>::unpack_verified(&[3, 0, b'a', b'b'], &()),
        Err(UnpackError::Unpacker(_))
    ));
}
