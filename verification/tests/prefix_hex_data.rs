use packable::prefix_hex;
use packable::prefix_hex::{number_digits, number_error, Error};

#[test]
fn array_decode() {
    assert_eq!(prefix_hex::decode("0xffffff"), Ok([255, 255, 255]));
}

#[test]
fn array_decode_invalid_hex() {
    assert_eq!(
        prefix_hex::decode::<[u8; 3]>("0x00000y"),
        Err(Error::InvalidHexCharacter { c: 'y', index: 5 })
    );
}

#[test]
fn array_decode_invalid_length_too_short() {
    assert_eq!(
        prefix_hex::decode::<[u8; 3]>("0x52fd6"),
        Err(Error::InvalidStringLengthSlice { expected: 6, actual: 5 })
    );
}

#[test]
fn array_decode_invalid_length_too_long() {
    assert_eq!(
        prefix_hex::decode::<[u8; 3]>("0x52fd643"),
        Err(Error::InvalidStringLengthSlice { expected: 6, actual: 7 })
    );
}

#[test]
fn array_decode_no_prefix() {
    assert_eq!(
        prefix_hex::decode::<[u8; 3]>("004200"),
        Err(Error::InvalidPrefix { c0: '0', c1: '0' })
    );
}

#[test]
fn array_decode_wrong_prefix() {
    assert_eq!(
        prefix_hex::decode::<[u8; 3]>("0yffffff"),
        Err(Error::InvalidPrefix { c0: '0', c1: 'y' })
    );
}

#[test]
fn array_encode() {
    assert_eq!(
        prefix_hex::encode([0x01, 0x23, 0x45, 0x67, 0x89, 0xab, 0xcd, 0xef]),
        "0x0123456789abcdef"
    );
}

#[test]
fn array_reference_encode() {
    assert_eq!(
        prefix_hex::encode(&[0x01, 0x23, 0x45, 0x67, 0x89, 0xab, 0xcd, 0xef]),
        "0x0123456789abcdef"
    );
}

#[test]
fn boxed_slice_encode() {
    assert_eq!(
        prefix_hex::encode(vec![0x01, 0x23, 0x45, 0x67, 0x89, 0xab, 0xcd, 0xef].into_boxed_slice()),
        "0x0123456789abcdef"
    );
}

#[test]
fn boxed_slice_reference_encode() {
    assert_eq!(
        prefix_hex::encode(&vec![0x01, 0x23, 0x45, 0x67, 0x89, 0xab, 0xcd, 0xef].into_boxed_slice()),
        "0x0123456789abcdef"
    );
}

#[test]
fn vec_decode() {
    assert_eq!(prefix_hex::decode::<Vec<u8>>("0x000102").unwrap(), [0x0, 0x1, 0x2]);
}

#[test]
fn vec_decode_empty_string() {
    assert_eq!(prefix_hex::decode("0x"), Ok(vec![]));
}

#[test]
fn vec_decode_odd_length() {
    assert_eq!(prefix_hex::decode::<Vec<u8>>("0xf0f0f"), Err(Error::OddLength));
}

#[test]
fn vec_encode() {
    assert_eq!(
        prefix_hex::encode(vec![0x01, 0x23, 0x45, 0x67, 0x89, 0xab, 0xcd, 0xef]),
        "0x0123456789abcdef"
    );
}

#[test]
fn number_digits_and_errors() {
    assert_eq!(number_digits("0x2710"), Ok("2710"));
    assert_eq!(number_digits("0x0"), Ok("0"));
    assert_eq!(number_digits("0x"), Err(Error::InvalidStringLength));
    assert_eq!(number_digits("0"), Err(Error::InvalidStringLength));
    assert_eq!(number_digits("1x27"), Err(Error::InvalidPrefix { c0: '1', c1: 'x' }));
    assert_eq!(number_error("271y"), Error::InvalidHexCharacter { c: 'y', index: 3 });
    assert_eq!(number_error("g71y"), Error::InvalidHexCharacter { c: 'g', index: 0 });
    assert_eq!(number_error("aF09"), Error::InvalidStringLength);
    assert_eq!(number_error(""), Error::InvalidStringLength);
}
