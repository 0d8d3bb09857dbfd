use packable::error::UnpackError;
use packable::option::UnpackOptionError;
use packable::packer::{CounterPacker, Packer};
use packable::unpacker::{CounterUnpacker, SliceUnpacker, Unpacker};
use packable::{Packable, PackableExt};

#[test]
fn option_counter() {
    let mut packer = CounterPacker::new(Vec::new());

    let value = Some(0x45u32);
    value.pack(&mut packer).unwrap();
    assert_eq!(value.packed_len(), packer.counter());
    assert_eq!(packer.counter(), packer.written_bytes().unwrap());

    let packer = packer.into_inner();
    let mut unpacker = CounterUnpacker::new(SliceUnpacker::new(packer.as_slice()));

    let unpacked_value = Option::<u32>::unpack::<_, true>(&mut unpacker, &()).unwrap();
    assert_eq!(unpacked_value.packed_len(), unpacker.counter());
    assert_eq!(unpacker.counter(), unpacker.read_bytes().unwrap());
    assert_eq!(value, unpacked_value);
}

#[test]
fn option_wire_format() {
    assert_eq!(None::<u16>.pack_to_vec(), vec![0]);
    assert_eq!(Some(0x0102u16).pack_to_vec(), vec![1, 2, 1]);
    assert_eq!(Option::<u16>::unpack_verified(&[0], &()).unwrap(), None);
    assert_eq!(Option::<u16>::unpack_verified(&[1, 2, 1], &()).unwrap(), Some(0x0102));
}

#[test]
fn option_unknown_tag() {
    let unpacked = Option::<u16>::unpack_verified(&[2, 0, 0], &());
    assert!(matches!(
        unpacked,
        Err(UnpackError::Packable(UnpackOptionError::UnknownTag(2)))
    ));
}

#[test]
fn option_truncated_value() {
    let unpacked = Option::<u16>::unpack_verified(&[1, 5], &());
    match unpacked {
        Err(UnpackError::Unpacker(eof)) => {
            assert_eq!(eof.required, 2);
            assert_eq!(eof.had, 1);
        }
        _ => panic!("expected an unexpected end of input"),
    }
}

#[test]
fn slice_unpacker_counts_remaining_bytes() {
    let bytes = [1u8, 2, 3, 4, 5];
    let mut unpacker = SliceUnpacker::new(&bytes);
    assert_eq!(unpacker.remaining_count(), Some(5));
    assert!(unpacker.ensure_bytes(5).is_ok());
    assert!(unpacker.ensure_bytes(6).is_err());
    let mut two = [0u8; 2];
    unpacker.unpack_bytes(&mut two).unwrap();
    assert_eq!(two, [1, 2]);
    assert_eq!(unpacker.remaining_count(), Some(3));
    let mut four = [0u8; 4];
    let eof = unpacker.unpack_bytes(&mut four).unwrap_err();
    assert_eq!(eof.required, 4);
    assert_eq!(eof.had, 3);
    assert_eq!(unpacker.read_bytes(), None);
}

#[test]
fn counter_unpacker_asks_the_source_it_wraps() {
    let bytes = [1u8, 2, 3, 4, 5];
    let mut unpacker = CounterUnpacker::new(SliceUnpacker::new(&bytes));
    assert_eq!(unpacker.remaining_count(), Some(5));
    assert!(unpacker.ensure_bytes(5).is_ok());
    let eof = unpacker.ensure_bytes(6).unwrap_err();
    assert_eq!(eof.required, 6);
    assert_eq!(eof.had, 5);
    let mut two = [0u8; 2];
    unpacker.unpack_bytes(&mut two).unwrap();
    assert_eq!(unpacker.remaining_count(), Some(3));
    assert!(unpacker.ensure_bytes(3).is_ok());
    assert!(unpacker.ensure_bytes(4).is_err());
    assert_eq!(unpacker.read_bytes(), Some(2));
    assert_eq!(unpacker.counter(), 2);
}
