use packable::bounded::{
    BoundedU16, BoundedU32, BoundedU64, BoundedU8, InvalidBoundedU32, InvalidBoundedU8,
    TryIntoBoundedU16Error, TryIntoBoundedU32Error, TryIntoBoundedU8Error,
};
use packable::error::UnpackError;
use packable::packer::{CounterPacker, LenPacker, Packer};
use packable::prefix::{BoxedSlicePrefix, UnpackPrefixError, VecPrefix};
use packable::{Packable, PackableExt};

fn generic_test<P>(value: &P) -> Vec<u8>
where
    P: Packable<UnpackVisitor = ()> + PartialEq + core::fmt::Debug,
    P::UnpackError: core::fmt::Debug,
{
    let bytes = value.pack_to_vec();
    assert_eq!(bytes.len(), value.packed_len());
    let unpacked = P::unpack_verified(&bytes, &()).unwrap();
    assert_eq!(&unpacked, value);
    let unpacked = P::unpack_unverified(&bytes, &()).unwrap();
    assert_eq!(&unpacked, value);
    bytes
}

#[test]
fn bounded_integers_keep_their_range() {
    assert_eq!(BoundedU8::<1, 8>::new(1).unwrap().get(), 1);
    assert_eq!(BoundedU8::<1, 8>::new(8).unwrap().get(), 8);
    assert_eq!(BoundedU8::<1, 8>::new(0).unwrap_err(), InvalidBoundedU8(0));
    assert_eq!(BoundedU8::<1, 8>::new(9).unwrap_err(), InvalidBoundedU8(9));
    assert_eq!(BoundedU32::<1, 8>::try_from(5u32).unwrap().get(), 5);
    assert_eq!(BoundedU32::<1, 8>::try_from(16u32).unwrap_err(), InvalidBoundedU32(16));
    assert_eq!(BoundedU32::<1, 8>::try_from(8usize).unwrap().get(), 8);
    assert_eq!(
        BoundedU32::<1, 8>::try_from(16usize).unwrap_err(),
        TryIntoBoundedU32Error::Invalid(16)
    );
    assert_eq!(
        BoundedU8::<1, 8>::try_from(256usize).unwrap_err(),
        TryIntoBoundedU8Error::Truncated(256)
    );
    assert_eq!(
        BoundedU16::<1, 8>::try_from(70_000usize).unwrap_err(),
        TryIntoBoundedU16Error::Truncated(70_000)
    );
    assert_eq!(BoundedU64::<0, { u64::MAX }>::try_from(7usize).unwrap().get(), 7);
}

#[test]
fn bounded_integers_pack_as_their_width() {
    assert_eq!(generic_test(&BoundedU8::<1, 8>::new(8).unwrap()), vec![8]);
    assert_eq!(generic_test(&BoundedU16::<1, 800>::new(513).unwrap()), vec![1, 2]);
    assert_eq!(generic_test(&BoundedU32::<1, 8>::new(1).unwrap()), vec![1, 0, 0, 0]);
    assert_eq!(generic_test(&BoundedU64::<1, 8>::new(3).unwrap()), vec![3, 0, 0, 0, 0, 0, 0, 0]);
}

#[test]
fn bounded_integers_unpack_within_their_range_only() {
    assert_eq!(BoundedU8::<1, 8>::unpack_verified(&[1], &()).unwrap().get(), 1);
    assert_eq!(BoundedU8::<1, 8>::unpack_verified(&[8], &()).unwrap().get(), 8);
    assert!(matches!(
        BoundedU8::<1, 8>::unpack_verified(&[0], &()),
        Err(UnpackError::Packable(InvalidBoundedU8(0)))
    ));
    assert!(matches!(
        BoundedU8::<1, 8>::unpack_unverified(&[9], &()),
        Err(UnpackError::Packable(InvalidBoundedU8(9)))
    ));
    assert!(matches!(
        BoundedU32::<1, 8>::unpack_verified(&[0, 1, 0, 0], &()),
        Err(UnpackError::Packable(InvalidBoundedU32(256)))
    ));
    assert!(matches!(
        BoundedU32::<1, 8>::unpack_verified(&[1, 0, 0], &()),
        Err(UnpackError::Unpacker(_))
    ));
}

#[test]
fn vec_prefix_round_trip_and_bounds() {
    let prefixed = VecPrefix::<Option<u32>, u16>::try_from(vec![Some(0u32), None]).unwrap();
    assert_eq!(generic_test(&prefixed), vec![2, 0, 1, 0, 0, 0, 0, 0]);
    assert_eq!(prefixed.len(), 2);
    assert_eq!(prefixed.into_vec(), vec![Some(0u32), None]);

    let prefixed = VecPrefix::<u8, BoundedU32<1, 8>>::try_from(vec![7; 9]);
    assert!(matches!(prefixed, Err(TryIntoBoundedU32Error::Invalid(9))));
    let prefixed = VecPrefix::<u8, BoundedU32<1, 8>>::try_from(Vec::new());
    assert!(matches!(prefixed, Err(TryIntoBoundedU32Error::Invalid(0))));
    assert!(VecPrefix::<u8, u8>::try_from(vec![0; 256]).is_err());

    assert!(matches!(
        VecPrefix::<u8, BoundedU32<1, 8>>::unpack_verified(&[9, 0, 0, 0, 1, 2, 3, 4, 5, 6, 7, 8, 9], &()),
        Err(UnpackError::Packable(UnpackPrefixError::Prefix(InvalidBoundedU32(9))))
    ));
    assert!(matches!(
        VecPrefix::<Option<u8>, u8>::unpack_verified(&[1, 2, 0], &()),
        Err(UnpackError::Packable(UnpackPrefixError::Item(_)))
    ));
    assert!(matches!(
        VecPrefix::<u16, u8>::unpack_verified(&[2, 1, 0, 2], &()),
        Err(UnpackError::Unpacker(_))
    ));
}

#[test]
fn boxed_slice_prefix_round_trip_and_bounds() {
    let prefixed =
        BoxedSlicePrefix::<u16, BoundedU8<1, 4>>::try_from(vec![1u16, 2, 3].into_boxed_slice())
            .unwrap();
    assert_eq!(generic_test(&prefixed), vec![3, 1, 0, 2, 0, 3, 0]);
    assert_eq!(prefixed.len(), 3);
    let prefixed =
        BoxedSlicePrefix::<u16, BoundedU8<1, 4>>::try_from(vec![0u16; 5].into_boxed_slice());
    assert!(matches!(prefixed, Err(TryIntoBoundedU8Error::Invalid(5))));
}

#[test]
fn counting_sinks() {
    let mut packer = LenPacker::new();
    (1u8, 2u16, 3u32).pack(&mut packer).unwrap();
    assert_eq!(packer.len(), 7);
    assert_eq!(packer.written_bytes(), Some(7));

    let mut packer = CounterPacker::new(vec![9u8]);
    assert_eq!(packer.counter(), 0);
    0x0102u16.pack(&mut packer).unwrap();
    assert_eq!(packer.counter(), 2);
    assert_eq!(packer.into_inner(), vec![9, 2, 1]);

    let mut sink = Vec::new();
    sink.pack_bytes(&[1, 2, 3]).unwrap();
    assert_eq!(sink.written_bytes(), Some(3));
}

#[test]
fn slice_sink_fails_when_it_is_full() {
    use_slice_sink();
}

fn use_slice_sink() {
    let mut buffer = [0u8; 5];
    {
        let mut packer = packable::packer::SlicePacker::new(&mut buffer);
        0x0102u16.pack(&mut packer).unwrap();
        Some(7u8).pack(&mut packer).unwrap();
        assert_eq!(packer.written_bytes(), Some(4));
        let eof = 0x0304u16.pack(&mut packer).unwrap_err();
        assert_eq!(eof.required, 2);
        assert_eq!(eof.had, 1);
        9u8.pack(&mut packer).unwrap();
        let eof = 1u8.pack(&mut packer).unwrap_err();
        assert_eq!(eof.required, 1);
        assert_eq!(eof.had, 0);
    }
    assert_eq!(buffer, [2, 1, 1, 7, 9]);
}

#[test]
fn ordered_map_with_pairs_as_keys() {
    let map = std::collections::BTreeMap::from([((2u8, 1u8), 5u16), ((1, 9), 6), ((1, 2), 7)]);
    assert_eq!(
        generic_test(&map),
        vec![3, 0, 0, 0, 0, 0, 0, 0, 1, 2, 7, 0, 1, 9, 6, 0, 2, 1, 5, 0]
    );
}
