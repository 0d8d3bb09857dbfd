use std::collections::{BTreeMap, BTreeSet, HashMap};

use packable::bounded::BoundedU16;
use packable::error::UnpackError;
use packable::maybe::Maybe;
use packable::prefix::{BTreeMapPrefix, BTreeSetPrefix, StringPrefix, VecPrefix};
use packable::{Packable, PackableExt};

fn holds_the_laws<P>(value: &P)
where
    P: Packable<UnpackVisitor = ()> + PartialEq + core::fmt::Debug,
    P::UnpackError: core::fmt::Debug,
{
    let bytes = value.pack_to_vec();
    assert_eq!(bytes.len(), value.packed_len());
    assert_eq!(&P::unpack_verified(&bytes, &()).unwrap(), value);
    assert_eq!(&P::unpack_unverified(&bytes, &()).unwrap(), value);
    let mut longer = bytes.clone();
    longer.extend([0xAA, 0xBB, 0xCC]);
    assert_eq!(&P::unpack_verified(&longer, &()).unwrap(), value);
    for len in 0..bytes.len() {
        match P::unpack_verified(&bytes[..len], &()) {
            Err(UnpackError::Unpacker(eof)) => assert!(eof.required > eof.had),
            other => panic!("cut at {len} of {}: {other:?}", bytes.len()),
        }
    }
}

#[test]
fn round_trip_and_truncation_of_plain_values() {
    holds_the_laws(&0x12u8);
    holds_the_laws(&-0x1234i16);
    holds_the_laws(&0x1234_5678u32);
    holds_the_laws(&i64::MIN);
    holds_the_laws(&u128::MAX);
    holds_the_laws(&usize::MAX);
    holds_the_laws(&-1isize);
    holds_the_laws(&true);
    holds_the_laws(&Some(Some(7u16)));
    holds_the_laws(&None::<u64>);
    holds_the_laws(&Box::new(9u32));
    holds_the_laws(&Maybe::Just(-5));
    holds_the_laws(&Maybe::Nothing);
    holds_the_laws(&(Some(2u16), 1u8, [3u32, 4], false));
    holds_the_laws(&[Some(1u8), None, Some(3)]);
}

#[test]
fn round_trip_and_truncation_of_collections() {
    holds_the_laws(&vec![vec![1u16, 2], vec![], vec![3]]);
    holds_the_laws(&vec![Some(0u32), None].into_boxed_slice());
    holds_the_laws(&String::from("grüße, 世界"));
    holds_the_laws(&String::new());
    holds_the_laws(&BTreeSet::from([5u32, 1, 9]));
    holds_the_laws(&BTreeSet::<u8>::new());
    holds_the_laws(&BTreeMap::from([(3u8, vec![1u8]), (1, vec![]), (2, vec![7, 8])]));
    holds_the_laws(&HashMap::from([(3u16, Some(1u8)), (1, None), (2, Some(9))]));
}

#[test]
fn round_trip_and_truncation_of_prefixed_collections() {
    holds_the_laws(&VecPrefix::<Option<u8>, u16>::try_from(vec![Some(1), None]).unwrap());
    holds_the_laws(&VecPrefix::<u32, BoundedU16<0, 4>>::try_from(vec![]).unwrap());
    holds_the_laws(&StringPrefix::<u8>::try_from(String::from("süß")).unwrap());
    holds_the_laws(&BTreeSetPrefix::<i16, u32>::try_from(BTreeSet::from([-3, 7, 0])).unwrap());
    holds_the_laws(
        &BTreeMapPrefix::<u64, String, BoundedU16<1, 9>>::try_from(BTreeMap::from([
            (2, String::from("two")),
            (1, String::from("one")),
        ]))
        .unwrap(),
    );
}

#[test]
fn ordered_collections_are_packed_in_ascending_order() {
    assert_eq!(
        BTreeSet::from([300u16, 2, 1]).pack_to_vec(),
        vec![3, 0, 0, 0, 0, 0, 0, 0, 1, 0, 2, 0, 44, 1]
    );
    assert_eq!(
        BTreeSet::from([1i8, -1, 0]).pack_to_vec(),
        vec![3, 0, 0, 0, 0, 0, 0, 0, 255, 0, 1]
    );
    assert_eq!(
        BTreeMap::from([(2u8, true), (1, false)]).pack_to_vec(),
        vec![2, 0, 0, 0, 0, 0, 0, 0, 1, 0, 2, 1]
    );
}
