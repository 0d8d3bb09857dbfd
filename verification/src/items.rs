//! Runs of items: the encodings of several values of one type, one after the other.

use vstd::prelude::*;

use crate::error::{ErrorView, UnpackError};
use crate::packable::{Decoded, Packable};
use crate::packer::{accepted, Packer};
use crate::unpacker::{advanced, Unpacker};

verus! {

/// Whether every item is valid.
pub open spec fn all_valid<T: Packable>(items: Seq<T>) -> bool {
    forall|i: int| 0 <= i < items.len() ==> (#[trigger] items[i]).valid()
}

/// Whether every item passes the checks against the visitor.
pub open spec fn all_pass<T: Packable>(items: Seq<T>, visitor: &T::UnpackVisitor) -> bool {
    forall|i: int| 0 <= i < items.len() ==> (#[trigger] items[i]).passes(visitor)
}

/// The deep views of the items.
pub open spec fn deep_items<T: DeepView>(items: Seq<T>) -> Seq<T::V> {
    Seq::new(items.len(), |i: int| items[i].deep_view())
}

/// The encodings of the items, one after the other.
pub open spec fn spec_pack_items<T: Packable>(items: Seq<T>) -> Seq<u8>
    decreases items.len(),
{
    if items.len() == 0 {
        Seq::empty()
    } else {
        spec_pack_items(items.drop_last()) + items.last().spec_pack()
    }
}

/// What `bytes` decode to as `count` items in a row: the views of the items and the number of
/// bytes they take together, or what the first item that fails comes to.
pub open spec fn spec_unpack_items<T: Packable>(
    bytes: Seq<u8>,
    count: nat,
    visitor: &T::UnpackVisitor,
    verify: bool,
) -> Decoded<Seq<T::V>, <T::UnpackError as ErrorView>::View>
    decreases count,
{
    if count == 0 {
        Decoded::Done(Seq::empty(), 0)
    } else {
        match spec_unpack_items::<T>(bytes, (count - 1) as nat, visitor, verify) {
            Decoded::Done(items, n) => match T::spec_unpack(bytes.skip(n as int), visitor, verify) {
                Decoded::Done(item, m) => Decoded::Done(items.push(item), n + m),
                Decoded::Invalid(e) => Decoded::Invalid(e),
                Decoded::Short(required, had) => Decoded::Short(required, had),
            },
            Decoded::Invalid(e) => Decoded::Invalid(e),
            Decoded::Short(required, had) => Decoded::Short(required, had),
        }
    }
}

/// One more item adds its encoding at the end.
pub proof fn lemma_pack_items_push<T: Packable>(items: Seq<T>, item: T)
    ensures
        spec_pack_items(items.push(item)) == spec_pack_items(items) + item.spec_pack(),
{
    assert(items.push(item).drop_last() =~= items);
}

/// Once an item fails, the run fails in the same way, however many items are asked for.
pub proof fn lemma_items_failure_stays<T: Packable>(
    bytes: Seq<u8>,
    failed: nat,
    count: nat,
    visitor: &T::UnpackVisitor,
    verify: bool,
)
    requires
        failed <= count,
        !(spec_unpack_items::<T>(bytes, failed, visitor, verify) is Done),
    ensures
        spec_unpack_items::<T>(bytes, count, visitor, verify) == spec_unpack_items::<T>(
            bytes,
            failed,
            visitor,
            verify,
        ),
    decreases count,
{
    if failed < count {
        lemma_items_failure_stays::<T>(bytes, failed, (count - 1) as nat, visitor, verify);
    }
}

/// Unpacking the encodings of valid items that pass the checks gives the items back.
pub proof fn lemma_items_round_trip<T: Packable>(
    items: Seq<T>,
    rest: Seq<u8>,
    visitor: &T::UnpackVisitor,
    verify: bool,
)
    requires
        all_valid(items),
        all_pass(items, visitor),
    ensures
        spec_unpack_items::<T>(spec_pack_items(items) + rest, items.len(), visitor, verify)
            == Decoded::<Seq<T::V>, <T::UnpackError as ErrorView>::View>::Done(
            deep_items(items),
            spec_pack_items(items).len(),
        ),
    decreases items.len(),
{
    if items.len() == 0 {
        assert(deep_items(items) =~= Seq::<T::V>::empty());
    } else {
        let front = items.drop_last();
        let last = items.last();
        let bytes = spec_pack_items(items) + rest;
        assert(bytes =~= spec_pack_items(front) + (last.spec_pack() + rest));
        lemma_items_round_trip::<T>(front, last.spec_pack() + rest, visitor, verify);
        let n = spec_pack_items(front).len();
        assert(bytes.skip(n as int) =~= last.spec_pack() + rest);
        last.lemma_round_trip(rest, visitor, verify);
        assert(deep_items(front).push(last.deep_view()) =~= deep_items(items));
    }
}

/// Unpacking the encodings of valid items that pass the checks, cut short, fails for want
/// of bytes.
pub proof fn lemma_items_truncated<T: Packable>(
    items: Seq<T>,
    len: nat,
    visitor: &T::UnpackVisitor,
    verify: bool,
)
    requires
        all_valid(items),
        all_pass(items, visitor),
        len < spec_pack_items(items).len(),
    ensures
        spec_unpack_items::<T>(spec_pack_items(items).take(len as int), items.len(), visitor, verify)
            is Short,
    decreases items.len(),
{
    let front = items.drop_last();
    let last = items.last();
    let done = spec_pack_items(front);
    let cut = spec_pack_items(items).take(len as int);
    if len < done.len() {
        assert(cut =~= done.take(len as int));
        lemma_items_truncated::<T>(front, len, visitor, verify);
        lemma_items_failure_stays::<T>(cut, front.len(), items.len(), visitor, verify);
    } else {
        let left = (len - done.len()) as nat;
        assert(cut =~= done + last.spec_pack().take(left as int));
        lemma_items_round_trip::<T>(front, last.spec_pack().take(left as int), visitor, verify);
        assert(cut.skip(done.len() as int) =~= last.spec_pack().take(left as int));
        last.lemma_truncated(left, visitor, verify);
        assert((items.len() - 1) as nat == front.len());
    }
}

/// A run of items decodes to a semantic error only where the type of the error has values.
pub proof fn lemma_items_invalid_can_occur<T: Packable>(
    bytes: Seq<u8>,
    count: nat,
    visitor: &T::UnpackVisitor,
    verify: bool,
)
    ensures
        spec_unpack_items::<T>(bytes, count, visitor, verify) is Invalid ==> <
            T::UnpackError as ErrorView
        >::can_occur(),
    decreases count,
{
    if count > 0 {
        lemma_items_invalid_can_occur::<T>(bytes, (count - 1) as nat, visitor, verify);
        if let Decoded::Done(items, n) = spec_unpack_items::<T>(
            bytes,
            (count - 1) as nat,
            visitor,
            verify,
        ) {
            T::lemma_invalid_can_occur(bytes.skip(n as int), visitor, verify);
        }
    }
}

/// Bytes packed as items are the bytes.
pub proof fn lemma_pack_bytes_as_items(bytes: Seq<u8>)
    ensures
        spec_pack_items(bytes) == bytes,
        all_valid(bytes),
        all_pass(bytes, &()),
        deep_items(bytes) == bytes,
    decreases bytes.len(),
{
    if bytes.len() == 0 {
        assert(spec_pack_items(bytes) =~= bytes);
    } else {
        lemma_pack_bytes_as_items(bytes.drop_last());
        crate::bool::lemma_byte_encoding(bytes.last());
        assert(spec_pack_items(bytes) =~= bytes);
    }
    assert(deep_items(bytes) =~= bytes);
}

/// A run of bytes decodes, or is too short: there is no byte that is no byte.
pub proof fn lemma_unpack_bytes_as_items(bytes: Seq<u8>, count: nat, verify: bool)
    ensures
        !(spec_unpack_items::<u8>(bytes, count, &(), verify) is Invalid),
    decreases count,
{
    if count > 0 {
        lemma_unpack_bytes_as_items(bytes, (count - 1) as nat, verify);
    }
}

/// Packs the items, one after the other.
pub fn pack_items<T: Packable, P: Packer>(items: &[T], packer: &mut P) -> (r: Result<
    (),
    P::Error,
>)
    requires
        all_valid(items@),
    ensures
        accepted(old(packer), final(packer), r is Ok, spec_pack_items(items@)),
{
    let ghost before = *packer;
    let mut i: usize = 0;
    proof {
        assert(before.written() + spec_pack_items(items@.take(0)) =~= before.written());
    }
    while i < items.len()
        invariant
            i <= items@.len(),
            all_valid(items@),
            before == *old(packer),
            accepted(&before, packer, true, spec_pack_items(items@.take(i as int))),
        decreases items@.len() - i,
    {
        let ghost between = *packer;
        let r = items[i].pack(packer);
        proof {
            lemma_pack_items_push(items@.take(i as int), items@[i as int]);
            assert(items@.take(i as int).push(items@[i as int]) =~= items@.take(i as int + 1));
        }
        match r {
            Ok(()) => {
                proof {
                    crate::packer::lemma_accepted_twice(
                        &before,
                        &between,
                        packer,
                        spec_pack_items(items@.take(i as int)),
                        items@[i as int].spec_pack(),
                    );
                }
            },
            Err(e) => {
                proof {
                    lemma_pack_items_take(items@, i as int + 1);
                    let done = spec_pack_items(items@.take(i as int));
                    assert forall|n: nat| n >= spec_pack_items(items@).len() implies !(
                    #[trigger] before.has_room(n)) by {
                        if before.has_room(n) {
                            assert(between.has_room((n - done.len()) as nat));
                        }
                    }
                }
                return Err(e);
            },
        }
        i += 1;
    }
    proof {
        assert(items@.take(i as int) =~= items@);
    }
    Ok(())
}

/// The encodings of the first items are the start of the encodings of all.
pub proof fn lemma_pack_items_take<T: Packable>(items: Seq<T>, n: int)
    requires
        0 <= n <= items.len(),
    ensures
        spec_pack_items(items.take(n)).len() <= spec_pack_items(items).len(),
        spec_pack_items(items.take(n)) == spec_pack_items(items).take(
            spec_pack_items(items.take(n)).len() as int,
        ),
    decreases items.len(),
{
    if n == items.len() {
        assert(items.take(n) =~= items);
        assert(spec_pack_items(items).take(spec_pack_items(items).len() as int) =~= spec_pack_items(
            items,
        ));
    } else {
        lemma_pack_items_take(items.drop_last(), n);
        assert(items.drop_last().take(n) =~= items.take(n));
        let front = spec_pack_items(items.drop_last());
        let k = spec_pack_items(items.take(n)).len() as int;
        assert((front + items.last().spec_pack()).take(k) =~= front.take(k));
    }
}

/// Unpacks `count` items, one after the other.
pub fn unpack_items<T: Packable, U: Unpacker, const VERIFY: bool>(
    unpacker: &mut U,
    visitor: &T::UnpackVisitor,
    count: u64,
) -> (r: Result<Vec<T>, UnpackError<T::UnpackError, U::Error>>)
    ensures
        match spec_unpack_items::<T>(old(unpacker).remaining(), count as nat, visitor, VERIFY) {
            Decoded::Done(items, n) => {
                &&& r matches Ok(v) && v@.len() == count && deep_items(v@) == items && all_valid(
                    v@,
                )
                &&& advanced(old(unpacker), final(unpacker), n)
            },
            Decoded::Invalid(e) => r matches Err(UnpackError::Packable(x)) && x.error_view() == e,
            Decoded::Short(required, had) => r matches Err(UnpackError::Unpacker(x)) && U::is_eof(
                x,
                required,
                had,
            ),
        },
{
    let ghost before = *unpacker;
    let ghost bytes = unpacker.remaining();
    let ghost mut taken: nat = 0;
    let mut items: Vec<T> = Vec::new();
    let mut i: u64 = 0;
    proof {
        assert(bytes.skip(0) =~= bytes);
        assert(deep_items(items@) =~= Seq::<T::V>::empty());
    }
    while i < count
        invariant
            i <= count,
            items@.len() == i,
            all_valid(items@),
            before == *old(unpacker),
            bytes == before.remaining(),
            spec_unpack_items::<T>(bytes, i as nat, visitor, VERIFY) == Decoded::<
                Seq<T::V>,
                <T::UnpackError as ErrorView>::View,
            >::Done(deep_items(items@), taken),
            advanced(&before, unpacker, taken),
        decreases count - i,
    {
        let ghost so_far = items@;
        let ghost next = T::spec_unpack(bytes.skip(taken as int), visitor, VERIFY);
        proof {
            assert(((i + 1) as nat - 1) as nat == i as nat);
            assert(spec_unpack_items::<T>(bytes, (i + 1) as nat, visitor, VERIFY) == match next {
                Decoded::Done(item, m) => Decoded::<
                    Seq<T::V>,
                    <T::UnpackError as ErrorView>::View,
                >::Done(deep_items(so_far).push(item), taken + m),
                Decoded::Invalid(e) => Decoded::Invalid(e),
                Decoded::Short(required, had) => Decoded::Short(required, had),
            });
        }
        match T::unpack::<U, VERIFY>(unpacker, visitor) {
            Ok(item) => {
                items.push(item);
                proof {
                    let m = next->Done_1;
                    assert(bytes.skip(taken as int).skip(m as int) =~= bytes.skip(taken as int + m));
                    assert(deep_items(so_far).push(item.deep_view()) =~= deep_items(items@));
                    taken = taken + m;
                }
            },
            Err(UnpackError::Packable(e)) => {
                proof {
                    lemma_items_failure_stays::<T>(bytes, (i + 1) as nat, count as nat, visitor, VERIFY);
                }
                return Err(UnpackError::Packable(e));
            },
            Err(UnpackError::Unpacker(e)) => {
                proof {
                    lemma_items_failure_stays::<T>(bytes, (i + 1) as nat, count as nat, visitor, VERIFY);
                }
                return Err(UnpackError::Unpacker(e));
            },
        }
        i += 1;
    }
    Ok(items)
}

} // verus!
