//! Growable lists: the number of items as a `u64`, then the items.

use vstd::prelude::*;

use crate::error::{ErrorView, UnpackError};
use crate::items::{
    all_pass, all_valid, deep_items, lemma_items_round_trip, pack_items, spec_pack_items,
    spec_unpack_items, unpack_items,
};
use crate::le::{le_bytes, lemma_le_bytes_len};
use crate::prefix::UnpackPrefixError;
use crate::packable::{Decoded, Packable};
use crate::packer::{lemma_accepted_twice, accepted, Packer};
use crate::unpacker::{advanced, Unpacker};

verus! {

/// The encoding of a run of items: their number as a `u64`, then the items.
pub open spec fn spec_pack_run<T: Packable>(items: Seq<T>) -> Seq<u8> {
    le_bytes(items.len(), 8) + spec_pack_items(items)
}

/// What `bytes` decode to as a run of items: a number that fits a `usize`, then that many
/// items.
pub open spec fn spec_unpack_run<T: Packable>(
    bytes: Seq<u8>,
    visitor: &T::UnpackVisitor,
    verify: bool,
) -> Decoded<Seq<T::V>, UnpackPrefixError<<T::UnpackError as ErrorView>::View, ()>> {
    match usize::spec_unpack(bytes, &(), verify) {
        Decoded::Done(count, n) => match spec_unpack_items::<T>(
            bytes.skip(n as int),
            count as nat,
            visitor,
            verify,
        ) {
            Decoded::Done(items, m) => Decoded::Done(items, n + m),
            Decoded::Invalid(e) => Decoded::Invalid(UnpackPrefixError::Item(e)),
            Decoded::Short(required, had) => Decoded::Short(required, had),
        },
        Decoded::Invalid(e) => Decoded::Invalid(UnpackPrefixError::Prefix(e)),
        Decoded::Short(required, had) => Decoded::Short(required, had),
    }
}

/// Unpacking the encoding of a run of valid items that pass the checks gives the items back.
pub proof fn lemma_run_round_trip<T: Packable>(
    items: Seq<T>,
    rest: Seq<u8>,
    visitor: &T::UnpackVisitor,
    verify: bool,
)
    requires
        all_valid(items),
        all_pass(items, visitor),
        items.len() <= usize::MAX,
    ensures
        spec_unpack_run::<T>(spec_pack_run(items) + rest, visitor, verify) == Decoded::<
            Seq<T::V>,
            UnpackPrefixError<<T::UnpackError as ErrorView>::View, ()>,
        >::Done(deep_items(items), spec_pack_run(items).len()),
{
    let count = items.len() as usize;
    let bytes = spec_pack_run(items) + rest;
    assert(bytes =~= count.spec_pack() + (spec_pack_items(items) + rest));
    count.lemma_round_trip(spec_pack_items(items) + rest, &(), verify);
    lemma_le_bytes_len(items.len(), 8);
    assert(bytes.skip(8) =~= spec_pack_items(items) + rest);
    lemma_items_round_trip::<T>(items, rest, visitor, verify);
}

/// Unpacking the encoding of a run of valid items that pass the checks, cut short, fails for
/// want of bytes.
pub proof fn lemma_run_truncated<T: Packable>(items: Seq<T>, len: nat, visitor: &T::UnpackVisitor, verify: bool)
    requires
        all_valid(items),
        all_pass(items, visitor),
        items.len() <= usize::MAX,
        len < spec_pack_run(items).len(),
    ensures
        spec_unpack_run::<T>(spec_pack_run(items).take(len as int), visitor, verify) is Short,
{
    let count = items.len() as usize;
    let cut = spec_pack_run(items).take(len as int);
    lemma_le_bytes_len(items.len(), 8);
    if len < 8 {
        assert(cut =~= count.spec_pack().take(len as int));
        count.lemma_truncated(len, &(), verify);
    } else {
        let left = (len - 8) as nat;
        assert(cut =~= count.spec_pack() + spec_pack_items(items).take(left as int));
        count.lemma_round_trip(spec_pack_items(items).take(left as int), &(), verify);
        assert(cut.skip(8) =~= spec_pack_items(items).take(left as int));
        crate::items::lemma_items_truncated::<T>(items, left, visitor, verify);
    }
}

/// Packs the number of items, then the items.
pub fn pack_run<T: Packable, P: Packer>(items: &[T], packer: &mut P) -> (r: Result<(), P::Error>)
    requires
        all_valid(items@),
    ensures
        accepted(old(packer), final(packer), r is Ok, spec_pack_run(items@)),
{
    let ghost before = *packer;
    items.len().pack(packer)?;
    let ghost between = *packer;
    let r = pack_items(items, packer);
    proof {
        if r is Ok {
            lemma_accepted_twice(
                &before,
                &between,
                packer,
                le_bytes(items@.len(), 8),
                spec_pack_items(items@),
            );
        }
    }
    r
}

/// Unpacks the number of items, then the items.
pub fn unpack_run<T: Packable, U: Unpacker, const VERIFY: bool>(
    unpacker: &mut U,
    visitor: &T::UnpackVisitor,
) -> (r: Result<
    Vec<T>,
    UnpackError<UnpackPrefixError<T::UnpackError, core::num::TryFromIntError>, U::Error>,
>)
    ensures
        match spec_unpack_run::<T>(old(unpacker).remaining(), visitor, VERIFY) {
            Decoded::Done(items, n) => {
                &&& r matches Ok(v) && deep_items(v@) == items && all_valid(v@)
                &&& advanced(old(unpacker), final(unpacker), n)
            },
            Decoded::Invalid(e) => r matches Err(UnpackError::Packable(x)) && x.error_view() == e,
            Decoded::Short(required, had) => r matches Err(UnpackError::Unpacker(x)) && U::is_eof(
                x,
                required,
                had,
            ),
        },
{
    let ghost bytes = unpacker.remaining();
    let count = match usize::unpack::<U, VERIFY>(unpacker, &()) {
        Ok(count) => count,
        Err(UnpackError::Packable(e)) => {
            return Err(UnpackError::Packable(UnpackPrefixError::Prefix(e)));
        },
        Err(UnpackError::Unpacker(e)) => {
            return Err(UnpackError::Unpacker(e));
        },
    };
    match unpack_items::<T, U, VERIFY>(unpacker, visitor, count as u64) {
        Ok(items) => {
            proof {
                let m = spec_unpack_items::<T>(bytes.skip(8), count as nat, visitor, VERIFY)->Done_1;
                assert(bytes.skip(8).skip(m as int) =~= bytes.skip(8 + m as int));
            }
            Ok(items)
        },
        Err(UnpackError::Packable(e)) => Err(UnpackError::Packable(UnpackPrefixError::Item(e))),
        Err(UnpackError::Unpacker(e)) => Err(UnpackError::Unpacker(e)),
    }
}

/// `Vec<T>`: the number of items as a `u64`, then the items in order.
impl<T: Packable> Packable for Vec<T> {
    type UnpackError = UnpackPrefixError<T::UnpackError, core::num::TryFromIntError>;

    type UnpackVisitor = T::UnpackVisitor;

    open spec fn valid(&self) -> bool {
        all_valid(self@)
    }

    open spec fn passes(&self, visitor: &T::UnpackVisitor) -> bool {
        all_pass(self@, visitor)
    }

    open spec fn spec_pack(&self) -> Seq<u8> {
        spec_pack_run(self@)
    }

    open spec fn spec_unpack(bytes: Seq<u8>, visitor: &T::UnpackVisitor, verify: bool) -> Decoded<
        Seq<T::V>,
        UnpackPrefixError<<T::UnpackError as ErrorView>::View, ()>,
    > {
        spec_unpack_run::<T>(bytes, visitor, verify)
    }

    proof fn lemma_round_trip(&self, rest: Seq<u8>, visitor: &T::UnpackVisitor, verify: bool) {
        assert(self@.len() == self.len());
        lemma_run_round_trip::<T>(self@, rest, visitor, verify);
        assert(self.deep_view() =~= deep_items(self@));
    }

    proof fn lemma_truncated(&self, len: nat, visitor: &T::UnpackVisitor, verify: bool) {
        assert(self@.len() == self.len());
        lemma_run_truncated::<T>(self@, len, visitor, verify);
    }

    proof fn lemma_invalid_can_occur(bytes: Seq<u8>, visitor: &T::UnpackVisitor, verify: bool) {
    }

    fn pack<P: Packer>(&self, packer: &mut P) -> (r: Result<(), P::Error>) {
        pack_run(self.as_slice(), packer)
    }

    fn unpack<U: Unpacker, const VERIFY: bool>(
        unpacker: &mut U,
        visitor: &T::UnpackVisitor,
    ) -> (r: Result<Self, UnpackError<Self::UnpackError, U::Error>>) {
        let r = unpack_run::<T, U, VERIFY>(unpacker, visitor);
        proof {
            if r is Ok {
                assert(r->Ok_0.deep_view() =~= deep_items(r->Ok_0@));
            }
        }
        r
    }
}

} // verus!
