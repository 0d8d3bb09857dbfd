//! Byte sinks: the destinations that values are packed into.

pub mod counter;
pub mod len;
pub mod slice;
pub mod vec;

pub use counter::CounterPacker;
pub use len::LenPacker;
pub use slice::SlicePacker;

use vstd::prelude::*;

use crate::tally::clip;

verus! {

/// A byte sink.
///
/// A sink takes whole slices: `pack_bytes` either appends every byte of the slice to what
/// the sink has taken so far, or fails.
pub trait Packer: Sized {
    /// The error of a sink that cannot take more bytes.
    type Error;

    /// The bytes that the sink has taken so far.
    spec fn written(&self) -> Seq<u8>;

    /// Whether the sink is certain to take `n` more bytes.
    spec fn has_room(&self, n: nat) -> bool;

    /// Writes all of `bytes`, or fails.
    fn pack_bytes(&mut self, bytes: &[u8]) -> (r: Result<(), Self::Error>)
        ensures
            r is Ok ==> final(self).written() == old(self).written() + bytes@,
            forall|n: nat|
                n >= bytes@.len() && #[trigger] old(self).has_room(n) ==> r is Ok && final(self).has_room(
                    (n - bytes@.len()) as nat,
                ),
    ;

    /// The number of bytes taken so far, for sinks that keep count.
    fn written_bytes(&self) -> (r: Option<usize>)
        ensures
            r matches Some(n) ==> n == clip(self.written().len()),
    ;
}

/// How a sink changes when it is handed `bytes`, where `ok` tells whether it reported success.
///
/// On success the bytes are appended to what was written. Success is owed whenever the sink
/// had room for the bytes, and room for more than the bytes is room that remains.
pub open spec fn accepted<P: Packer>(before: &P, after: &P, ok: bool, bytes: Seq<u8>) -> bool {
    &&& ok ==> after.written() == before.written() + bytes
    &&& forall|n: nat|
        n >= bytes.len() && #[trigger] before.has_room(n) ==> ok && after.has_room(
            (n - bytes.len()) as nat,
        )
}

/// Two steps that a sink accepted, one after the other, are one accepted step.
pub proof fn lemma_accepted_twice<P: Packer>(
    before: &P,
    between: &P,
    after: &P,
    first: Seq<u8>,
    second: Seq<u8>,
)
    requires
        accepted(before, between, true, first),
        accepted(between, after, true, second),
    ensures
        accepted(before, after, true, first + second),
{
    assert(before.written() + first + second =~= before.written() + (first + second));
    assert forall|n: nat| n >= (first + second).len() && #[trigger] before.has_room(n) implies after.has_room(
        (n - (first + second).len()) as nat,
    ) by {
        assert(between.has_room((n - first.len()) as nat));
    }
}

} // verus!
