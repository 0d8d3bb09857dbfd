//! Byte sources: what values are unpacked from.

pub mod counter;
pub mod slice;

pub use counter::CounterUnpacker;
pub use slice::SliceUnpacker;

use vstd::prelude::*;

use crate::tally::clip;

verus! {

/// A byte source.
///
/// A source fills whole buffers: `unpack_bytes` either fills the buffer with the next bytes
/// of the source and moves past them, or fails because fewer bytes are left.
pub trait Unpacker: Sized {
    /// The error of a source that has too few bytes left.
    type Error;

    /// The bytes that are still to be read.
    spec fn remaining(&self) -> Seq<u8>;

    /// The number of bytes read so far.
    spec fn consumed(&self) -> nat;

    /// Whether `err` reports that `required` bytes were asked for when `had` were left.
    spec fn is_eof(err: Self::Error, required: nat, had: nat) -> bool;

    /// Whether the source is certain, without reading, that fewer than `len` bytes are left.
    spec fn certain_short(&self, len: nat) -> bool;

    /// Whether the source knows, without reading, how many bytes are left.
    spec fn counts_remaining(&self) -> bool;

    /// Fills `bytes` with the next bytes of the source, or fails if fewer are left.
    fn unpack_bytes(&mut self, bytes: &mut [u8]) -> (r: Result<(), Self::Error>)
        ensures
            final(bytes)@.len() == old(bytes)@.len(),
            match r {
                Ok(()) => {
                    &&& old(bytes)@.len() <= old(self).remaining().len()
                    &&& final(bytes)@ == old(self).remaining().take(old(bytes)@.len() as int)
                    &&& final(self).remaining() == old(self).remaining().skip(
                        old(bytes)@.len() as int,
                    )
                    &&& final(self).consumed() == old(self).consumed() + old(bytes)@.len()
                },
                Err(e) => {
                    &&& old(bytes)@.len() > old(self).remaining().len()
                    &&& Self::is_eof(e, old(bytes)@.len(), old(self).remaining().len())
                },
            },
    ;

    /// Fails exactly where the source is certain that fewer than `len` bytes are left, which
    /// it is only where that is so. A success does not promise that `len` bytes are there.
    fn ensure_bytes(&self, len: usize) -> (r: Result<(), Self::Error>)
        ensures
            r is Err <==> self.certain_short(len as nat),
            r matches Err(e) ==> len > self.remaining().len() && Self::is_eof(
                e,
                len as nat,
                self.remaining().len(),
            ),
    ;

    /// The number of bytes read so far, for sources that keep count.
    fn read_bytes(&self) -> (r: Option<usize>)
        ensures
            r matches Some(n) ==> n == clip(self.consumed()),
    ;

    /// The number of bytes that are left, for the sources that know it, and `None` for the
    /// others.
    fn remaining_count(&self) -> (r: Option<usize>)
        ensures
            r is Some <==> self.counts_remaining(),
            r matches Some(n) ==> n == self.remaining().len(),
    ;
}

/// A source that moved past its next `n` bytes.
pub open spec fn advanced<U: Unpacker>(before: &U, after: &U, n: nat) -> bool {
    &&& n <= before.remaining().len()
    &&& after.remaining() == before.remaining().skip(n as int)
    &&& after.consumed() == before.consumed() + n
}

} // verus!
