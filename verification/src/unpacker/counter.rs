use vstd::prelude::*;

use crate::tally::{clip, Tally};
use crate::unpacker::Unpacker;

verus! {

/// A source that reads from another source and counts the bytes that one gave.
///
/// The count stops at `usize::MAX`.
pub struct CounterUnpacker<U: Unpacker> {
    inner: U,
    tally: Tally,
}

impl<U: Unpacker> CounterUnpacker<U> {
    /// The source that is read from.
    pub closed spec fn inner(&self) -> U {
        self.inner
    }

    /// Wraps `unpacker`, with the count at zero.
    pub fn new(unpacker: U) -> (r: Self)
        ensures
            r.consumed() == 0,
            r.inner() == unpacker,
    {
        CounterUnpacker { inner: unpacker, tally: Tally::new() }
    }

    /// The number of bytes read through this source, or `usize::MAX` if there were more.
    pub fn counter(&self) -> (r: usize)
        ensures
            r == clip(self.consumed()),
    {
        self.tally.count()
    }

    /// Gives back the wrapped source.
    pub fn into_inner(self) -> (r: U)
        ensures
            r == self.inner(),
    {
        self.inner
    }
}

impl<U: Unpacker> Unpacker for CounterUnpacker<U> {
    type Error = U::Error;

    open spec fn remaining(&self) -> Seq<u8> {
        self.inner().remaining()
    }

    closed spec fn consumed(&self) -> nat {
        self.tally.log().len()
    }

    open spec fn is_eof(err: U::Error, required: nat, had: nat) -> bool {
        U::is_eof(err, required, had)
    }

    open spec fn certain_short(&self, len: nat) -> bool {
        self.inner().certain_short(len)
    }

    open spec fn counts_remaining(&self) -> bool {
        self.inner().counts_remaining()
    }

    fn unpack_bytes(&mut self, bytes: &mut [u8]) -> (r: Result<(), Self::Error>) {
        self.inner.unpack_bytes(bytes)?;
        self.tally.add(bytes);
        Ok(())
    }

    fn ensure_bytes(&self, len: usize) -> (r: Result<(), Self::Error>) {
        self.inner.ensure_bytes(len)
    }

    fn read_bytes(&self) -> (r: Option<usize>)
        ensures
            r == Some(clip(self.consumed())),
    {
        Some(self.tally.count())
    }

    fn remaining_count(&self) -> (r: Option<usize>) {
        self.inner.remaining_count()
    }
}

} // verus!
