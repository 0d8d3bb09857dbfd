use vstd::prelude::*;

use crate::packer::Packer;
use crate::tally::{clip, Tally};

verus! {

/// A sink that hands every slice on to another sink and counts the bytes that one took.
///
/// The count stops at `usize::MAX`.
pub struct CounterPacker<P: Packer> {
    inner: P,
    tally: Tally,
}

impl<P: Packer> CounterPacker<P> {
    /// The sink that the slices are handed on to.
    pub closed spec fn inner(&self) -> P {
        self.inner
    }

    /// Wraps `packer`, with the count at zero.
    pub fn new(packer: P) -> (r: Self)
        ensures
            r.written() == Seq::<u8>::empty(),
            r.inner() == packer,
    {
        CounterPacker { inner: packer, tally: Tally::new() }
    }

    /// The number of bytes written through this sink, or `usize::MAX` if there were more.
    pub fn counter(&self) -> (r: usize)
        ensures
            r == clip(self.written().len()),
    {
        self.tally.count()
    }

    /// Gives back the wrapped sink.
    pub fn into_inner(self) -> (r: P)
        ensures
            r == self.inner(),
    {
        self.inner
    }
}

impl<P: Packer> Packer for CounterPacker<P> {
    type Error = P::Error;

    closed spec fn written(&self) -> Seq<u8> {
        self.tally.log()
    }

    open spec fn has_room(&self, n: nat) -> bool {
        self.inner().has_room(n)
    }

    fn pack_bytes(&mut self, bytes: &[u8]) -> (r: Result<(), Self::Error>)
        ensures
            r is Ok ==> final(self).inner().written() == old(self).inner().written() + bytes@,
    {
        self.inner.pack_bytes(bytes)?;
        self.tally.add(bytes);
        Ok(())
    }

    fn written_bytes(&self) -> (r: Option<usize>)
        ensures
            r == Some(clip(self.written().len())),
    {
        Some(self.tally.count())
    }
}

} // verus!
