use core::convert::Infallible;
use vstd::prelude::*;

use crate::packer::Packer;
use crate::tally::{clip, Tally};

verus! {

/// A sink that stores nothing and counts what it is handed.
///
/// The count stops at `usize::MAX`.
pub struct LenPacker {
    tally: Tally,
}

impl LenPacker {
    /// A sink that has taken nothing.
    pub fn new() -> (r: Self)
        ensures
            r.written() == Seq::<u8>::empty(),
    {
        LenPacker { tally: Tally::new() }
    }

    /// The number of bytes taken so far, or `usize::MAX` if there were more.
    pub fn len(&self) -> (r: usize)
        ensures
            r == clip(self.written().len()),
    {
        self.tally.count()
    }
}

impl Packer for LenPacker {
    type Error = Infallible;

    closed spec fn written(&self) -> Seq<u8> {
        self.tally.log()
    }

    open spec fn has_room(&self, n: nat) -> bool {
        true
    }

    fn pack_bytes(&mut self, bytes: &[u8]) -> (r: Result<(), Self::Error>)
        ensures
            r is Ok,
    {
        self.tally.add(bytes);
        Ok(())
    }

    fn written_bytes(&self) -> (r: Option<usize>)
        ensures
            r == Some(clip(self.written().len())),
    {
        Some(self.tally.count())
    }
}

} // verus!
