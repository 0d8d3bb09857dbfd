use core::convert::Infallible;
use vstd::prelude::*;

use crate::packer::Packer;

verus! {

/// A growable buffer takes every slice it is handed.
impl Packer for Vec<u8> {
    type Error = Infallible;

    open spec fn written(&self) -> Seq<u8> {
        self@
    }

    open spec fn has_room(&self, n: nat) -> bool {
        true
    }

    fn pack_bytes(&mut self, bytes: &[u8]) -> (r: Result<(), Self::Error>)
        ensures
            r is Ok,
    {
        self.extend_from_slice(bytes);
        Ok(())
    }

    fn written_bytes(&self) -> (r: Option<usize>)
        ensures
            r == Some(self@.len() as usize),
    {
        Some(self.len())
    }
}

} // verus!
