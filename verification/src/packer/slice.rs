use vstd::prelude::*;

use crate::error::UnexpectedEOF;
use crate::packer::Packer;
use crate::tally::clip;

verus! {

/// A sink backed by a slice of bytes, which takes as many bytes as the slice is long.
pub struct SlicePacker<'a> {
    slice: &'a mut [u8],
    pos: usize,
}

impl<'a> SlicePacker<'a> {
    #[verifier::type_invariant]
    spec fn in_slice(self) -> bool {
        self.pos <= self.slice@.len()
    }

    /// The number of bytes that the sink can still take.
    pub closed spec fn room(&self) -> nat {
        (self.slice@.len() - self.pos) as nat
    }

    /// A sink that will fill `slice`, from the first byte on.
    pub fn new(slice: &'a mut [u8]) -> (r: Self)
        ensures
            r.written() == Seq::<u8>::empty(),
            r.room() == old(slice)@.len(),
    {
        Self { slice, pos: 0 }
    }
}

impl<'a> Packer for SlicePacker<'a> {
    type Error = UnexpectedEOF;

    closed spec fn written(&self) -> Seq<u8> {
        self.slice@.take(self.pos as int)
    }

    open spec fn has_room(&self, n: nat) -> bool {
        n <= self.room()
    }

    fn pack_bytes(&mut self, bytes: &[u8]) -> (r: Result<(), Self::Error>)
        ensures
            r is Ok <==> bytes@.len() <= old(self).room(),
            r is Ok ==> final(self).room() == old(self).room() - bytes@.len(),
            r matches Err(e) ==> e.required == bytes@.len() && e.had == old(self).room(),
            r is Err ==> final(self).written() == old(self).written() && final(self).room()
                == old(self).room(),
    {
        proof {
            use_type_invariant(&*self);
        }
        let len = bytes.len();
        let had = self.slice.len() - self.pos;
        if had < len {
            return Err(UnexpectedEOF { required: len, had });
        }
        let mut i: usize = 0;
        while i < len
            invariant
                i <= len,
                len == bytes@.len(),
                self.pos == old(self).pos,
                self.slice@.len() == old(self).slice@.len(),
                self.pos + len <= self.slice@.len() <= usize::MAX,
                self.slice@.take(self.pos as int) == old(self).slice@.take(self.pos as int),
                forall|j: int| 0 <= j < i ==> self.slice@[self.pos + j] == bytes@[j],
            decreases len - i,
        {
            let ghost before = self.slice@;
            self.slice[self.pos + i] = bytes[i];
            proof {
                assert(self.slice@.take(self.pos as int) =~= before.take(self.pos as int));
            }
            i += 1;
        }
        self.pos = self.pos + len;
        proof {
            assert(self.written() =~= old(self).written() + bytes@);
        }
        Ok(())
    }

    fn written_bytes(&self) -> (r: Option<usize>)
        ensures
            r == Some(clip(self.written().len())),
    {
        proof {
            use_type_invariant(self);
        }
        Some(self.pos)
    }
}

} // verus!
