use vstd::prelude::*;

use crate::error::UnexpectedEOF;
use crate::unpacker::Unpacker;

verus! {

/// A source backed by a slice of bytes.
pub struct SliceUnpacker<'a> {
    slice: &'a [u8],
    pos: usize,
}

impl<'a> SliceUnpacker<'a> {
    #[verifier::type_invariant]
    spec fn in_slice(self) -> bool {
        self.pos <= self.slice@.len()
    }

    /// A source that will hand out the bytes of `slice`, from the first on.
    pub fn new(slice: &'a [u8]) -> (r: Self)
        ensures
            r.remaining() == slice@,
            r.consumed() == 0,
    {
        proof {
            assert(slice@.skip(0) =~= slice@);
        }
        Self { slice, pos: 0 }
    }
}

impl<'a> Unpacker for SliceUnpacker<'a> {
    type Error = UnexpectedEOF;

    closed spec fn remaining(&self) -> Seq<u8> {
        self.slice@.skip(self.pos as int)
    }

    closed spec fn consumed(&self) -> nat {
        self.pos as nat
    }

    open spec fn is_eof(err: UnexpectedEOF, required: nat, had: nat) -> bool {
        err.required == required && err.had == had
    }

    open spec fn certain_short(&self, len: nat) -> bool {
        len > self.remaining().len()
    }

    open spec fn counts_remaining(&self) -> bool {
        true
    }

    fn unpack_bytes(&mut self, bytes: &mut [u8]) -> (r: Result<(), Self::Error>)
        ensures
            r is Err ==> {
                &&& final(bytes)@ == old(bytes)@
                &&& final(self).remaining() == old(self).remaining()
                &&& final(self).consumed() == old(self).consumed()
            },
    {
        proof {
            use_type_invariant(&*self);
        }
        let len = bytes.len();
        let had = self.slice.len() - self.pos;
        if had < len {
            return Err(UnexpectedEOF { required: len, had });
        }
        let mut i: usize = 0;
        while i < len
            invariant
                i <= len,
                len == bytes@.len(),
                self.pos + len <= self.slice@.len() <= usize::MAX,
                forall|j: int| 0 <= j < i ==> bytes@[j] == self.slice@[self.pos + j],
            decreases len - i,
        {
            bytes[i] = self.slice[self.pos + i];
            i += 1;
        }
        assert(bytes@ =~= old(self).remaining().take(len as int));
        self.pos = self.pos + len;
        assert(self.remaining() =~= old(self).remaining().skip(len as int));
        Ok(())
    }

    fn ensure_bytes(&self, len: usize) -> (r: Result<(), Self::Error>) {
        proof {
            use_type_invariant(self);
        }
        let had = self.slice.len() - self.pos;
        if had < len {
            Err(UnexpectedEOF { required: len, had })
        } else {
            Ok(())
        }
    }

    fn read_bytes(&self) -> (r: Option<usize>)
        ensures
            r is None,
    {
        None
    }

    fn remaining_count(&self) -> (r: Option<usize>)
        ensures
            r == Some(self.remaining().len() as usize),
    {
        proof {
            use_type_invariant(self);
        }
        Some(self.slice.len() - self.pos)
    }
}

} // verus!
