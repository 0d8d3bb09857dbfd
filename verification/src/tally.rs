//! Counting the bytes that pass through a sink or a source.

use vstd::prelude::*;

verus! {

/// The largest `usize` that is at most `n`.
pub open spec fn clip(n: nat) -> usize {
    if n <= usize::MAX {
        n as usize
    } else {
        usize::MAX
    }
}

/// A count of the bytes that passed, which stops at `usize::MAX`, with the bytes themselves
/// kept for the contracts.
pub struct Tally {
    count: usize,
    log: Ghost<Seq<u8>>,
}

impl Tally {
    #[verifier::type_invariant]
    spec fn counts_log(self) -> bool {
        self.count == clip(self.log@.len())
    }

    /// The bytes that passed, in order.
    pub closed spec fn log(&self) -> Seq<u8> {
        self.log@
    }

    /// A tally of nothing.
    pub fn new() -> (r: Self)
        ensures
            r.log() == Seq::<u8>::empty(),
    {
        Tally { count: 0, log: Ghost(Seq::empty()) }
    }

    /// The number of bytes that passed, or `usize::MAX` if there were more.
    pub fn count(&self) -> (r: usize)
        ensures
            r == clip(self.log().len()),
    {
        proof {
            use_type_invariant(self);
        }
        self.count
    }

    /// Counts `bytes`.
    pub fn add(&mut self, bytes: &[u8])
        ensures
            final(self).log() == old(self).log() + bytes@,
    {
        proof {
            use_type_invariant(&*self);
        }
        *self = Tally {
            count: self.count.saturating_add(bytes.len()),
            log: Ghost(self.log@ + bytes@),
        };
    }
}

} // verus!
