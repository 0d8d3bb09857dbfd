//! Visitors: the context that a caller hands to `unpack`, and how the visitor of a value is
//! handed on to the parts of the value.

use vstd::prelude::*;

verus! {

/// A visitor from which the visitor of a part can be had.
///
/// Every visitor gives the empty visitor `()`, which is what the types of this library take
/// that need no context. A visitor of another kind gives itself where its type says so.
pub trait Narrow<W> {
    /// The visitor of the part.
    spec fn spec_narrow(&self) -> &W;

    /// The visitor of the part.
    fn narrow(&self) -> (r: &W)
        ensures
            r == self.spec_narrow(),
    ;
}

impl<V> Narrow<()> for V {
    open spec fn spec_narrow(&self) -> &() {
        &()
    }

    fn narrow(&self) -> (r: &()) {
        &()
    }
}

} // verus!
