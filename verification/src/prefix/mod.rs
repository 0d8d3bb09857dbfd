//! Collections behind a length prefix of a chosen width and range.

pub mod boxed;
pub mod btreemap;
pub mod btreeset;
pub mod hashmap;
pub mod string;
pub mod vec;

pub use boxed::BoxedSlicePrefix;
pub use btreemap::BTreeMapPrefix;
pub use btreeset::BTreeSetPrefix;
pub use hashmap::HashMapPrefix;
pub use string::StringPrefix;
pub use vec::VecPrefix;

use core::convert::Infallible;
use vstd::prelude::*;

use crate::error::{CoerceInto, never, ErrorView, UnpackError};
use crate::bounded::Bounded;
use crate::le::{le_bytes, lemma_le_bytes_len};
use crate::packable::{Decoded, Packable};
use crate::packer::{accepted, Packer};
use crate::unpacker::{advanced, Unpacker};

verus! {

/// Error type raised when unpacking a length-prefixed run of items fails.
#[derive(Debug)]
pub enum UnpackPrefixError<T, E> {
    /// An item could not be unpacked.
    Item(T),
    /// The length prefix could not be unpacked.
    Prefix(E),
}

impl<T: ErrorView, E: ErrorView> ErrorView for UnpackPrefixError<T, E> {
    type View = UnpackPrefixError<T::View, E::View>;

    open spec fn error_view(&self) -> UnpackPrefixError<T::View, E::View> {
        match self {
            UnpackPrefixError::Item(e) => UnpackPrefixError::Item(e.error_view()),
            UnpackPrefixError::Prefix(e) => UnpackPrefixError::Prefix(e.error_view()),
        }
    }

    open spec fn can_occur() -> bool {
        T::can_occur() || E::can_occur()
    }
}

/// An error of this type turns into itself.
impl<T: ErrorView, E: ErrorView> CoerceInto<UnpackPrefixError<T, E>> for UnpackPrefixError<T, E> {
    open spec fn spec_coerce(
        view: UnpackPrefixError<T::View, E::View>,
    ) -> UnpackPrefixError<T::View, E::View> {
        view
    }

    proof fn lemma_coerce_can_occur() {
    }

    fn coerce_into(self) -> (r: UnpackPrefixError<T, E>) {
        self
    }
}

impl<E> UnpackPrefixError<Infallible, E> {
    /// Gets the `Prefix` variant, the only one such an error can be.
    pub fn into_prefix_err(self) -> (r: E)
        ensures
            self matches UnpackPrefixError::Prefix(e) ==> r == e,
    {
        match self {
            Self::Item(err) => never(err),
            Self::Prefix(err) => err,
        }
    }
}

impl<T> UnpackPrefixError<T, Infallible> {
    /// Gets the `Item` variant, the only one such an error can be.
    pub fn into_item_err(self) -> (r: T)
        ensures
            self matches UnpackPrefixError::Item(e) ==> r == e,
    {
        match self {
            Self::Item(err) => err,
            Self::Prefix(err) => never(err),
        }
    }
}

impl<T, E> UnpackPrefixError<T, E> {
    /// Returns the item error, or what `f` makes of the prefix error.
    pub fn unwrap_item_err_or_else<V: Into<T>, F: FnOnce(E) -> V>(self, f: F) -> (r: T)
        requires
            self matches UnpackPrefixError::Prefix(e) ==> call_requires(f, (e,)),
        ensures
            match self {
                UnpackPrefixError::Item(e) => r == e,
                UnpackPrefixError::Prefix(e) => exists|v: V|
                    call_ensures(f, (e,), v) && call_ensures(V::into, (v,), r),
            },
    {
        match self {
            Self::Item(err) => err,
            Self::Prefix(err) => f(err).into(),
        }
    }
}

/// Unpacking the prefix of a length that the prefix type accepts gives the length back.
pub proof fn lemma_len_round_trip<B: Bounded>(len: nat, rest: Seq<u8>, verify: bool)
    requires
        B::spec_min() <= len <= B::spec_max(),
    ensures
        B::spec_unpack(le_bytes(len, B::spec_width()) + rest, &(), verify) matches Decoded::Done(
            prefix,
            n,
        ) && B::spec_len_of(prefix) == len && n == B::spec_width(),
{
    let prefix = B::spec_from_len(len);
    B::lemma_from_len(len);
    prefix.lemma_bounded();
    prefix.lemma_round_trip(rest, &(), verify);
    lemma_le_bytes_len(len, B::spec_width());
}

/// Unpacking the prefix of a length cut short fails for want of bytes.
pub proof fn lemma_len_truncated<B: Bounded>(len: nat, cut: nat, verify: bool)
    requires
        B::spec_min() <= len <= B::spec_max(),
        cut < B::spec_width(),
    ensures
        B::spec_unpack(le_bytes(len, B::spec_width()).take(cut as int), &(), verify) is Short,
{
    let prefix = B::spec_from_len(len);
    B::lemma_from_len(len);
    prefix.lemma_bounded();
    lemma_le_bytes_len(len, B::spec_width());
    prefix.lemma_truncated(cut, &(), verify);
}

/// Packs `len` as a prefix of type `B`.
pub fn pack_len<B: Bounded, P: Packer>(len: usize, packer: &mut P) -> (r: Result<(), P::Error>)
    requires
        B::spec_min() <= len <= B::spec_max(),
    ensures
        accepted(old(packer), final(packer), r is Ok, le_bytes(len as nat, B::spec_width())),
{
    match B::try_from_len(len) {
        Ok(prefix) => {
            proof {
                prefix.lemma_bounded();
            }
            prefix.pack(packer)
        },
        Err(_) => vstd::pervasive::unreached(),
    }
}

/// Unpacks a prefix of type `B` and gives the length that it stands for.
pub fn unpack_len<B: Bounded, U: Unpacker, const VERIFY: bool>(unpacker: &mut U) -> (r: Result<
    u64,
    UnpackError<B::UnpackError, U::Error>,
>)
    ensures
        match B::spec_unpack(old(unpacker).remaining(), &(), VERIFY) {
            Decoded::Done(prefix, n) => {
                &&& r matches Ok(len) && len == B::spec_len_of(prefix)
                &&& B::spec_min() <= B::spec_len_of(prefix) <= B::spec_max()
                &&& advanced(old(unpacker), final(unpacker), n)
            },
            Decoded::Invalid(e) => r matches Err(UnpackError::Packable(x)) && x.error_view() == e,
            Decoded::Short(required, had) => r matches Err(UnpackError::Unpacker(x)) && U::is_eof(
                x,
                required,
                had,
            ),
        },
{
    let prefix = B::unpack::<U, VERIFY>(unpacker, &())?;
    proof {
        prefix.lemma_bounded();
    }
    Ok(prefix.len())
}

} // verus!
