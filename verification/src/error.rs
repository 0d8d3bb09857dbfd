//! Errors of unpacking.

use core::convert::Infallible;
use vstd::prelude::*;

verus! {

/// What a decoding error stands for in contracts.
///
/// Error values may hold decoded items (a duplicate key, say); contracts speak of such an
/// error through its view, in which every item is replaced by its deep view.
pub trait ErrorView {
    /// What the error looks like in contracts.
    type View;

    /// The view of the error.
    spec fn error_view(&self) -> Self::View;

    /// Whether the type has any value: whether an error of the type can occur at all.
    spec fn can_occur() -> bool;
}

/// An error that can be turned into an error of type `E`.
///
/// An error that cannot occur turns into every error; every other error of this library
/// turns into itself.
pub trait CoerceInto<E: ErrorView>: ErrorView + Sized {
    /// The view of the error that an error with the view `view` turns into.
    spec fn spec_coerce(view: Self::View) -> E::View;

    /// An error that can occur turns into one that can occur.
    proof fn lemma_coerce_can_occur()
        ensures
            Self::can_occur() ==> E::can_occur(),
    ;

    /// Turns the error into an error of type `E`.
    fn coerce_into(self) -> (r: E)
        ensures
            Self::can_occur() ==> r.error_view() == Self::spec_coerce(self.error_view()),
    ;
}

impl<E: ErrorView> CoerceInto<E> for Infallible {
    open spec fn spec_coerce(view: ()) -> E::View {
        arbitrary()
    }

    proof fn lemma_coerce_can_occur() {
    }

    fn coerce_into(self) -> (r: E) {
        never(self)
    }
}

impl ErrorView for Infallible {
    type View = ();

    open spec fn error_view(&self) -> () {
        ()
    }

    open spec fn can_occur() -> bool {
        false
    }
}

impl ErrorView for core::num::TryFromIntError {
    type View = ();

    open spec fn error_view(&self) -> () {
        ()
    }

    open spec fn can_occur() -> bool {
        true
    }
}

/// An error of this type turns into itself.
impl CoerceInto<core::num::TryFromIntError> for core::num::TryFromIntError {
    open spec fn spec_coerce(view: ()) -> () {
        view
    }

    proof fn lemma_coerce_can_occur() {
    }

    fn coerce_into(self) -> (r: core::num::TryFromIntError)
        ensures
            r == self,
    {
        self
    }
}

/// Turns an error that cannot exist into whatever the caller needs.
///
/// Trusted: matches on a value of `core::convert::Infallible`, a type without values, so
/// the call is never reached and nothing is claimed of its result.
#[verifier::external_body]
pub(crate) fn never<T>(err: Infallible) -> T {
    match err {
    }
}

/// Error type raised when unpacking fails.
///
/// It keeps apart the errors of the value's own validation (`Packable`) and those of the
/// byte source (`Unpacker`).
#[derive(Debug)]
pub enum UnpackError<T, U> {
    /// Semantic error: the bytes were read but do not describe a value.
    Packable(T),
    /// Error produced by the unpacker.
    Unpacker(U),
}

impl<T, U> UnpackError<T, U> {
    /// Wraps an error in the `Packable` variant.
    pub fn from_packable<E: Into<T>>(err: E) -> (r: Self)
        ensures
            r matches UnpackError::Packable(e) && call_ensures(E::into, (err,), e),
    {
        Self::Packable(err.into())
    }
}

impl<U> UnpackError<Infallible, U> {
    /// Gets the `Unpacker` variant, the only one such an error can be.
    pub fn into_unpacker_err(self) -> (r: U)
        ensures
            self matches UnpackError::Unpacker(e) ==> r == e,
    {
        match self {
            Self::Packable(err) => never(err),
            Self::Unpacker(err) => err,
        }
    }
}

impl<T> UnpackError<T, Infallible> {
    /// Gets the `Packable` variant, the only one such an error can be.
    pub fn into_packable_err(self) -> (r: T)
        ensures
            self matches UnpackError::Packable(e) ==> r == e,
    {
        match self {
            Self::Packable(err) => err,
            Self::Unpacker(err) => never(err),
        }
    }
}

/// The types that have the methods of [`UnpackErrorExt`]: the results whose error is an
/// [`UnpackError`], and no others.
pub trait Sealed {
}

impl<T, U, V> Sealed for Result<T, UnpackError<U, V>> {
}

/// Utility methods for results whose error is an [`UnpackError`].
///
/// Only `Result<T, UnpackError<U, V>>` has them.
pub trait UnpackErrorExt<T, U, V>: Sealed + Sized {
    /// The result itself.
    spec fn as_result(self) -> Result<T, UnpackError<U, V>>;

    /// Maps the `Packable` variant of the error with `f`, and leaves the rest as it is.
    fn map_packable_err<W, F: Fn(U) -> W>(self, f: F) -> (r: Result<T, UnpackError<W, V>>)
        requires
            self.as_result() matches Err(UnpackError::Packable(e)) ==> call_requires(f, (e,)),
        ensures
            match self.as_result() {
                Ok(v) => r == Ok::<T, UnpackError<W, V>>(v),
                Err(UnpackError::Packable(e)) => r matches Err(UnpackError::Packable(w))
                    && call_ensures(f, (e,), w),
                Err(UnpackError::Unpacker(e)) => r == Err::<T, UnpackError<W, V>>(
                    UnpackError::Unpacker(e),
                ),
            },
    ;

    /// Converts the `Packable` variant of the error with `Into`, and leaves the rest as it
    /// is.
    fn coerce<W>(self) -> (r: Result<T, UnpackError<W, V>>) where U: Into<W>
        ensures
            match self.as_result() {
                Ok(v) => r == Ok::<T, UnpackError<W, V>>(v),
                Err(UnpackError::Packable(e)) => r matches Err(UnpackError::Packable(w))
                    && call_ensures(U::into, (e,), w),
                Err(UnpackError::Unpacker(e)) => r == Err::<T, UnpackError<W, V>>(
                    UnpackError::Unpacker(e),
                ),
            },
    ;
}

impl<T, U, V> UnpackErrorExt<T, U, V> for Result<T, UnpackError<U, V>> {
    open spec fn as_result(self) -> Result<T, UnpackError<U, V>> {
        self
    }

    fn map_packable_err<W, F: Fn(U) -> W>(self, f: F) -> (r: Result<T, UnpackError<W, V>>) {
        match self {
            Ok(v) => Ok(v),
            Err(UnpackError::Packable(e)) => Err(UnpackError::Packable(f(e))),
            Err(UnpackError::Unpacker(e)) => Err(UnpackError::Unpacker(e)),
        }
    }

    fn coerce<W>(self) -> (r: Result<T, UnpackError<W, V>>) where U: Into<W> {
        match self {
            Ok(v) => Ok(v),
            Err(UnpackError::Packable(e)) => Err(UnpackError::Packable(e.into())),
            Err(UnpackError::Unpacker(e)) => Err(UnpackError::Unpacker(e)),
        }
    }
}

/// Error type raised when an unknown tag is found while unpacking.
#[derive(Debug)]
pub struct UnknownTagError<T>(pub T);

impl<T> ErrorView for UnknownTagError<T> {
    type View = T;

    open spec fn error_view(&self) -> T {
        self.0
    }

    open spec fn can_occur() -> bool {
        true
    }
}

/// An error of this type turns into itself.
impl<T> CoerceInto<UnknownTagError<T>> for UnknownTagError<T> {
    open spec fn spec_coerce(view: T) -> T {
        view
    }

    proof fn lemma_coerce_can_occur() {
    }

    fn coerce_into(self) -> (r: UnknownTagError<T>) {
        self
    }
}

/// Error type raised when a byte source has fewer bytes left than a read asks for.
#[derive(Debug)]
pub struct UnexpectedEOF {
    /// The required number of bytes.
    pub required: usize,
    /// The number of bytes the unpacker had.
    pub had: usize,
}

} // verus!
