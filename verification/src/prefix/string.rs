use core::marker::PhantomData;
use vstd::prelude::*;
use vstd::utf8::encode_utf8;

use crate::error::{ErrorView, UnpackError};
use crate::bounded::Bounded;
use crate::le::{le_bytes, lemma_le_bytes_len};
use crate::prefix::{lemma_len_round_trip, pack_len, unpack_len, UnpackPrefixError};
use crate::string::{
    lemma_utf8_round_trip, lemma_utf8_truncated, spec_unpack_utf8, unpack_utf8,
};
use crate::packable::{Decoded, Packable};
use crate::packer::{lemma_accepted_twice, Packer};
use crate::unpacker::Unpacker;

verus! {

/// A string whose length in bytes is within the range of the prefix type `B`, packed behind a
/// length prefix of that type.
#[derive(Debug, PartialEq, Eq, PartialOrd, Ord, Hash)]
pub struct StringPrefix<B: Bounded> {
    inner: String,
    bounded: PhantomData<B>,
}

impl<B: Bounded> Clone for StringPrefix<B> {
    fn clone(&self) -> (r: Self)
        ensures
            r@ == self@,
    {
        proof {
            use_type_invariant(self);
        }
        StringPrefix { inner: self.inner.clone(), bounded: PhantomData }
    }
}

impl<B: Bounded> View for StringPrefix<B> {
    type V = Seq<char>;

    closed spec fn view(&self) -> Seq<char> {
        self.inner@
    }
}

impl<B: Bounded> DeepView for StringPrefix<B> {
    type V = Seq<char>;

    open spec fn deep_view(&self) -> Seq<char> {
        self@
    }
}

impl<B: Bounded> core::ops::Deref for StringPrefix<B> {
    type Target = String;

    fn deref(&self) -> (r: &String)
        ensures
            r@ == self@,
    {
        &self.inner
    }
}

impl<B: Bounded> StringPrefix<B> {
    #[verifier::type_invariant]
    spec fn in_range(self) -> bool {
        B::spec_min() <= encode_utf8(self.inner@).len() <= B::spec_max()
    }

    /// Wraps `string`, if the prefix type accepts its length in bytes.
    pub fn try_from(string: String) -> (r: Result<Self, B::LenError>)
        ensures
            match r {
                Ok(prefixed) => prefixed@ == string@ && prefixed.valid(),
                Err(e) => !(B::spec_min() <= encode_utf8(string@).len() <= B::spec_max())
                    && B::is_len_error(e, encode_utf8(string@).len()),
            },
    {
        match B::try_from_len(string.as_str().as_bytes().len()) {
            Ok(_) => Ok(StringPrefix { inner: string, bounded: PhantomData }),
            Err(e) => Err(e),
        }
    }

    /// Gives the string back.
    pub fn into_string(self) -> (r: String)
        ensures
            r@ == self@,
            self.valid(),
    {
        proof {
            use_type_invariant(&self);
        }
        self.inner
    }
}

/// `StringPrefix<B>`: the number of bytes of the UTF-8 encoding as a `B`, then the bytes.
impl<B: Bounded> Packable for StringPrefix<B> {
    type UnpackError = UnpackPrefixError<std::string::FromUtf8Error, B::UnpackError>;

    type UnpackVisitor = ();

    open spec fn valid(&self) -> bool {
        B::spec_min() <= encode_utf8(self@).len() <= B::spec_max()
    }

    open spec fn passes(&self, visitor: &()) -> bool {
        true
    }

    open spec fn spec_pack(&self) -> Seq<u8> {
        le_bytes(encode_utf8(self@).len(), B::spec_width()) + encode_utf8(self@)
    }

    open spec fn spec_unpack(bytes: Seq<u8>, visitor: &(), verify: bool) -> Decoded<
        Seq<char>,
        UnpackPrefixError<(), <B::UnpackError as ErrorView>::View>,
    > {
        match B::spec_unpack(bytes, &(), verify) {
            Decoded::Done(prefix, n) => match spec_unpack_utf8::<
                <B::UnpackError as ErrorView>::View,
            >(bytes.skip(n as int), B::spec_len_of(prefix), verify) {
                Decoded::Done(chars, m) => Decoded::Done(chars, n + m),
                Decoded::Invalid(e) => Decoded::Invalid(e),
                Decoded::Short(required, had) => Decoded::Short(required, had),
            },
            Decoded::Invalid(e) => Decoded::Invalid(UnpackPrefixError::Prefix(e)),
            Decoded::Short(required, had) => Decoded::Short(required, had),
        }
    }

    proof fn lemma_round_trip(&self, rest: Seq<u8>, visitor: &(), verify: bool) {
        let encoded = encode_utf8(self@);
        let width = B::spec_width();
        let bytes = self.spec_pack() + rest;
        assert(bytes =~= le_bytes(encoded.len(), width) + (encoded + rest));
        lemma_len_round_trip::<B>(encoded.len(), encoded + rest, verify);
        lemma_le_bytes_len(encoded.len(), width);
        assert(bytes.skip(width as int) =~= encoded + rest);
        lemma_utf8_round_trip::<<B::UnpackError as ErrorView>::View>(self@, rest, verify);
    }

    proof fn lemma_truncated(&self, len: nat, visitor: &(), verify: bool) {
        let encoded = encode_utf8(self@);
        let count = encoded.len();
        let width = B::spec_width();
        let cut = self.spec_pack().take(len as int);
        lemma_le_bytes_len(count, width);
        if len < width {
            assert(cut =~= le_bytes(count, width).take(len as int));
            crate::prefix::lemma_len_truncated::<B>(count, len, verify);
        } else {
            let left = (len - width) as nat;
            let tail = encoded.take(left as int);
            assert(cut =~= le_bytes(count, width) + tail);
            lemma_len_round_trip::<B>(count, tail, verify);
            assert(cut.skip(width as int) =~= tail);
            lemma_utf8_truncated::<<B::UnpackError as ErrorView>::View>(self@, left, verify);
        }
    }

    proof fn lemma_invalid_can_occur(bytes: Seq<u8>, visitor: &(), verify: bool) {
        assert(<std::string::FromUtf8Error as ErrorView>::can_occur());
    }

    fn pack<P: Packer>(&self, packer: &mut P) -> (r: Result<(), P::Error>) {
        let bytes = self.inner.as_str().as_bytes();
        let ghost before = *packer;
        pack_len::<B, P>(bytes.len(), packer)?;
        let ghost between = *packer;
        let r = packer.pack_bytes(bytes);
        proof {
            if r is Ok {
                lemma_accepted_twice(
                    &before,
                    &between,
                    packer,
                    le_bytes(bytes@.len(), B::spec_width()),
                    bytes@,
                );
            }
        }
        r
    }

    fn unpack<U: Unpacker, const VERIFY: bool>(unpacker: &mut U, visitor: &()) -> (r: Result<
        Self,
        UnpackError<Self::UnpackError, U::Error>,
    >) {
        let ghost bytes = unpacker.remaining();
        let ghost first = B::spec_unpack(bytes, &(), VERIFY);
        let len = match unpack_len::<B, U, VERIFY>(unpacker) {
            Ok(len) => len,
            Err(UnpackError::Packable(e)) => {
                let err: UnpackPrefixError<std::string::FromUtf8Error, B::UnpackError> =
                    UnpackPrefixError::Prefix(e);
                proof {
                    assert(err.error_view() == UnpackPrefixError::<
                        (),
                        <B::UnpackError as ErrorView>::View,
                    >::Prefix(e.error_view()));
                    assert(Self::spec_unpack(bytes, visitor, VERIFY) == Decoded::<
                        Seq<char>,
                        UnpackPrefixError<(), <B::UnpackError as ErrorView>::View>,
                    >::Invalid(UnpackPrefixError::Prefix(first->Invalid_0)));
                }
                return Err(UnpackError::Packable(err));
            },
            Err(UnpackError::Unpacker(e)) => {
                return Err(UnpackError::Unpacker(e));
            },
        };
        match unpack_utf8::<B::UnpackError, U, VERIFY>(unpacker, len) {
            Ok(string) => {
                proof {
                    let n = first->Done_1;
                    let m = spec_unpack_utf8::<<B::UnpackError as ErrorView>::View>(
                        bytes.skip(n as int),
                        len as nat,
                        VERIFY,
                    )->Done_1;
                    assert(bytes.skip(n as int).skip(m as int) =~= bytes.skip(n as int + m));
                }
                Ok(StringPrefix { inner: string, bounded: PhantomData })
            },
            Err(e) => Err(e),
        }
    }
}

} // verus!
