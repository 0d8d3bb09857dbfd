//! Optional values: a tag byte, then the value if there is one.

use vstd::prelude::*;

use crate::error::{CoerceInto, ErrorView, UnpackError};
use crate::bool::{lemma_byte_decoding, lemma_byte_encoding};
use crate::packable::{Decoded, Packable};
use crate::packer::{lemma_accepted_twice, Packer};
use crate::unpacker::Unpacker;

verus! {

/// Error type raised when unpacking an `Option` fails.
#[derive(Debug)]
pub enum UnpackOptionError<E> {
    /// The tag byte is neither 0 nor 1.
    UnknownTag(u8),
    /// The value behind the tag 1 could not be unpacked.
    Inner(E),
}

impl<E: ErrorView> ErrorView for UnpackOptionError<E> {
    type View = UnpackOptionError<E::View>;

    open spec fn error_view(&self) -> UnpackOptionError<E::View> {
        match self {
            UnpackOptionError::UnknownTag(tag) => UnpackOptionError::UnknownTag(*tag),
            UnpackOptionError::Inner(e) => UnpackOptionError::Inner(e.error_view()),
        }
    }

    open spec fn can_occur() -> bool {
        true
    }
}

/// An error of this type turns into itself.
impl<E: ErrorView> CoerceInto<UnpackOptionError<E>> for UnpackOptionError<E> {
    open spec fn spec_coerce(view: UnpackOptionError<E::View>) -> UnpackOptionError<E::View> {
        view
    }

    proof fn lemma_coerce_can_occur() {
    }

    fn coerce_into(self) -> (r: UnpackOptionError<E>) {
        self
    }
}

/// `Option<T>`: the byte 0 for `None`; the byte 1 and the encoding of the value for `Some`.
impl<T: Packable> Packable for Option<T> {
    type UnpackError = UnpackOptionError<T::UnpackError>;

    type UnpackVisitor = T::UnpackVisitor;

    open spec fn valid(&self) -> bool {
        match self {
            None => true,
            Some(item) => item.valid(),
        }
    }

    open spec fn passes(&self, visitor: &T::UnpackVisitor) -> bool {
        match self {
            None => true,
            Some(item) => item.passes(visitor),
        }
    }

    open spec fn spec_pack(&self) -> Seq<u8> {
        match self {
            None => seq![0u8],
            Some(item) => seq![1u8] + item.spec_pack(),
        }
    }

    open spec fn spec_unpack(bytes: Seq<u8>, visitor: &T::UnpackVisitor, verify: bool) -> Decoded<
        Option<T::V>,
        UnpackOptionError<<T::UnpackError as ErrorView>::View>,
    > {
        if bytes.len() < 1 {
            Decoded::Short(1, bytes.len())
        } else if bytes[0] == 0 {
            Decoded::Done(None, 1)
        } else if bytes[0] == 1 {
            match T::spec_unpack(bytes.skip(1), visitor, verify) {
                Decoded::Done(v, n) => Decoded::Done(Some(v), n + 1),
                Decoded::Invalid(e) => Decoded::Invalid(UnpackOptionError::Inner(e)),
                Decoded::Short(required, had) => Decoded::Short(required, had),
            }
        } else {
            Decoded::Invalid(UnpackOptionError::UnknownTag(bytes[0]))
        }
    }

    proof fn lemma_round_trip(&self, rest: Seq<u8>, visitor: &T::UnpackVisitor, verify: bool) {
        match self {
            None => {},
            Some(item) => {
                item.lemma_round_trip(rest, visitor, verify);
                assert((self.spec_pack() + rest).skip(1) =~= item.spec_pack() + rest);
            },
        }
    }

    proof fn lemma_truncated(&self, len: nat, visitor: &T::UnpackVisitor, verify: bool) {
        match self {
            None => {},
            Some(item) => {
                if len >= 1 {
                    let cut = self.spec_pack().take(len as int);
                    assert(cut.skip(1) =~= item.spec_pack().take(len - 1));
                    item.lemma_truncated((len - 1) as nat, visitor, verify);
                }
            },
        }
    }

    proof fn lemma_invalid_can_occur(bytes: Seq<u8>, visitor: &T::UnpackVisitor, verify: bool) {
    }

    fn pack<P: Packer>(&self, packer: &mut P) -> (r: Result<(), P::Error>) {
        proof {
            lemma_byte_encoding(0);
            lemma_byte_encoding(1);
        }
        match self {
            None => 0u8.pack(packer),
            Some(item) => {
                let ghost before = *packer;
                1u8.pack(packer)?;
                let ghost between = *packer;
                let r = item.pack(packer);
                proof {
                    if r is Ok {
                        lemma_accepted_twice(&before, &between, packer, seq![1u8], item.spec_pack());
                    }
                }
                r
            },
        }
    }

    fn unpack<U: Unpacker, const VERIFY: bool>(
        unpacker: &mut U,
        visitor: &T::UnpackVisitor,
    ) -> (r: Result<Self, UnpackError<Self::UnpackError, U::Error>>) {
        proof {
            if unpacker.remaining().len() >= 1 {
                lemma_byte_decoding(unpacker.remaining());
            }
        }
        let ghost before = unpacker.remaining();
        let tag = match u8::unpack::<U, VERIFY>(unpacker, &()) {
            Ok(tag) => tag,
            Err(e) => {
                return Err(UnpackError::Unpacker(e.into_unpacker_err()));
            },
        };
        if tag == 0 {
            Ok(None)
        } else if tag == 1 {
            match T::unpack::<U, VERIFY>(unpacker, visitor) {
                Ok(item) => {
                    proof {
                        let n = T::spec_unpack(before.skip(1), visitor, VERIFY)->Done_1;
                        assert(before.skip(1).skip(n as int) =~= before.skip(n as int + 1));
                    }
                    Ok(Some(item))
                },
                Err(UnpackError::Packable(e)) => Err(
                    UnpackError::Packable(UnpackOptionError::Inner(e)),
                ),
                Err(UnpackError::Unpacker(e)) => Err(UnpackError::Unpacker(e)),
            }
        } else {
            Err(UnpackError::Packable(UnpackOptionError::UnknownTag(tag)))
        }
    }
}

} // verus!
