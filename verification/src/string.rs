//! Strings: the number of bytes, then the bytes of the UTF-8 encoding.

use vstd::prelude::*;
use vstd::utf8::{decode_utf8, encode_utf8, valid_utf8};

use crate::error::{CoerceInto, ErrorView, UnpackError};
use crate::items::{
    lemma_items_round_trip, lemma_items_truncated, lemma_pack_bytes_as_items,
    lemma_unpack_bytes_as_items, spec_unpack_items, unpack_items,
};
use crate::le::{le_bytes, lemma_le_bytes_len};
use crate::prefix::UnpackPrefixError;
use crate::packable::{Decoded, Packable};
use crate::packer::{accepted, lemma_accepted_twice, Packer};
use crate::unpacker::{advanced, Unpacker};

verus! {

/// The error of bytes that are no UTF-8, as std has it.
#[verifier::external_type_specification]
#[verifier::external_body]
pub struct ExFromUtf8Error(std::string::FromUtf8Error);

impl ErrorView for std::string::FromUtf8Error {
    type View = ();

    open spec fn error_view(&self) -> () {
        ()
    }

    open spec fn can_occur() -> bool {
        true
    }
}

/// An error of this type turns into itself.
impl CoerceInto<std::string::FromUtf8Error> for std::string::FromUtf8Error {
    open spec fn spec_coerce(view: ()) -> () {
        view
    }

    proof fn lemma_coerce_can_occur() {
    }

    fn coerce_into(self) -> (r: std::string::FromUtf8Error)
        ensures
            r == self,
    {
        self
    }
}

/// Turns bytes into the string that they encode.
///
/// Trusted: `String::from_utf8` of std, which succeeds exactly on valid UTF-8 and then gives
/// the string of the characters that the bytes encode.
#[verifier::external_body]
pub(crate) fn string_from_utf8(bytes: Vec<u8>) -> (r: Result<String, std::string::FromUtf8Error>)
    ensures
        match r {
            Ok(string) => valid_utf8(bytes@) && string@ == decode_utf8(bytes@),
            Err(_) => !valid_utf8(bytes@),
        },
{
    String::from_utf8(bytes)
}

/// What `bytes` decode to as `count` bytes of UTF-8, read one by one: the characters, or the
/// error of bytes that are no UTF-8, or of too few bytes.
pub open spec fn spec_unpack_utf8<P>(bytes: Seq<u8>, count: nat, verify: bool) -> Decoded<
    Seq<char>,
    UnpackPrefixError<(), P>,
> {
    match spec_unpack_items::<u8>(bytes, count, &(), verify) {
        Decoded::Done(encoded, n) => if valid_utf8(encoded) {
            Decoded::Done(decode_utf8(encoded), n)
        } else {
            Decoded::Invalid(UnpackPrefixError::Item(()))
        },
        Decoded::Invalid(e) => Decoded::Invalid(UnpackPrefixError::Item(())),
        Decoded::Short(required, had) => Decoded::Short(required, had),
    }
}

/// Unpacking the UTF-8 encoding of characters gives the characters back.
pub proof fn lemma_utf8_round_trip<P>(chars: Seq<char>, rest: Seq<u8>, verify: bool)
    ensures
        spec_unpack_utf8::<P>(encode_utf8(chars) + rest, encode_utf8(chars).len(), verify)
            == Decoded::<Seq<char>, UnpackPrefixError<(), P>>::Done(
            chars,
            encode_utf8(chars).len(),
        ),
{
    let encoded = encode_utf8(chars);
    lemma_pack_bytes_as_items(encoded);
    lemma_items_round_trip::<u8>(encoded, rest, &(), verify);
    vstd::utf8::encode_utf8_valid_utf8(chars);
    vstd::utf8::encode_utf8_decode_utf8(chars);
}

/// Unpacking the UTF-8 encoding of characters cut short fails for want of bytes.
pub proof fn lemma_utf8_truncated<P>(chars: Seq<char>, len: nat, verify: bool)
    requires
        len < encode_utf8(chars).len(),
    ensures
        spec_unpack_utf8::<P>(encode_utf8(chars).take(len as int), encode_utf8(chars).len(), verify)
            is Short,
{
    let encoded = encode_utf8(chars);
    lemma_pack_bytes_as_items(encoded);
    lemma_items_truncated::<u8>(encoded, len, &(), verify);
}

/// Unpacks `count` bytes, one by one, and the string that they encode.
pub fn unpack_utf8<P: ErrorView, U: Unpacker, const VERIFY: bool>(
    unpacker: &mut U,
    count: u64,
) -> (r: Result<String, UnpackError<UnpackPrefixError<std::string::FromUtf8Error, P>, U::Error>>)
    ensures
        match spec_unpack_utf8::<P::View>(old(unpacker).remaining(), count as nat, VERIFY) {
            Decoded::Done(chars, n) => {
                &&& r matches Ok(string) && string@ == chars
                &&& encode_utf8(chars).len() == count
                &&& advanced(old(unpacker), final(unpacker), n)
            },
            Decoded::Invalid(e) => r matches Err(UnpackError::Packable(x)) && x.error_view() == e,
            Decoded::Short(required, had) => r matches Err(UnpackError::Unpacker(x)) && U::is_eof(
                x,
                required,
                had,
            ),
        },
{
    proof {
        lemma_unpack_bytes_as_items(unpacker.remaining(), count as nat, VERIFY);
    }
    let encoded = match unpack_items::<u8, U, VERIFY>(unpacker, &(), count) {
        Ok(encoded) => encoded,
        Err(UnpackError::Unpacker(e)) => {
            return Err(UnpackError::Unpacker(e));
        },
        Err(UnpackError::Packable(_)) => vstd::pervasive::unreached(),
    };
    let ghost raw = encoded@;
    proof {
        lemma_pack_bytes_as_items(raw);
    }
    match string_from_utf8(encoded) {
        Ok(string) => {
            proof {
                vstd::utf8::decode_utf8_encode_utf8(raw);
            }
            Ok(string)
        },
        Err(e) => {
            let err: UnpackPrefixError<std::string::FromUtf8Error, P> = UnpackPrefixError::Item(e);
            proof {
                assert(err.error_view() == UnpackPrefixError::<(), P::View>::Item(()));
            }
            Err(UnpackError::Packable(err))
        },
    }
}

/// `String`: the number of bytes of its UTF-8 encoding as a `u64`, then the bytes.
impl Packable for String {
    type UnpackError = UnpackPrefixError<std::string::FromUtf8Error, core::num::TryFromIntError>;

    type UnpackVisitor = ();

    open spec fn valid(&self) -> bool {
        encode_utf8(self@).len() <= usize::MAX
    }

    open spec fn passes(&self, visitor: &()) -> bool {
        true
    }

    open spec fn spec_pack(&self) -> Seq<u8> {
        le_bytes(encode_utf8(self@).len(), 8) + encode_utf8(self@)
    }

    open spec fn spec_unpack(bytes: Seq<u8>, visitor: &(), verify: bool) -> Decoded<
        Seq<char>,
        UnpackPrefixError<(), ()>,
    > {
        match usize::spec_unpack(bytes, &(), verify) {
            Decoded::Done(count, n) => match spec_unpack_utf8::<()>(
                bytes.skip(n as int),
                count as nat,
                verify,
            ) {
                Decoded::Done(chars, m) => Decoded::Done(chars, n + m),
                Decoded::Invalid(e) => Decoded::Invalid(e),
                Decoded::Short(required, had) => Decoded::Short(required, had),
            },
            Decoded::Invalid(e) => Decoded::Invalid(UnpackPrefixError::Prefix(e)),
            Decoded::Short(required, had) => Decoded::Short(required, had),
        }
    }

    proof fn lemma_round_trip(&self, rest: Seq<u8>, visitor: &(), verify: bool) {
        let encoded = encode_utf8(self@);
        let count = encoded.len() as usize;
        let bytes = self.spec_pack() + rest;
        assert(bytes =~= count.spec_pack() + (encoded + rest));
        count.lemma_round_trip(encoded + rest, &(), verify);
        lemma_le_bytes_len(encoded.len(), 8);
        assert(bytes.skip(8) =~= encoded + rest);
        lemma_utf8_round_trip::<()>(self@, rest, verify);
    }

    proof fn lemma_truncated(&self, len: nat, visitor: &(), verify: bool) {
        let encoded = encode_utf8(self@);
        let count = encoded.len() as usize;
        let cut = self.spec_pack().take(len as int);
        lemma_le_bytes_len(encoded.len(), 8);
        if len < 8 {
            assert(cut =~= count.spec_pack().take(len as int));
            count.lemma_truncated(len, &(), verify);
        } else {
            let left = (len - 8) as nat;
            assert(cut =~= count.spec_pack() + encoded.take(left as int));
            count.lemma_round_trip(encoded.take(left as int), &(), verify);
            assert(cut.skip(8) =~= encoded.take(left as int));
            lemma_utf8_truncated::<()>(self@, left, verify);
        }
    }

    proof fn lemma_invalid_can_occur(bytes: Seq<u8>, visitor: &(), verify: bool) {
    }

    fn pack<P: Packer>(&self, packer: &mut P) -> (r: Result<(), P::Error>) {
        let bytes = self.as_str().as_bytes();
        let ghost before = *packer;
        bytes.len().pack(packer)?;
        let ghost between = *packer;
        let r = packer.pack_bytes(bytes);
        proof {
            if r is Ok {
                lemma_accepted_twice(&before, &between, packer, le_bytes(bytes@.len(), 8), bytes@);
            }
        }
        r
    }

    fn unpack<U: Unpacker, const VERIFY: bool>(unpacker: &mut U, visitor: &()) -> (r: Result<
        Self,
        UnpackError<Self::UnpackError, U::Error>,
    >) {
        let ghost bytes = unpacker.remaining();
        let count = match usize::unpack::<U, VERIFY>(unpacker, &()) {
            Ok(count) => count,
            Err(UnpackError::Packable(e)) => {
                return Err(UnpackError::Packable(UnpackPrefixError::Prefix(e)));
            },
            Err(UnpackError::Unpacker(e)) => {
                return Err(UnpackError::Unpacker(e));
            },
        };
        let r = unpack_utf8::<core::num::TryFromIntError, U, VERIFY>(unpacker, count as u64);
        proof {
            if r is Ok {
                let m = spec_unpack_utf8::<()>(bytes.skip(8), count as nat, VERIFY)->Done_1;
                assert(bytes.skip(8).skip(m as int) =~= bytes.skip(8 + m as int));
            }
        }
        r
    }
}

} // verus!
