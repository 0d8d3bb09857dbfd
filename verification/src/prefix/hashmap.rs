use core::marker::PhantomData;
use std::collections::HashMap;
use std::hash::Hash;
use vstd::prelude::*;

use crate::error::{ErrorView, UnpackError};
use crate::bounded::Bounded;
use crate::hashmap::{
    know_listing, lemma_entries_unique_round_trip, lemma_hash_map_deep_view, listed, listing,
    pack_entries_listed, spec_unpack_entries_unique, unpack_entries_unique, HashKey,
};
use crate::le::{le_bytes, lemma_le_bytes_len};
use crate::map::{
    all_pass_entries, all_valid_entries, deep_values, entries_to_map, keys_of, lemma_deep_entries_to_map,
    lemma_entries_to_map_keys, lemma_entries_to_map_values, spec_pack_entries, passes_map, valid_map,
    UnpackMapError,
};
use crate::prefix::{lemma_len_round_trip, pack_len, unpack_len};
use crate::packable::{Decoded, Packable};
use crate::packer::{lemma_accepted_twice, Packer};
use crate::unpacker::Unpacker;
use crate::visitor::Narrow;

verus! {

/// A hash map whose size is within the range of the prefix type `B`, packed behind a length
/// prefix of that type.
#[derive(Debug, PartialEq, Eq)]
pub struct HashMapPrefix<K: Eq + Hash, V: PartialEq, B: Bounded> {
    inner: HashMap<K, V>,
    bounded: PhantomData<B>,
}

impl<K: Eq + Hash, V: PartialEq, B: Bounded> View for HashMapPrefix<K, V, B> {
    type V = Map<K, V>;

    closed spec fn view(&self) -> Map<K, V> {
        self.inner@
    }
}

impl<K: HashKey, V: DeepView + PartialEq, B: Bounded> DeepView for HashMapPrefix<K, V, B> {
    type V = Map<K, V::V>;

    open spec fn deep_view(&self) -> Map<K, V::V> {
        deep_values(self@)
    }
}

impl<K: Eq + Hash, V: PartialEq, B: Bounded> core::ops::Deref for HashMapPrefix<K, V, B> {
    type Target = HashMap<K, V>;

    fn deref(&self) -> (r: &HashMap<K, V>)
        ensures
            r@ == self@,
    {
        &self.inner
    }
}

impl<K: Eq + Hash, V: PartialEq, B: Bounded> HashMapPrefix<K, V, B> {
    #[verifier::type_invariant]
    spec fn in_range(self) -> bool {
        B::spec_min() <= self.inner@.dom().len() <= B::spec_max() && listed(&self.inner)
    }

    /// The map behind a value.
    pub closed spec fn inner(&self) -> HashMap<K, V> {
        self.inner
    }
}

impl<K: HashKey, V: PartialEq, B: Bounded> HashMapPrefix<K, V, B> {
    /// Wraps `map`, if the prefix type accepts its size.
    pub fn try_from(map: HashMap<K, V>) -> (r: Result<Self, B::LenError>)
        ensures
            match r {
                Ok(prefixed) => B::spec_min() <= map@.dom().len() <= B::spec_max() && prefixed@
                    == map@ && prefixed.inner() == map,
                Err(e) => !(B::spec_min() <= map@.dom().len() <= B::spec_max())
                    && B::is_len_error(e, map@.dom().len()),
            },
    {
        broadcast use vstd::std_specs::hash::group_hash_axioms;

        proof {
            K::lemma_hash_key();
        }
        know_listing(&map);
        match B::try_from_len(map.len()) {
            Ok(_) => Ok(HashMapPrefix { inner: map, bounded: PhantomData }),
            Err(e) => Err(e),
        }
    }

    /// Gives the map back.
    pub fn into_map(self) -> (r: HashMap<K, V>)
        ensures
            r == self.inner(),
            r@ == self@,
            B::spec_min() <= self@.dom().len() <= B::spec_max(),
            listed(&r),
    {
        proof {
            use_type_invariant(&self);
        }
        self.inner
    }
}

/// `HashMapPrefix<K, V, B>`: the number of entries as a `B`, then each key followed by its
/// value, in the order in which the map hands its entries out. Unpacking rejects a key that
/// was unpacked before.
impl<
    K: HashKey,
    V: Packable<UnpackVisitor: Narrow<K::UnpackVisitor>> + PartialEq,
    B: Bounded,
> Packable for HashMapPrefix<K, V, B> {
    type UnpackError = UnpackMapError<K, K::UnpackError, V::UnpackError, B::UnpackError>;

    type UnpackVisitor = V::UnpackVisitor;

    open spec fn valid(&self) -> bool {
        &&& B::spec_min() <= self@.dom().len() <= B::spec_max()
        &&& valid_map(self@)
        &&& listed(&self.inner())
        &&& self@ == self.inner()@
    }

    open spec fn passes(&self, visitor: &V::UnpackVisitor) -> bool {
        passes_map(self@, visitor)
    }

    open spec fn spec_pack(&self) -> Seq<u8> {
        le_bytes(self@.dom().len(), B::spec_width()) + spec_pack_entries(listing(&self.inner()))
    }

    open spec fn spec_unpack(bytes: Seq<u8>, visitor: &V::UnpackVisitor, verify: bool) -> Decoded<
        Map<K, V::V>,
        UnpackMapError<
            K,
            <K::UnpackError as ErrorView>::View,
            <V::UnpackError as ErrorView>::View,
            <B::UnpackError as ErrorView>::View,
        >,
    > {
        match B::spec_unpack(bytes, &(), verify) {
            Decoded::Done(prefix, n) => match spec_unpack_entries_unique::<
                K,
                V,
                <B::UnpackError as ErrorView>::View,
            >(bytes.skip(n as int), B::spec_len_of(prefix), visitor, verify) {
                Decoded::Done(entries, m) => Decoded::Done(entries_to_map(entries), n + m),
                Decoded::Invalid(e) => Decoded::Invalid(e),
                Decoded::Short(required, had) => Decoded::Short(required, had),
            },
            Decoded::Invalid(e) => Decoded::Invalid(UnpackMapError::Prefix(e)),
            Decoded::Short(required, had) => Decoded::Short(required, had),
        }
    }

    proof fn lemma_round_trip(&self, rest: Seq<u8>, visitor: &V::UnpackVisitor, verify: bool) {
        let entries = listing(&self.inner());
        lemma_entries_to_map_keys(entries);
        keys_of(entries).unique_seq_to_set();
        let width = B::spec_width();
        let bytes = self.spec_pack() + rest;
        assert(bytes =~= le_bytes(entries.len(), width) + (spec_pack_entries(entries) + rest));
        lemma_len_round_trip::<B>(entries.len(), spec_pack_entries(entries) + rest, verify);
        lemma_le_bytes_len(entries.len(), width);
        assert(bytes.skip(width as int) =~= spec_pack_entries(entries) + rest);
        assert(all_valid_entries(entries)) by {
            assert forall|i: int| 0 <= i < entries.len() implies (#[trigger] entries[i]).0.valid()
                && entries[i].1.valid() by {
                lemma_entries_to_map_values(entries, i);
                assert(self@.contains_key(entries[i].0));
                assert(self@[entries[i].0].valid());
            }
        }
        assert(all_pass_entries(entries, visitor)) by {
            assert forall|i: int| 0 <= i < entries.len() implies (#[trigger] entries[i]).0.passes(
                Narrow::<K::UnpackVisitor>::spec_narrow(visitor),
            ) && entries[i].1.passes(visitor) by {
                lemma_entries_to_map_values(entries, i);
                assert(self@.contains_key(entries[i].0));
                assert(self@[entries[i].0].passes(visitor));
            }
        }
        lemma_entries_unique_round_trip::<K, V, <B::UnpackError as ErrorView>::View>(
            entries,
            rest,
            visitor,
            verify,
        );
        lemma_deep_entries_to_map(entries);
    }

    proof fn lemma_truncated(&self, len: nat, visitor: &V::UnpackVisitor, verify: bool) {
        let entries = listing(&self.inner());
        lemma_entries_to_map_keys(entries);
        keys_of(entries).unique_seq_to_set();
        let count = entries.len();
        assert(all_valid_entries(entries)) by {
            assert forall|i: int| 0 <= i < entries.len() implies (#[trigger] entries[i]).0.valid()
                && entries[i].1.valid() by {
                lemma_entries_to_map_values(entries, i);
                assert(self@.contains_key(entries[i].0));
                assert(self@[entries[i].0].valid());
            }
        }
        assert(all_pass_entries(entries, visitor)) by {
            assert forall|i: int| 0 <= i < entries.len() implies (#[trigger] entries[i]).0.passes(
                Narrow::<K::UnpackVisitor>::spec_narrow(visitor),
            ) && entries[i].1.passes(visitor) by {
                lemma_entries_to_map_values(entries, i);
                assert(self@.contains_key(entries[i].0));
                assert(self@[entries[i].0].passes(visitor));
            }
        }
        let width = B::spec_width();
        let cut = self.spec_pack().take(len as int);
        lemma_le_bytes_len(count, width);
        if len < width {
            assert(cut =~= le_bytes(count, width).take(len as int));
            crate::prefix::lemma_len_truncated::<B>(count, len, verify);
        } else {
            let left = (len - width) as nat;
            let tail = spec_pack_entries(entries).take(left as int);
            assert(cut =~= le_bytes(count, width) + tail);
            lemma_len_round_trip::<B>(count, tail, verify);
            assert(cut.skip(width as int) =~= tail);
            crate::hashmap::lemma_entries_unique_truncated::<
                K,
                V,
                <B::UnpackError as ErrorView>::View,
            >(entries, left, visitor, verify);
        }
    }

    proof fn lemma_invalid_can_occur(bytes: Seq<u8>, visitor: &V::UnpackVisitor, verify: bool) {
    }

    fn pack<P: Packer>(&self, packer: &mut P) -> (r: Result<(), P::Error>) {
        broadcast use vstd::std_specs::hash::group_hash_axioms;

        proof {
            use_type_invariant(self);
            K::lemma_hash_key();
        }
        let ghost before = *packer;
        pack_len::<B, P>(self.inner.len(), packer)?;
        let ghost between = *packer;
        let r = pack_entries_listed(&self.inner, packer);
        proof {
            if r is Ok {
                lemma_accepted_twice(
                    &before,
                    &between,
                    packer,
                    le_bytes(self@.dom().len(), B::spec_width()),
                    spec_pack_entries(listing(&self.inner)),
                );
            }
        }
        r
    }

    fn unpack<U: Unpacker, const VERIFY: bool>(
        unpacker: &mut U,
        visitor: &V::UnpackVisitor,
    ) -> (r: Result<Self, UnpackError<Self::UnpackError, U::Error>>) {
        let ghost bytes = unpacker.remaining();
        let ghost first = B::spec_unpack(bytes, &(), VERIFY);
        let len = match unpack_len::<B, U, VERIFY>(unpacker) {
            Ok(len) => len,
            Err(UnpackError::Packable(e)) => {
                let err: UnpackMapError<K, K::UnpackError, V::UnpackError, B::UnpackError> =
                    UnpackMapError::Prefix(e);
                proof {
                    assert(err.error_view() == UnpackMapError::<
                        K,
                        <K::UnpackError as ErrorView>::View,
                        <V::UnpackError as ErrorView>::View,
                        <B::UnpackError as ErrorView>::View,
                    >::Prefix(e.error_view()));
                }
                return Err(UnpackError::Packable(err));
            },
            Err(UnpackError::Unpacker(e)) => {
                return Err(UnpackError::Unpacker(e));
            },
        };
        match unpack_entries_unique::<K, V, B::UnpackError, U, VERIFY>(unpacker, visitor, len) {
            Ok(map) => {
                proof {
                    let n = first->Done_1;
                    let found = spec_unpack_entries_unique::<
                        K,
                        V,
                        <B::UnpackError as ErrorView>::View,
                    >(bytes.skip(n as int), len as nat, visitor, VERIFY);
                    let m = found->Done_1;
                    assert(bytes.skip(n as int).skip(m as int) =~= bytes.skip(n as int + m));
                    lemma_hash_map_deep_view(&map);
                }
                Ok(HashMapPrefix { inner: map, bounded: PhantomData })
            },
            Err(e) => Err(e),
        }
    }
}

} // verus!
