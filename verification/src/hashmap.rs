//! Hash maps: the number of entries, then each key followed by its value, in the order in
//! which the map hands its entries out.

use std::collections::HashMap;
use std::hash::Hash;
use vstd::prelude::*;
use vstd::std_specs::hash::{into_iter, obeys_key_model, spec_hash_map_iter};
use vstd::std_specs::iter::IteratorSpec;

use crate::error::{ErrorView, UnpackError};
use crate::le::{le_bytes, lemma_le_bytes_len};
use crate::map::{
    all_pass_entries, all_valid_entries, deep_entries, deep_values, entries_to_map, keys_of,
    lemma_deep_entries_to_map, lemma_entries_to_map_keys, lemma_entries_to_map_values,
    lemma_pack_entries_push, lemma_pack_entries_take, lemma_valid_entries_to_map, lists_map,
    passes_map, spec_pack_entries, valid_map, UnpackMapError,
};
use crate::packable::{Decoded, Packable};
use crate::packer::{accepted, lemma_accepted_twice, Packer};
use crate::unpacker::{advanced, Unpacker};
use crate::visitor::Narrow;

verus! {

/// A type whose values can be the keys of a hash map.
///
/// Equal values have equal hashes, two values are equal only if they are the same value, and
/// a value is its own deep view.
pub trait HashKey: Packable + Eq + Hash + DeepView<V = Self> {
    /// The hashes and the equality of the type are what std's hash maps take them to be, and
    /// a value is its own deep view.
    proof fn lemma_hash_key()
        ensures
            obeys_key_model::<Self>(),
            forall|x: Self| #[trigger] x.deep_view() == x,
    ;
}

/// The entries of a hash map in the order in which the map hands them out.
pub open spec fn listing<K, V>(map: &HashMap<K, V>) -> Seq<(K, V)> {
    into_iter(spec_hash_map_iter(map))
}

/// Whether the order in which the map hands its entries out is known to list each entry of
/// the map once. It is, of every map: [`know_listing`] tells so.
pub open spec fn listed<K, V>(map: &HashMap<K, V>) -> bool {
    &&& keys_of(listing(map)).no_duplicates()
    &&& entries_to_map(listing(map)) == map@
}

/// The entries that references list.
pub open spec fn unref_entries<K, V>(refs: Seq<(&K, &V)>) -> Seq<(K, V)> {
    Seq::new(refs.len(), |i: int| (*refs[i].0, *refs[i].1))
}

/// Entries that list each entry of a map once have no key twice, and make up the map.
pub proof fn lemma_listing<K, V>(refs: Seq<(&K, &V)>, map: Map<K, V>)
    requires
        lists_map(refs, map),
        refs.no_duplicates(),
    ensures
        keys_of(unref_entries(refs)).no_duplicates(),
        entries_to_map(unref_entries(refs)) == map,
{
    let entries = unref_entries(refs);
    let keys = keys_of(entries);
    assert forall|i: int, j: int| 0 <= i < keys.len() && 0 <= j < keys.len() && i != j implies keys[i]
        != keys[j] by {
        if keys[i] == keys[j] {
            assert(map.contains_key(*refs[i].0) && map[*refs[i].0] == *refs[i].1);
            assert(map.contains_key(*refs[j].0) && map[*refs[j].0] == *refs[j].1);
            assert(refs[i] == refs[j]);
        }
    }
    lemma_entries_to_map_keys(entries);
    assert forall|k: K| entries_to_map(entries).contains_key(k) <==> map.contains_key(k) by {
        if keys.contains(k) {
            let j = choose|j: int| 0 <= j < keys.len() && keys[j] == k;
            assert(map.contains_key(*refs[j].0));
        }
        if map.contains_key(k) {
            assert(refs.contains((&k, &map[k])));
            let j = choose|j: int| 0 <= j < refs.len() && refs[j] == (&k, &map[k]);
            assert(keys[j] == k);
        }
    }
    assert forall|k: K| map.contains_key(k) implies #[trigger] entries_to_map(entries)[k]
        == map[k] by {
        assert(keys.to_set().contains(k));
        assert(keys.contains(k));
        let j = choose|j: int| 0 <= j < keys.len() && keys[j] == k;
        lemma_entries_to_map_values(entries, j);
        assert(map.contains_key(*refs[j].0) && map[*refs[j].0] == *refs[j].1);
    }
    assert(entries_to_map(entries) =~= map);
}

/// Lets the caller know that the order in which the map hands its entries out lists each
/// entry of the map once.
pub fn know_listing<K: HashKey, V>(map: &HashMap<K, V>)
    ensures
        listed(map),
{
    broadcast use vstd::std_specs::hash::group_hash_axioms;

    proof {
        K::lemma_hash_key();
    }
    let it = map.iter();
    proof {
        vstd::std_specs::hash::axiom_spec_hash_map_iter(map);
        let refs = it.remaining();
        assert(unref_entries(refs) =~= refs.unref());
        lemma_listing(refs, map@);
    }
}

/// The deep view of a hash map whose keys are hash keys: the same keys, with the deep views
/// of the values.
pub proof fn lemma_hash_map_deep_view<K: HashKey, V: DeepView>(map: &HashMap<K, V>)
    ensures
        map.deep_view() == deep_values(map@),
{
    broadcast use vstd::std_specs::hash::group_hash_axioms;

    K::lemma_hash_key();
    assert(vstd::relations::injective(|k: K| k.deep_view()));
    vstd::std_specs::hash::lemma_hashmap_deepview_properties(*map);
    assert forall|k: K| map.deep_view().contains_key(k) <==> map@.contains_key(k) by {
        if map.deep_view().contains_key(k) {
            let orig = choose|orig: K| orig.deep_view() == k && #[trigger] map@.contains_key(orig);
            assert(orig == k);
        }
        if map@.contains_key(k) {
            assert(map.deep_view().contains_key(k.deep_view()));
        }
    }
    assert forall|k: K| map@.contains_key(k) implies map.deep_view()[k] == map@[k].deep_view() by {
        assert(map.deep_view()[k.deep_view()] == map@[k].deep_view());
    }
    assert(map.deep_view() =~= deep_values(map@));
}

/// What `bytes` decode to as `count` entries of which no two have the same key: the entries
/// and the number of bytes they take together, or what the first entry that fails comes to.
/// A key is held against the keys before it as soon as it is read, before its value.
pub open spec fn spec_unpack_entries_unique<
    K: HashKey,
    V: Packable<UnpackVisitor: Narrow<K::UnpackVisitor>>,
    P,
>(bytes: Seq<u8>, count: nat, visitor: &V::UnpackVisitor, verify: bool) -> Decoded<
    Seq<(K, V::V)>,
    UnpackMapError<K, <K::UnpackError as ErrorView>::View, <V::UnpackError as ErrorView>::View, P>,
>
    decreases count,
{
    if count == 0 {
        Decoded::Done(Seq::empty(), 0)
    } else {
        match spec_unpack_entries_unique::<K, V, P>(bytes, (count - 1) as nat, visitor, verify) {
            Decoded::Done(entries, n) => match K::spec_unpack(
                bytes.skip(n as int),
                Narrow::<K::UnpackVisitor>::spec_narrow(visitor),
                verify,
            ) {
                Decoded::Done(key, m) => if keys_of(entries).contains(key) {
                    Decoded::Invalid(UnpackMapError::DuplicateKey(key))
                } else {
                    match V::spec_unpack(bytes.skip(n as int + m), visitor, verify) {
                        Decoded::Done(value, l) => Decoded::Done(
                            entries.push((key, value)),
                            n + m + l,
                        ),
                        Decoded::Invalid(e) => Decoded::Invalid(UnpackMapError::Value(e)),
                        Decoded::Short(required, had) => Decoded::Short(required, had),
                    }
                },
                Decoded::Invalid(e) => Decoded::Invalid(UnpackMapError::Key(e)),
                Decoded::Short(required, had) => Decoded::Short(required, had),
            },
            Decoded::Invalid(e) => Decoded::Invalid(e),
            Decoded::Short(required, had) => Decoded::Short(required, had),
        }
    }
}

/// Once an entry fails, the run fails in the same way, however many entries are asked for.
pub proof fn lemma_entries_unique_failure_stays<
    K: HashKey,
    V: Packable<UnpackVisitor: Narrow<K::UnpackVisitor>>,
    P,
>(bytes: Seq<u8>, failed: nat, count: nat, visitor: &V::UnpackVisitor, verify: bool)
    requires
        failed <= count,
        !(spec_unpack_entries_unique::<K, V, P>(bytes, failed, visitor, verify) is Done),
    ensures
        spec_unpack_entries_unique::<K, V, P>(bytes, count, visitor, verify)
            == spec_unpack_entries_unique::<K, V, P>(bytes, failed, visitor, verify),
    decreases count,
{
    if failed < count {
        lemma_entries_unique_failure_stays::<K, V, P>(
            bytes,
            failed,
            (count - 1) as nat,
            visitor,
            verify,
        );
    }
}

/// Unpacking the encodings of valid entries that pass the checks, of which no two have the
/// same key, gives the entries back.
pub proof fn lemma_entries_unique_round_trip<
    K: HashKey,
    V: Packable<UnpackVisitor: Narrow<K::UnpackVisitor>>,
    P,
>(entries: Seq<(K, V)>, rest: Seq<u8>, visitor: &V::UnpackVisitor, verify: bool)
    requires
        all_valid_entries(entries),
        all_pass_entries(entries, visitor),
        keys_of(entries).no_duplicates(),
    ensures
        spec_unpack_entries_unique::<K, V, P>(
            spec_pack_entries(entries) + rest,
            entries.len(),
            visitor,
            verify,
        ) == Decoded::<
            Seq<(K, V::V)>,
            UnpackMapError<
                K,
                <K::UnpackError as ErrorView>::View,
                <V::UnpackError as ErrorView>::View,
                P,
            >,
        >::Done(deep_entries(entries), spec_pack_entries(entries).len()),
    decreases entries.len(),
{
    K::lemma_hash_key();
    if entries.len() > 0 {
        let front = entries.drop_last();
        let (key, value) = entries.last();
        let bytes = spec_pack_entries(entries) + rest;
        assert(bytes =~= spec_pack_entries(front) + (key.spec_pack() + value.spec_pack() + rest));
        assert(keys_of(front) =~= keys_of(entries).take(entries.len() - 1));
        lemma_entries_unique_round_trip::<K, V, P>(
            front,
            key.spec_pack() + value.spec_pack() + rest,
            visitor,
            verify,
        );
        let n = spec_pack_entries(front).len();
        assert(bytes.skip(n as int) =~= key.spec_pack() + (value.spec_pack() + rest));
        key.lemma_round_trip(value.spec_pack() + rest, Narrow::<K::UnpackVisitor>::spec_narrow(visitor), verify);
        let m = key.spec_pack().len();
        assert(bytes.skip(n as int + m) =~= value.spec_pack() + rest);
        value.lemma_round_trip(rest, visitor, verify);
        assert(key.deep_view() == key);
        assert((entries.len() - 1) as nat == front.len());
        assert(keys_of(deep_entries(front)) =~= keys_of(front));
        assert(!keys_of(front).contains(key)) by {
            if keys_of(front).contains(key) {
                let j = choose|j: int| 0 <= j < front.len() && keys_of(front)[j] == key;
                assert(keys_of(entries)[j] == keys_of(entries)[entries.len() - 1]);
            }
        }
        assert(deep_entries(front).push((key, value.deep_view())) =~= deep_entries(entries));
    } else {
        assert(deep_entries(entries) =~= Seq::<(K, V::V)>::empty());
    }
}

/// Unpacking the encodings of valid entries that pass the checks, of which no two have the
/// same key, cut short fails for want of bytes.
pub proof fn lemma_entries_unique_truncated<
    K: HashKey,
    V: Packable<UnpackVisitor: Narrow<K::UnpackVisitor>>,
    P,
>(entries: Seq<(K, V)>, len: nat, visitor: &V::UnpackVisitor, verify: bool)
    requires
        all_valid_entries(entries),
        all_pass_entries(entries, visitor),
        keys_of(entries).no_duplicates(),
        len < spec_pack_entries(entries).len(),
    ensures
        spec_unpack_entries_unique::<K, V, P>(
            spec_pack_entries(entries).take(len as int),
            entries.len(),
            visitor,
            verify,
        ) is Short,
    decreases entries.len(),
{
    K::lemma_hash_key();
    let front = entries.drop_last();
    let (key, value) = entries.last();
    let done = spec_pack_entries(front);
    let cut = spec_pack_entries(entries).take(len as int);
    assert(keys_of(front) =~= keys_of(entries).take(entries.len() - 1));
    assert((entries.len() - 1) as nat == front.len());
    if len < done.len() {
        assert(cut =~= done.take(len as int));
        lemma_entries_unique_truncated::<K, V, P>(front, len, visitor, verify);
        lemma_entries_unique_failure_stays::<K, V, P>(
            cut,
            front.len(),
            entries.len(),
            visitor,
            verify,
        );
    } else if len < done.len() + key.spec_pack().len() {
        let left = (len - done.len()) as nat;
        assert(cut =~= done + key.spec_pack().take(left as int));
        lemma_entries_unique_round_trip::<K, V, P>(
            front,
            key.spec_pack().take(left as int),
            visitor,
            verify,
        );
        assert(cut.skip(done.len() as int) =~= key.spec_pack().take(left as int));
        key.lemma_truncated(left, Narrow::<K::UnpackVisitor>::spec_narrow(visitor), verify);
    } else {
        let left = (len - done.len() - key.spec_pack().len()) as nat;
        let tail = value.spec_pack().take(left as int);
        assert(cut =~= done + (key.spec_pack() + tail));
        lemma_entries_unique_round_trip::<K, V, P>(front, key.spec_pack() + tail, visitor, verify);
        assert(cut.skip(done.len() as int) =~= key.spec_pack() + tail);
        key.lemma_round_trip(tail, Narrow::<K::UnpackVisitor>::spec_narrow(visitor), verify);
        assert(cut.skip(done.len() as int + key.spec_pack().len()) =~= tail);
        value.lemma_truncated(left, visitor, verify);
        assert(key.deep_view() == key);
        assert(keys_of(deep_entries(front)) =~= keys_of(front));
        assert(!keys_of(front).contains(key)) by {
            if keys_of(front).contains(key) {
                let j = choose|j: int| 0 <= j < front.len() && keys_of(front)[j] == key;
                assert(keys_of(entries)[j] == keys_of(entries)[entries.len() - 1]);
            }
        }
    }
}

/// Unpacks `count` entries of which no two may have the same key into a map.
pub fn unpack_entries_unique<
    K: HashKey,
    V: Packable<UnpackVisitor: Narrow<K::UnpackVisitor>>,
    P: ErrorView,
    U: Unpacker,
    const VERIFY: bool,
>(unpacker: &mut U, visitor: &V::UnpackVisitor, count: u64) -> (r: Result<
    HashMap<K, V>,
    UnpackError<UnpackMapError<K, K::UnpackError, V::UnpackError, P>, U::Error>,
>)
    ensures
        match spec_unpack_entries_unique::<K, V, P::View>(
            old(unpacker).remaining(),
            count as nat,
            visitor,
            VERIFY,
        ) {
            Decoded::Done(entries, n) => {
                &&& r matches Ok(map) && map.deep_view() == entries_to_map(entries)
                &&& valid_map(r->Ok_0@)
                &&& listed(&r->Ok_0)
                &&& r->Ok_0@.dom().len() == count
                &&& entries.len() == count
                &&& keys_of(entries).no_duplicates()
                &&& advanced(old(unpacker), final(unpacker), n)
            },
            Decoded::Invalid(e) => r matches Err(UnpackError::Packable(x)) && x.error_view() == e,
            Decoded::Short(required, had) => r matches Err(UnpackError::Unpacker(x)) && U::is_eof(
                x,
                required,
                had,
            ),
        },
{
    broadcast use vstd::std_specs::hash::group_hash_axioms;

    let ghost before = *unpacker;
    let ghost bytes = unpacker.remaining();
    let ghost mut taken: nat = 0;
    let ghost mut pairs: Seq<(K, V)> = Seq::empty();
    let mut map: HashMap<K, V> = HashMap::new();
    let mut i: u64 = 0;
    proof {
        K::lemma_hash_key();
        assert(bytes.skip(0) =~= bytes);
        assert(deep_entries(pairs) =~= Seq::<(K, V::V)>::empty());
    }
    while i < count
        invariant
            i <= count,
            pairs.len() == i,
            keys_of(pairs).no_duplicates(),
            all_valid_entries(pairs),
            map@ == entries_to_map(pairs),
            before == *old(unpacker),
            bytes == before.remaining(),
            spec_unpack_entries_unique::<K, V, P::View>(bytes, i as nat, visitor, VERIFY)
                == Decoded::<
                Seq<(K, V::V)>,
                UnpackMapError<
                    K,
                    <K::UnpackError as ErrorView>::View,
                    <V::UnpackError as ErrorView>::View,
                    P::View,
                >,
            >::Done(deep_entries(pairs), taken),
            advanced(&before, unpacker, taken),
        decreases count - i,
    {
        proof {
            K::lemma_hash_key();
            lemma_entries_to_map_keys(pairs);
            assert(((i + 1) as nat - 1) as nat == i as nat);
            assert(keys_of(deep_entries(pairs)) =~= keys_of(pairs));
        }
        let ghost next_key = K::spec_unpack(
                bytes.skip(taken as int),
                Narrow::<K::UnpackVisitor>::spec_narrow(visitor),
                VERIFY,
            );
        let key = match K::unpack::<U, VERIFY>(
            unpacker,
            Narrow::<K::UnpackVisitor>::narrow(visitor),
        ) {
            Ok(key) => key,
            Err(UnpackError::Packable(e)) => {
                proof {
                    lemma_entries_unique_failure_stays::<K, V, P::View>(
                        bytes,
                        (i + 1) as nat,
                        count as nat,
                        visitor,
                        VERIFY,
                    );
                }
                return Err(UnpackError::Packable(UnpackMapError::Key(e)));
            },
            Err(UnpackError::Unpacker(e)) => {
                proof {
                    lemma_entries_unique_failure_stays::<K, V, P::View>(
                        bytes,
                        (i + 1) as nat,
                        count as nat,
                        visitor,
                        VERIFY,
                    );
                }
                return Err(UnpackError::Unpacker(e));
            },
        };
        let ghost m = next_key->Done_1;
        proof {
            assert(bytes.skip(taken as int).skip(m as int) =~= bytes.skip(taken as int + m));
            assert(map@.contains_key(key) <==> keys_of(pairs).contains(key));
        }
        if map.contains_key(&key) {
            proof {
                lemma_entries_unique_failure_stays::<K, V, P::View>(
                    bytes,
                    (i + 1) as nat,
                    count as nat,
                    visitor,
                    VERIFY,
                );
            }
            return Err(UnpackError::Packable(UnpackMapError::DuplicateKey(key)));
        }
        let ghost next_value = V::spec_unpack(bytes.skip(taken as int + m), visitor, VERIFY);
        let value = match V::unpack::<U, VERIFY>(unpacker, visitor) {
            Ok(value) => value,
            Err(UnpackError::Packable(e)) => {
                proof {
                    lemma_entries_unique_failure_stays::<K, V, P::View>(
                        bytes,
                        (i + 1) as nat,
                        count as nat,
                        visitor,
                        VERIFY,
                    );
                }
                return Err(UnpackError::Packable(UnpackMapError::Value(e)));
            },
            Err(UnpackError::Unpacker(e)) => {
                proof {
                    lemma_entries_unique_failure_stays::<K, V, P::View>(
                        bytes,
                        (i + 1) as nat,
                        count as nat,
                        visitor,
                        VERIFY,
                    );
                }
                return Err(UnpackError::Unpacker(e));
            },
        };
        proof {
            let l = next_value->Done_1;
            assert(bytes.skip(taken as int + m).skip(l as int) =~= bytes.skip(
                taken as int + m + l,
            ));
            let longer = pairs.push((key, value));
            assert(longer.drop_last() =~= pairs);
            assert(deep_entries(pairs).push((key, value.deep_view())) =~= deep_entries(longer));
            assert(keys_of(longer) =~= keys_of(pairs).push(key));
            assert(keys_of(longer).no_duplicates()) by {
                assert forall|a: int, b: int|
                    0 <= a < keys_of(longer).len() && 0 <= b < keys_of(longer).len() && a
                        != b implies keys_of(longer)[a] != keys_of(longer)[b] by {
                    if a == pairs.len() {
                        assert(keys_of(pairs)[b] == keys_of(longer)[b]);
                        assert(keys_of(pairs).contains(keys_of(pairs)[b]));
                    } else if b == pairs.len() {
                        assert(keys_of(pairs)[a] == keys_of(longer)[a]);
                        assert(keys_of(pairs).contains(keys_of(pairs)[a]));
                    } else {
                        assert(keys_of(pairs)[a] != keys_of(pairs)[b]);
                    }
                }
            }
            pairs = longer;
            taken = taken + m + l;
        }
        map.insert(key, value);
        i += 1;
    }
    know_listing(&map);
    proof {
        lemma_hash_map_deep_view(&map);
        lemma_deep_entries_to_map(pairs);
        assert(keys_of(deep_entries(pairs)) =~= keys_of(pairs));
        lemma_valid_entries_to_map(pairs);
        lemma_entries_to_map_keys(pairs);
        keys_of(pairs).unique_seq_to_set();
    }
    Ok(map)
}

/// Packs the entries of the map in the order in which the map hands them out.
pub fn pack_entries_listed<K: HashKey, V: Packable, P: Packer>(
    map: &HashMap<K, V>,
    packer: &mut P,
) -> (r: Result<(), P::Error>)
    requires
        valid_map(map@),
    ensures
        accepted(old(packer), final(packer), r is Ok, spec_pack_entries(listing(map))),
{
    broadcast use vstd::std_specs::hash::group_hash_axioms;

    let ghost before = *packer;
    let ghost listed = listing(map);
    proof {
        K::lemma_hash_key();
        assert(before.written() + spec_pack_entries(listed.take(0)) =~= before.written());
    }
    for entry in it: map.iter()
        invariant
            before == *old(packer),
            listed == listing(map),
            valid_map(map@),
            lists_map(it.seq(), map@),
            it.seq().unref() == listed,
            accepted(&before, packer, true, spec_pack_entries(listed.take(it.index() as int))),
    {
        let ghost i = it.index() as int;
        let (key, value) = entry;
        proof {
            let refs = it.seq();
            assert(map@.contains_key(*refs[i].0));
            assert(map@[*refs[i].0] == *refs[i].1);
            assert(listed[i] == (*key, *value));
            assert(key.valid());
            assert(map@[*key].valid());
            assert(value.valid());
        }
        let ghost between = *packer;
        let r = key.pack(packer);
        let ghost middle = *packer;
        proof {
            lemma_pack_entries_push(listed.take(i), listed[i]);
            lemma_pack_entries_take(listed, i + 1);
            assert(listed.take(i).push(listed[i]) =~= listed.take(i + 1));
        }
        match r {
            Ok(()) => {},
            Err(e) => {
                proof {
                    let done = spec_pack_entries(listed.take(i));
                    assert forall|n: nat| n >= spec_pack_entries(listed).len() implies !(
                    #[trigger] before.has_room(n)) by {
                        if before.has_room(n) {
                            assert(between.has_room((n - done.len()) as nat));
                        }
                    }
                }
                return Err(e);
            },
        }
        let r = value.pack(packer);
        match r {
            Ok(()) => {
                proof {
                    lemma_accepted_twice(
                        &between,
                        &middle,
                        packer,
                        key.spec_pack(),
                        value.spec_pack(),
                    );
                    lemma_accepted_twice(
                        &before,
                        &between,
                        packer,
                        spec_pack_entries(listed.take(i)),
                        key.spec_pack() + value.spec_pack(),
                    );
                    assert(spec_pack_entries(listed.take(i)) + (key.spec_pack()
                        + value.spec_pack()) =~= spec_pack_entries(listed.take(i + 1)));
                }
            },
            Err(e) => {
                proof {
                    let done = spec_pack_entries(listed.take(i));
                    assert forall|n: nat| n >= spec_pack_entries(listed).len() implies !(
                    #[trigger] before.has_room(n)) by {
                        if before.has_room(n) {
                            assert(between.has_room((n - done.len()) as nat));
                            assert(middle.has_room((n - done.len() - key.spec_pack().len()) as nat));
                        }
                    }
                }
                return Err(e);
            },
        }
    }
    proof {
        assert(listed.take(listed.len() as int) =~= listed);
    }
    Ok(())
}

impl HashKey for u8 {
    proof fn lemma_hash_key() {
        broadcast use vstd::std_specs::hash::group_hash_axioms;

    }
}

impl HashKey for u16 {
    proof fn lemma_hash_key() {
        broadcast use vstd::std_specs::hash::group_hash_axioms;

    }
}

impl HashKey for u32 {
    proof fn lemma_hash_key() {
        broadcast use vstd::std_specs::hash::group_hash_axioms;

    }
}

impl HashKey for u64 {
    proof fn lemma_hash_key() {
        broadcast use vstd::std_specs::hash::group_hash_axioms;

    }
}

impl HashKey for u128 {
    proof fn lemma_hash_key() {
        broadcast use vstd::std_specs::hash::group_hash_axioms;

    }
}

impl HashKey for usize {
    proof fn lemma_hash_key() {
        broadcast use vstd::std_specs::hash::group_hash_axioms;

    }
}

impl HashKey for i8 {
    proof fn lemma_hash_key() {
        broadcast use vstd::std_specs::hash::group_hash_axioms;

    }
}

impl HashKey for i16 {
    proof fn lemma_hash_key() {
        broadcast use vstd::std_specs::hash::group_hash_axioms;

    }
}

impl HashKey for i32 {
    proof fn lemma_hash_key() {
        broadcast use vstd::std_specs::hash::group_hash_axioms;

    }
}

impl HashKey for i64 {
    proof fn lemma_hash_key() {
        broadcast use vstd::std_specs::hash::group_hash_axioms;

    }
}

impl HashKey for i128 {
    proof fn lemma_hash_key() {
        broadcast use vstd::std_specs::hash::group_hash_axioms;

    }
}

impl HashKey for isize {
    proof fn lemma_hash_key() {
        broadcast use vstd::std_specs::hash::group_hash_axioms;

    }
}

/// `HashMap<K, V>`: the number of entries as a `u64`, then each key followed by its value,
/// in the order in which the map hands its entries out. Unpacking rejects a key that was
/// unpacked before.
///
/// A map is packed once its order is known to list its entries: see [`know_listing`].
impl<K: HashKey, V: Packable<UnpackVisitor: Narrow<K::UnpackVisitor>>> Packable for HashMap<K, V> {
    type UnpackError = UnpackMapError<
        K,
        K::UnpackError,
        V::UnpackError,
        core::num::TryFromIntError,
    >;

    type UnpackVisitor = V::UnpackVisitor;

    open spec fn valid(&self) -> bool {
        valid_map(self@) && listed(self) && self@.dom().len() <= usize::MAX
    }

    open spec fn passes(&self, visitor: &V::UnpackVisitor) -> bool {
        passes_map(self@, visitor)
    }

    open spec fn spec_pack(&self) -> Seq<u8> {
        le_bytes(self@.dom().len(), 8) + spec_pack_entries(listing(self))
    }

    open spec fn spec_unpack(bytes: Seq<u8>, visitor: &V::UnpackVisitor, verify: bool) -> Decoded<
        Map<K, V::V>,
        UnpackMapError<
            K,
            <K::UnpackError as ErrorView>::View,
            <V::UnpackError as ErrorView>::View,
            (),
        >,
    > {
        match usize::spec_unpack(bytes, &(), verify) {
            Decoded::Done(count, n) => match spec_unpack_entries_unique::<K, V, ()>(
                bytes.skip(n as int),
                count as nat,
                visitor,
                verify,
            ) {
                Decoded::Done(entries, m) => Decoded::Done(entries_to_map(entries), n + m),
                Decoded::Invalid(e) => Decoded::Invalid(e),
                Decoded::Short(required, had) => Decoded::Short(required, had),
            },
            Decoded::Invalid(e) => Decoded::Invalid(UnpackMapError::Prefix(e)),
            Decoded::Short(required, had) => Decoded::Short(required, had),
        }
    }

    proof fn lemma_round_trip(&self, rest: Seq<u8>, visitor: &V::UnpackVisitor, verify: bool) {
        lemma_hash_map_deep_view(self);
        let entries = listing(self);
        lemma_entries_to_map_keys(entries);
        keys_of(entries).unique_seq_to_set();
        let count = entries.len() as usize;
        let bytes = self.spec_pack() + rest;
        assert(bytes =~= count.spec_pack() + (spec_pack_entries(entries) + rest));
        count.lemma_round_trip(spec_pack_entries(entries) + rest, &(), verify);
        lemma_le_bytes_len(entries.len(), 8);
        assert(bytes.skip(8) =~= spec_pack_entries(entries) + rest);
        assert(all_valid_entries(entries)) by {
            assert forall|i: int| 0 <= i < entries.len() implies (#[trigger] entries[i]).0.valid()
                && entries[i].1.valid() by {
                lemma_entries_to_map_values(entries, i);
                assert(self@.contains_key(entries[i].0));
                assert(self@[entries[i].0].valid());
            }
        }
        assert(all_pass_entries(entries, visitor)) by {
            assert forall|i: int| 0 <= i < entries.len() implies (#[trigger] entries[i]).0.passes(
                Narrow::<K::UnpackVisitor>::spec_narrow(visitor),
            ) && entries[i].1.passes(visitor) by {
                lemma_entries_to_map_values(entries, i);
                assert(self@.contains_key(entries[i].0));
                assert(self@[entries[i].0].passes(visitor));
            }
        }
        lemma_entries_unique_round_trip::<K, V, ()>(entries, rest, visitor, verify);
        lemma_deep_entries_to_map(entries);
    }

    proof fn lemma_truncated(&self, len: nat, visitor: &V::UnpackVisitor, verify: bool) {
        let entries = listing(self);
        lemma_entries_to_map_keys(entries);
        keys_of(entries).unique_seq_to_set();
        let count = entries.len() as usize;
        let cut = self.spec_pack().take(len as int);
        lemma_le_bytes_len(entries.len(), 8);
        assert(all_valid_entries(entries)) by {
            assert forall|i: int| 0 <= i < entries.len() implies (#[trigger] entries[i]).0.valid()
                && entries[i].1.valid() by {
                lemma_entries_to_map_values(entries, i);
                assert(self@.contains_key(entries[i].0));
                assert(self@[entries[i].0].valid());
            }
        }
        assert(all_pass_entries(entries, visitor)) by {
            assert forall|i: int| 0 <= i < entries.len() implies (#[trigger] entries[i]).0.passes(
                Narrow::<K::UnpackVisitor>::spec_narrow(visitor),
            ) && entries[i].1.passes(visitor) by {
                lemma_entries_to_map_values(entries, i);
                assert(self@.contains_key(entries[i].0));
                assert(self@[entries[i].0].passes(visitor));
            }
        }
        if len < 8 {
            assert(cut =~= count.spec_pack().take(len as int));
            count.lemma_truncated(len, &(), verify);
        } else {
            let left = (len - 8) as nat;
            assert(cut =~= count.spec_pack() + spec_pack_entries(entries).take(left as int));
            count.lemma_round_trip(spec_pack_entries(entries).take(left as int), &(), verify);
            assert(cut.skip(8) =~= spec_pack_entries(entries).take(left as int));
            lemma_entries_unique_truncated::<K, V, ()>(entries, left, visitor, verify);
        }
    }

    proof fn lemma_invalid_can_occur(bytes: Seq<u8>, visitor: &V::UnpackVisitor, verify: bool) {
    }

    fn pack<P: Packer>(&self, packer: &mut P) -> (r: Result<(), P::Error>) {
        broadcast use vstd::std_specs::hash::group_hash_axioms;

        proof {
            K::lemma_hash_key();
        }
        let ghost before = *packer;
        self.len().pack(packer)?;
        let ghost between = *packer;
        let r = pack_entries_listed(self, packer);
        proof {
            if r is Ok {
                lemma_accepted_twice(
                    &before,
                    &between,
                    packer,
                    le_bytes(self@.dom().len(), 8),
                    spec_pack_entries(listing(self)),
                );
            }
        }
        r
    }

    fn unpack<U: Unpacker, const VERIFY: bool>(
        unpacker: &mut U,
        visitor: &V::UnpackVisitor,
    ) -> (r: Result<Self, UnpackError<Self::UnpackError, U::Error>>) {
        let ghost bytes = unpacker.remaining();
        let count = match usize::unpack::<U, VERIFY>(unpacker, &()) {
            Ok(count) => count,
            Err(UnpackError::Packable(e)) => {
                let err: UnpackMapError<
                    K,
                    K::UnpackError,
                    V::UnpackError,
                    core::num::TryFromIntError,
                > = UnpackMapError::Prefix(e);
                proof {
                    assert(err.error_view() == UnpackMapError::<
                        K,
                        <K::UnpackError as ErrorView>::View,
                        <V::UnpackError as ErrorView>::View,
                        (),
                    >::Prefix(()));
                }
                return Err(UnpackError::Packable(err));
            },
            Err(UnpackError::Unpacker(e)) => {
                return Err(UnpackError::Unpacker(e));
            },
        };
        let r = unpack_entries_unique::<K, V, core::num::TryFromIntError, U, VERIFY>(
            unpacker,
            visitor,
            count as u64,
        );
        proof {
            if r is Ok {
                let m = spec_unpack_entries_unique::<K, V, ()>(
                    bytes.skip(8),
                    count as nat,
                    visitor,
                    VERIFY,
                )->Done_1;
                assert(bytes.skip(8).skip(m as int) =~= bytes.skip(8 + m as int));
            }
        }
        r
    }
}

} // verus!
