//! Maps: the number of entries, then each key followed by its value.

use std::collections::BTreeMap;
use vstd::prelude::*;
use vstd::std_specs::btree::increasing_seq;
use vstd::std_specs::iter::IteratorSpec;

use crate::error::{CoerceInto, ErrorView, UnpackError};
use crate::le::{le_bytes, lemma_le_bytes_len};
use crate::order::{compare, lemma_order, precedes, Rank, SortKey};
use crate::set::{
    ascending, lemma_ascending_no_duplicates, lemma_ascending_unique, sorted_items,
};
use crate::packable::{Decoded, Packable};
use crate::packer::{accepted, lemma_accepted_twice, Packer};
use crate::unpacker::{advanced, Unpacker};
use crate::visitor::Narrow;

verus! {

/// Error type raised when unpacking a map fails.
#[derive(Debug)]
pub enum UnpackMapError<K, KE, VE, P> {
    /// A key is in the map twice: the key.
    DuplicateKey(K),
    /// A key could not be unpacked.
    Key(KE),
    /// A value could not be unpacked.
    Value(VE),
    /// The length prefix could not be unpacked.
    Prefix(P),
}

impl<K: DeepView, KE: ErrorView, VE: ErrorView, P: ErrorView> ErrorView for UnpackMapError<
    K,
    KE,
    VE,
    P,
> {
    type View = UnpackMapError<K::V, KE::View, VE::View, P::View>;

    open spec fn error_view(&self) -> UnpackMapError<K::V, KE::View, VE::View, P::View> {
        match self {
            UnpackMapError::DuplicateKey(key) => UnpackMapError::DuplicateKey(key.deep_view()),
            UnpackMapError::Key(e) => UnpackMapError::Key(e.error_view()),
            UnpackMapError::Value(e) => UnpackMapError::Value(e.error_view()),
            UnpackMapError::Prefix(e) => UnpackMapError::Prefix(e.error_view()),
        }
    }

    open spec fn can_occur() -> bool {
        true
    }
}

/// An error of this type turns into itself.
impl<K: DeepView, KE: ErrorView, VE: ErrorView, P: ErrorView> CoerceInto<UnpackMapError<K, KE, VE, P>> for
    UnpackMapError<K, KE, VE, P>
{
    open spec fn spec_coerce(
        view: UnpackMapError<K::V, KE::View, VE::View, P::View>,
    ) -> UnpackMapError<K::V, KE::View, VE::View, P::View> {
        view
    }

    proof fn lemma_coerce_can_occur() {
    }

    fn coerce_into(self) -> (r: UnpackMapError<K, KE, VE, P>) {
        self
    }
}

/// Error type raised when unpacking an ordered map fails.
#[derive(Debug)]
pub enum UnpackOrderedMapError<K, KE, VE, P> {
    /// The error of a map.
    MapError(UnpackMapError<K, KE, VE, P>),
    /// A key does not come after the key before it.
    Unordered,
}

impl<K: DeepView, KE: ErrorView, VE: ErrorView, P: ErrorView> ErrorView for UnpackOrderedMapError<
    K,
    KE,
    VE,
    P,
> {
    type View = UnpackOrderedMapError<K::V, KE::View, VE::View, P::View>;

    open spec fn error_view(&self) -> UnpackOrderedMapError<K::V, KE::View, VE::View, P::View> {
        match self {
            UnpackOrderedMapError::MapError(e) => UnpackOrderedMapError::MapError(e.error_view()),
            UnpackOrderedMapError::Unordered => UnpackOrderedMapError::Unordered,
        }
    }

    open spec fn can_occur() -> bool {
        true
    }
}

/// An error of this type turns into itself.
impl<K: DeepView, KE: ErrorView, VE: ErrorView, P: ErrorView> CoerceInto<UnpackOrderedMapError<K, KE, VE, P>> for
    UnpackOrderedMapError<K, KE, VE, P>
{
    open spec fn spec_coerce(
        view: UnpackOrderedMapError<K::V, KE::View, VE::View, P::View>,
    ) -> UnpackOrderedMapError<K::V, KE::View, VE::View, P::View> {
        view
    }

    proof fn lemma_coerce_can_occur() {
    }

    fn coerce_into(self) -> (r: UnpackOrderedMapError<K, KE, VE, P>) {
        self
    }
}

/// The keys of the entries, in the order of the entries.
pub open spec fn keys_of<K, W>(entries: Seq<(K, W)>) -> Seq<K> {
    Seq::new(entries.len(), |i: int| entries[i].0)
}

/// The entries with every value replaced by its deep view.
pub open spec fn deep_entries<K, V: DeepView>(entries: Seq<(K, V)>) -> Seq<(K, V::V)> {
    Seq::new(entries.len(), |i: int| (entries[i].0, entries[i].1.deep_view()))
}

/// The map that holds the entries, a later entry replacing an earlier one of the same key.
pub open spec fn entries_to_map<K, W>(entries: Seq<(K, W)>) -> Map<K, W>
    decreases entries.len(),
{
    if entries.len() == 0 {
        Map::empty()
    } else {
        entries_to_map(entries.drop_last()).insert(entries.last().0, entries.last().1)
    }
}

/// The map with every value replaced by its deep view.
pub open spec fn deep_values<K, V: DeepView>(map: Map<K, V>) -> Map<K, V::V> {
    Map::new(|k: K| map.contains_key(k), |k: K| map[k].deep_view())
}

/// The entries of a map in ascending order of their keys.
pub open spec fn sorted_entries<K: Ord, V>(map: Map<K, V>) -> Seq<(K, V)> {
    Seq::new(
        sorted_items(map.dom()).len(),
        |i: int| (sorted_items(map.dom())[i], map[sorted_items(map.dom())[i]]),
    )
}

/// The encodings of the entries, one after the other: each key, then its value.
pub open spec fn spec_pack_entries<K: Packable, V: Packable>(entries: Seq<(K, V)>) -> Seq<u8>
    decreases entries.len(),
{
    if entries.len() == 0 {
        Seq::empty()
    } else {
        spec_pack_entries(entries.drop_last()) + entries.last().0.spec_pack()
            + entries.last().1.spec_pack()
    }
}

/// Whether every key and every value of the entries is valid.
pub open spec fn all_valid_entries<K: Packable, V: Packable>(entries: Seq<(K, V)>) -> bool {
    forall|i: int|
        0 <= i < entries.len() ==> (#[trigger] entries[i]).0.valid() && entries[i].1.valid()
}

/// Whether every key and every value of the map is valid.
pub open spec fn valid_map<K: Packable, V: Packable>(map: Map<K, V>) -> bool {
    forall|key: K| map.contains_key(key) ==> key.valid() && (#[trigger] map[key]).valid()
}

/// Whether every key and every value of the entries passes the checks against the visitor,
/// the keys against what the visitor gives for them.
pub open spec fn all_pass_entries<K: Packable, V: Packable<UnpackVisitor: Narrow<K::UnpackVisitor>>>(
    entries: Seq<(K, V)>,
    visitor: &V::UnpackVisitor,
) -> bool {
    forall|i: int|
        0 <= i < entries.len() ==> (#[trigger] entries[i]).0.passes(
            Narrow::<K::UnpackVisitor>::spec_narrow(visitor),
        ) && entries[i].1.passes(visitor)
}

/// Whether every key and every value of the map passes the checks against the visitor, the
/// keys against what the visitor gives for them.
pub open spec fn passes_map<K: Packable, V: Packable<UnpackVisitor: Narrow<K::UnpackVisitor>>>(
    map: Map<K, V>,
    visitor: &V::UnpackVisitor,
) -> bool {
    forall|key: K|
        map.contains_key(key) ==> key.passes(Narrow::<K::UnpackVisitor>::spec_narrow(visitor)) && (
        #[trigger] map[key]).passes(visitor)
}

/// What `bytes` decode to as `count` entries in strictly ascending order of their keys: the
/// entries and the number of bytes they take together, or what the first entry that fails
/// comes to. A key is held against the key before it as soon as it is read, before its value:
/// one that equals it is a duplicate, one that comes before it is out of order.
pub open spec fn spec_unpack_entries_ascending<
    K: SortKey,
    V: Packable<UnpackVisitor: Narrow<K::UnpackVisitor>>,
    P,
>(bytes: Seq<u8>, count: nat, visitor: &V::UnpackVisitor, verify: bool) -> Decoded<
    Seq<(K, V::V)>,
    UnpackOrderedMapError<
        K,
        <K::UnpackError as ErrorView>::View,
        <V::UnpackError as ErrorView>::View,
        P,
    >,
>
    decreases count,
{
    if count == 0 {
        Decoded::Done(Seq::empty(), 0)
    } else {
        match spec_unpack_entries_ascending::<K, V, P>(bytes, (count - 1) as nat, visitor, verify) {
            Decoded::Done(entries, n) => match K::spec_unpack(
                bytes.skip(n as int),
                Narrow::<K::UnpackVisitor>::spec_narrow(visitor),
                verify,
            ) {
                Decoded::Done(key, m) => if entries.len() > 0 && entries.last().0 == key {
                    Decoded::Invalid(
                        UnpackOrderedMapError::MapError(UnpackMapError::DuplicateKey(key)),
                    )
                } else if entries.len() > 0 && precedes(key, entries.last().0) {
                    Decoded::Invalid(UnpackOrderedMapError::Unordered)
                } else {
                    match V::spec_unpack(bytes.skip(n as int + m), visitor, verify) {
                        Decoded::Done(value, l) => Decoded::Done(
                            entries.push((key, value)),
                            n + m + l,
                        ),
                        Decoded::Invalid(e) => Decoded::Invalid(
                            UnpackOrderedMapError::MapError(UnpackMapError::Value(e)),
                        ),
                        Decoded::Short(required, had) => Decoded::Short(required, had),
                    }
                },
                Decoded::Invalid(e) => Decoded::Invalid(
                    UnpackOrderedMapError::MapError(UnpackMapError::Key(e)),
                ),
                Decoded::Short(required, had) => Decoded::Short(required, had),
            },
            Decoded::Invalid(e) => Decoded::Invalid(e),
            Decoded::Short(required, had) => Decoded::Short(required, had),
        }
    }
}

/// Whether `refs` lists every entry of `map`, and nothing else.
pub open spec fn lists_map<K, V>(refs: Seq<(&K, &V)>, map: Map<K, V>) -> bool {
    &&& forall|i: int|
        #![trigger map.contains_key(*refs[i].0)]
        #![trigger map[*refs[i].0]]
        0 <= i < refs.len() ==> map.contains_key(*refs[i].0) && map[*refs[i].0] == *refs[i].1
    &&& forall|k: K| #[trigger] map.contains_key(k) ==> refs.contains((&k, &map[k]))
}

/// A map is the map of its entries in ascending order, which are as many as its keys.
pub proof fn lemma_sorted_entries<K: SortKey, V>(map: &BTreeMap<K, V>)
    ensures
        ascending(keys_of(sorted_entries(map@))),
        keys_of(sorted_entries(map@)) == sorted_items(map@.dom()),
        keys_of(sorted_entries(map@)).to_set() == map@.dom(),
        sorted_entries(map@).len() == map@.dom().len(),
        map@.dom().len() <= usize::MAX,
        forall|i: int|
            0 <= i < sorted_entries(map@).len() ==> map@.contains_key(
                (#[trigger] sorted_entries(map@)[i]).0,
            ) && map@[sorted_entries(map@)[i].0] == sorted_entries(map@)[i].1,
{
    broadcast use vstd::std_specs::btree::group_btree_axioms;

    K::lemma_sort_key();
    lemma_order::<K>();
    vstd::std_specs::btree::axiom_spec_keys_iter(map);
    let refs = vstd::std_specs::btree::spec_keys_iter(map).remaining();
    crate::order::lemma_increasing_refs::<K>(refs);
    let listing = refs.unref();
    assert(ascending(listing) && listing.to_set() == map@.dom());
    let keys = sorted_items(map@.dom());
    lemma_ascending_no_duplicates(keys);
    assert(keys_of(sorted_entries(map@)) =~= keys);
    assert(map@.dom().len() == vstd::std_specs::btree::spec_btree_map_len(map));
    assert forall|i: int| 0 <= i < sorted_entries(map@).len() implies map@.contains_key(
        (#[trigger] sorted_entries(map@)[i]).0,
    ) && map@[sorted_entries(map@)[i].0] == sorted_entries(map@)[i].1 by {
        assert(keys.to_set().contains(keys[i]));
    }
}

/// One more entry adds the encodings of its key and its value at the end.
pub proof fn lemma_pack_entries_push<K: Packable, V: Packable>(entries: Seq<(K, V)>, entry: (K, V))
    ensures
        spec_pack_entries(entries.push(entry)) == spec_pack_entries(entries) + entry.0.spec_pack()
            + entry.1.spec_pack(),
{
    assert(entries.push(entry).drop_last() =~= entries);
}

/// The encodings of the first entries are the start of the encodings of all.
pub proof fn lemma_pack_entries_take<K: Packable, V: Packable>(entries: Seq<(K, V)>, n: int)
    requires
        0 <= n <= entries.len(),
    ensures
        spec_pack_entries(entries.take(n)).len() <= spec_pack_entries(entries).len(),
    decreases entries.len(),
{
    if n == entries.len() {
        assert(entries.take(n) =~= entries);
    } else {
        lemma_pack_entries_take(entries.drop_last(), n);
        assert(entries.drop_last().take(n) =~= entries.take(n));
    }
}

/// Packs the entries of the map in ascending order of their keys.
pub fn pack_entries_ascending<K: SortKey, V: Packable, P: Packer>(
    map: &BTreeMap<K, V>,
    packer: &mut P,
) -> (r: Result<(), P::Error>)
    requires
        valid_map(map@),
    ensures
        accepted(old(packer), final(packer), r is Ok, spec_pack_entries(sorted_entries(map@))),
{
    broadcast use vstd::std_specs::btree::group_btree_axioms;

    let ghost before = *packer;
    let ghost sorted = sorted_entries(map@);
    proof {
        K::lemma_sort_key();
        lemma_sorted_entries(map);
        assert(before.written() + spec_pack_entries(sorted.take(0)) =~= before.written());
    }
    for entry in it: map.iter()
        invariant
            before == *old(packer),
            sorted == sorted_entries(map@),
            ascending(keys_of(sorted)),
            keys_of(sorted).to_set() == map@.dom(),
            valid_map(map@),
            increasing_seq(it.seq().map_values(|kv: (&K, &V)| *kv.0)),
            lists_map(it.seq(), map@),
            it.seq().len() == sorted.len(),
            accepted(&before, packer, true, spec_pack_entries(sorted.take(it.index() as int))),
    {
        let ghost i = it.index() as int;
        let (key, value) = entry;
        proof {
            let refs = it.seq();
            let keys = refs.map_values(|kv: (&K, &V)| *kv.0);
            crate::order::lemma_increasing::<K>(keys);
            assert(keys.to_set() =~= map@.dom()) by {
                assert forall|k: K| keys.to_set().contains(k) <==> map@.dom().contains(k) by {
                    if keys.contains(k) {
                        let j = choose|j: int| 0 <= j < keys.len() && keys[j] == k;
                        assert(map@.contains_key(*refs[j].0));
                    }
                    if map@.contains_key(k) {
                        assert(refs.contains((&k, &map@[k])));
                        let j = choose|j: int| 0 <= j < refs.len() && refs[j] == (&k, &map@[k]);
                        assert(keys[j] == k);
                    }
                }
            }
            lemma_ascending_unique(keys, keys_of(sorted));
            assert(keys[i] == *key);
            assert(map@.contains_key(*refs[i].0));
            assert(map@[*refs[i].0] == *refs[i].1);
            assert(sorted[i] == (*key, *value));
            assert(map@.contains_key(*key) && map@[*key] == *value);
            assert(key.valid());
            assert(map@[*key].valid());
            assert(value.valid());
        }
        let ghost between = *packer;
        let r = key.pack(packer);
        let ghost middle = *packer;
        proof {
            lemma_pack_entries_push(sorted.take(i), sorted[i]);
            lemma_pack_entries_take(sorted, i + 1);
            assert(sorted.take(i).push(sorted[i]) =~= sorted.take(i + 1));
        }
        match r {
            Ok(()) => {},
            Err(e) => {
                proof {
                    let done = spec_pack_entries(sorted.take(i));
                    assert forall|n: nat| n >= spec_pack_entries(sorted).len() implies !(
                    #[trigger] before.has_room(n)) by {
                        if before.has_room(n) {
                            assert(between.has_room((n - done.len()) as nat));
                        }
                    }
                }
                return Err(e);
            },
        }
        let r = value.pack(packer);
        match r {
            Ok(()) => {
                proof {
                    lemma_accepted_twice(
                        &between,
                        &middle,
                        packer,
                        key.spec_pack(),
                        value.spec_pack(),
                    );
                    lemma_accepted_twice(
                        &before,
                        &between,
                        packer,
                        spec_pack_entries(sorted.take(i)),
                        key.spec_pack() + value.spec_pack(),
                    );
                    assert(spec_pack_entries(sorted.take(i)) + (key.spec_pack()
                        + value.spec_pack()) =~= spec_pack_entries(sorted.take(i + 1)));
                }
            },
            Err(e) => {
                proof {
                    let done = spec_pack_entries(sorted.take(i));
                    assert forall|n: nat| n >= spec_pack_entries(sorted).len() implies !(
                    #[trigger] before.has_room(n)) by {
                        if before.has_room(n) {
                            assert(between.has_room((n - done.len()) as nat));
                            assert(middle.has_room((n - done.len() - key.spec_pack().len()) as nat));
                        }
                    }
                }
                return Err(e);
            },
        }
    }
    proof {
        assert(sorted.take(sorted.len() as int) =~= sorted);
    }
    Ok(())
}

/// Once an entry fails, the run fails in the same way, however many entries are asked for.
pub proof fn lemma_entries_ascending_failure_stays<
    K: SortKey,
    V: Packable<UnpackVisitor: Narrow<K::UnpackVisitor>>,
    P,
>(bytes: Seq<u8>, failed: nat, count: nat, visitor: &V::UnpackVisitor, verify: bool)
    requires
        failed <= count,
        !(spec_unpack_entries_ascending::<K, V, P>(bytes, failed, visitor, verify) is Done),
    ensures
        spec_unpack_entries_ascending::<K, V, P>(bytes, count, visitor, verify)
            == spec_unpack_entries_ascending::<K, V, P>(bytes, failed, visitor, verify),
    decreases count,
{
    if failed < count {
        lemma_entries_ascending_failure_stays::<K, V, P>(
            bytes,
            failed,
            (count - 1) as nat,
            visitor,
            verify,
        );
    }
}

/// The keys of the map of some entries are the keys of the entries.
pub proof fn lemma_entries_to_map_keys<K, W>(entries: Seq<(K, W)>)
    ensures
        entries_to_map(entries).dom() == keys_of(entries).to_set(),
    decreases entries.len(),
{
    if entries.len() == 0 {
        assert(entries_to_map(entries).dom() =~= keys_of(entries).to_set());
    } else {
        lemma_entries_to_map_keys(entries.drop_last());
        assert(keys_of(entries) =~= keys_of(entries.drop_last()).push(entries.last().0));
        keys_of(entries.drop_last()).lemma_push_to_set_commute(entries.last().0);
        assert(entries_to_map(entries).dom() =~= keys_of(entries).to_set());
    }
}

/// Where no key is twice among the entries, their map holds each entry.
pub proof fn lemma_entries_to_map_values<K, W>(entries: Seq<(K, W)>, i: int)
    requires
        keys_of(entries).no_duplicates(),
        0 <= i < entries.len(),
    ensures
        entries_to_map(entries).contains_key(entries[i].0),
        entries_to_map(entries)[entries[i].0] == entries[i].1,
    decreases entries.len(),
{
    let front = entries.drop_last();
    if i < entries.len() - 1 {
        assert(keys_of(front) =~= keys_of(entries).take(entries.len() - 1));
        lemma_entries_to_map_values(front, i);
        assert(keys_of(entries)[i] != keys_of(entries)[entries.len() - 1]);
    }
}

/// The map of valid entries of which no key is twice holds valid keys and values only.
pub proof fn lemma_valid_entries_to_map<K: Packable, V: Packable>(entries: Seq<(K, V)>)
    requires
        all_valid_entries(entries),
        keys_of(entries).no_duplicates(),
    ensures
        valid_map(entries_to_map(entries)),
{
    let map = entries_to_map(entries);
    lemma_entries_to_map_keys(entries);
    assert forall|key: K| map.contains_key(key) implies key.valid() && (#[trigger] map[key]).valid() by {
        assert(keys_of(entries).to_set().contains(key));
        assert(keys_of(entries).contains(key));
        let j = choose|j: int| 0 <= j < entries.len() && keys_of(entries)[j] == key;
        lemma_entries_to_map_values(entries, j);
        assert(entries[j].0.valid() && entries[j].1.valid());
    }
}

/// Replacing the values by their deep views before or after collecting the entries into a
/// map comes to the same map.
pub proof fn lemma_deep_entries_to_map<K, V: DeepView>(entries: Seq<(K, V)>)
    ensures
        entries_to_map(deep_entries(entries)) == deep_values(entries_to_map(entries)),
    decreases entries.len(),
{
    if entries.len() == 0 {
        assert(entries_to_map(deep_entries(entries)) =~= deep_values(entries_to_map(entries)));
    } else {
        lemma_deep_entries_to_map(entries.drop_last());
        assert(deep_entries(entries).drop_last() =~= deep_entries(entries.drop_last()));
        assert(entries_to_map(deep_entries(entries)) =~= deep_values(entries_to_map(entries)));
    }
}

/// The deep view of an ordered map of std whose keys are sort keys: the same keys, with the
/// deep views of the values.
pub proof fn lemma_map_deep_view<K: SortKey, V: DeepView>(map: &BTreeMap<K, V>)
    ensures
        map.deep_view() == deep_values(map@),
{
    broadcast use vstd::std_specs::btree::group_btree_axioms;

    K::lemma_sort_key();
    assert(vstd::relations::injective(|k: K| k.deep_view()));
    vstd::std_specs::btree::lemma_btree_map_deepview_properties(*map);
    assert forall|k: K| map.deep_view().contains_key(k) <==> map@.contains_key(k) by {
        if map.deep_view().contains_key(k) {
            let orig = choose|orig: K| orig.deep_view() == k && #[trigger] map@.contains_key(orig);
            assert(orig == k);
        }
        if map@.contains_key(k) {
            assert(map.deep_view().contains_key(k.deep_view()));
        }
    }
    assert forall|k: K| map@.contains_key(k) implies map.deep_view()[k] == map@[k].deep_view() by {
        assert(map.deep_view()[k.deep_view()] == map@[k].deep_view());
    }
    assert(map.deep_view() =~= deep_values(map@));
}

/// The greatest key of the map, if it has any.
///
/// Trusted: `BTreeMap::last_key_value` of std, which returns the last entry of the map, the
/// one of the maximum key, and `None` for the empty map. The key of the entry is handed on.
#[verifier::external_body]
pub(crate) fn last_key<K: SortKey, V>(map: &BTreeMap<K, V>) -> (r: Option<&K>)
    ensures
        match r {
            Some(last) => map@.contains_key(*last) && forall|key: K|
                map@.contains_key(key) ==> !precedes(*last, key),
            None => forall|key: K| !map@.contains_key(key),
        },
{
    match map.last_key_value() {
        Some((key, _)) => Some(key),
        None => None,
    }
}

/// Unpacks `count` entries whose keys have to come in strictly ascending order into a map.
pub fn unpack_entries_ascending<
    K: SortKey,
    V: Packable<UnpackVisitor: Narrow<K::UnpackVisitor>>,
    P: ErrorView,
    U: Unpacker,
    const VERIFY: bool,
>(unpacker: &mut U, visitor: &V::UnpackVisitor, count: u64) -> (r: Result<
    BTreeMap<K, V>,
    UnpackError<UnpackOrderedMapError<K, K::UnpackError, V::UnpackError, P>, U::Error>,
>)
    ensures
        match spec_unpack_entries_ascending::<K, V, P::View>(
            old(unpacker).remaining(),
            count as nat,
            visitor,
            VERIFY,
        ) {
            Decoded::Done(entries, n) => {
                &&& r matches Ok(map) && map.deep_view() == entries_to_map(entries)
                &&& valid_map(r->Ok_0@)
                &&& entries.len() == count
                &&& ascending(keys_of(entries))
                &&& advanced(old(unpacker), final(unpacker), n)
            },
            Decoded::Invalid(e) => r matches Err(UnpackError::Packable(x)) && x.error_view() == e,
            Decoded::Short(required, had) => r matches Err(UnpackError::Unpacker(x)) && U::is_eof(
                x,
                required,
                had,
            ),
        },
{
    let ghost before = *unpacker;
    let ghost bytes = unpacker.remaining();
    let ghost mut taken: nat = 0;
    let ghost mut pairs: Seq<(K, V)> = Seq::empty();
    let mut map: BTreeMap<K, V> = BTreeMap::new();
    let mut i: u64 = 0;
    proof {
        K::lemma_sort_key();
        lemma_order::<K>();
        assert(bytes.skip(0) =~= bytes);
        assert(deep_entries(pairs) =~= Seq::<(K, V::V)>::empty());
    }
    while i < count
        invariant
            i <= count,
            pairs.len() == i,
            ascending(keys_of(pairs)),
            all_valid_entries(pairs),
            map@ == entries_to_map(pairs),
            before == *old(unpacker),
            bytes == before.remaining(),
            spec_unpack_entries_ascending::<K, V, P::View>(bytes, i as nat, visitor, VERIFY)
                == Decoded::<
                Seq<(K, V::V)>,
                UnpackOrderedMapError<
                    K,
                    <K::UnpackError as ErrorView>::View,
                    <V::UnpackError as ErrorView>::View,
                    P::View,
                >,
            >::Done(deep_entries(pairs), taken),
            advanced(&before, unpacker, taken),
        decreases count - i,
    {
        proof {
            K::lemma_sort_key();
            lemma_order::<K>();
            lemma_entries_to_map_keys(pairs);
            assert(((i + 1) as nat - 1) as nat == i as nat);
            if pairs.len() > 0 {
                assert(deep_entries(pairs).last().0 == pairs.last().0);
                assert(keys_of(pairs)[pairs.len() - 1] == pairs.last().0);
            }
        }
        let ghost next_key = K::spec_unpack(
                bytes.skip(taken as int),
                Narrow::<K::UnpackVisitor>::spec_narrow(visitor),
                VERIFY,
            );
        let key = match K::unpack::<U, VERIFY>(
            unpacker,
            Narrow::<K::UnpackVisitor>::narrow(visitor),
        ) {
            Ok(key) => key,
            Err(UnpackError::Packable(e)) => {
                proof {
                    lemma_entries_ascending_failure_stays::<K, V, P::View>(
                        bytes,
                        (i + 1) as nat,
                        count as nat,
                        visitor,
                        VERIFY,
                    );
                }
                return Err(
                    UnpackError::Packable(UnpackOrderedMapError::MapError(UnpackMapError::Key(e))),
                );
            },
            Err(UnpackError::Unpacker(e)) => {
                proof {
                    lemma_entries_ascending_failure_stays::<K, V, P::View>(
                        bytes,
                        (i + 1) as nat,
                        count as nat,
                        visitor,
                        VERIFY,
                    );
                }
                return Err(UnpackError::Unpacker(e));
            },
        };
        let ghost m = next_key->Done_1;
        proof {
            assert(bytes.skip(taken as int).skip(m as int) =~= bytes.skip(taken as int + m));
        }
        let rank = match last_key(&map) {
            Some(last) => {
                proof {
                    let keys = keys_of(pairs);
                    assert(keys.to_set().contains(*last));
                    assert(keys.contains(*last));
                    let j = choose|j: int| 0 <= j < keys.len() && keys[j] == *last;
                    assert(keys.contains(keys.last()));
                    assert(map@.contains_key(keys.last()));
                    if j < keys.len() - 1 {
                        assert(precedes(keys[j], keys[keys.len() - 1]));
                    }
                    assert(keys.last() == *last);
                }
                compare(last, &key)
            },
            None => {
                proof {
                    if pairs.len() > 0 {
                        assert(keys_of(pairs).to_set().contains(keys_of(pairs)[0]));
                    }
                }
                Rank::Before
            },
        };
        match rank {
            Rank::Same => {
                proof {
                    lemma_entries_ascending_failure_stays::<K, V, P::View>(
                        bytes,
                        (i + 1) as nat,
                        count as nat,
                        visitor,
                        VERIFY,
                    );
                }
                return Err(
                    UnpackError::Packable(
                        UnpackOrderedMapError::MapError(UnpackMapError::DuplicateKey(key)),
                    ),
                );
            },
            Rank::After => {
                proof {
                    lemma_entries_ascending_failure_stays::<K, V, P::View>(
                        bytes,
                        (i + 1) as nat,
                        count as nat,
                        visitor,
                        VERIFY,
                    );
                }
                return Err(UnpackError::Packable(UnpackOrderedMapError::Unordered));
            },
            Rank::Before => {},
        }
        let ghost next_value = V::spec_unpack(bytes.skip(taken as int + m), visitor, VERIFY);
        let value = match V::unpack::<U, VERIFY>(unpacker, visitor) {
            Ok(value) => value,
            Err(UnpackError::Packable(e)) => {
                proof {
                    lemma_entries_ascending_failure_stays::<K, V, P::View>(
                        bytes,
                        (i + 1) as nat,
                        count as nat,
                        visitor,
                        VERIFY,
                    );
                }
                return Err(
                    UnpackError::Packable(
                        UnpackOrderedMapError::MapError(UnpackMapError::Value(e)),
                    ),
                );
            },
            Err(UnpackError::Unpacker(e)) => {
                proof {
                    lemma_entries_ascending_failure_stays::<K, V, P::View>(
                        bytes,
                        (i + 1) as nat,
                        count as nat,
                        visitor,
                        VERIFY,
                    );
                }
                return Err(UnpackError::Unpacker(e));
            },
        };
        proof {
            let l = next_value->Done_1;
            assert(bytes.skip(taken as int + m).skip(l as int) =~= bytes.skip(
                taken as int + m + l,
            ));
            let longer = pairs.push((key, value));
            assert(longer.drop_last() =~= pairs);
            assert(deep_entries(pairs).push((key, value.deep_view())) =~= deep_entries(longer));
            assert forall|a: int, b: int| 0 <= a < b < longer.len() implies #[trigger] precedes(
                keys_of(longer)[a],
                keys_of(longer)[b],
            ) by {
                if b == pairs.len() {
                    if a < pairs.len() - 1 {
                        assert(precedes(keys_of(pairs)[a], keys_of(pairs)[pairs.len() - 1]));
                    }
                } else {
                    assert(precedes(keys_of(pairs)[a], keys_of(pairs)[b]));
                }
            }
            pairs = longer;
            taken = taken + m + l;
        }
        map.insert(key, value);
        i += 1;
    }
    proof {
        lemma_map_deep_view(&map);
        lemma_deep_entries_to_map(pairs);
        lemma_ascending_no_duplicates(keys_of(pairs));
        assert(keys_of(deep_entries(pairs)) =~= keys_of(pairs));
        lemma_valid_entries_to_map(pairs);
    }
    Ok(map)
}

/// Unpacking the encodings of valid entries that pass the checks, in ascending order of
/// their keys, gives the entries back.
pub proof fn lemma_entries_ascending_round_trip<
    K: SortKey,
    V: Packable<UnpackVisitor: Narrow<K::UnpackVisitor>>,
    P,
>(entries: Seq<(K, V)>, rest: Seq<u8>, visitor: &V::UnpackVisitor, verify: bool)
    requires
        all_valid_entries(entries),
        all_pass_entries(entries, visitor),
        ascending(keys_of(entries)),
    ensures
        spec_unpack_entries_ascending::<K, V, P>(
            spec_pack_entries(entries) + rest,
            entries.len(),
            visitor,
            verify,
        ) == Decoded::<
            Seq<(K, V::V)>,
            UnpackOrderedMapError<
                K,
                <K::UnpackError as ErrorView>::View,
                <V::UnpackError as ErrorView>::View,
                P,
            >,
        >::Done(deep_entries(entries), spec_pack_entries(entries).len()),
    decreases entries.len(),
{
    K::lemma_sort_key();
    lemma_order::<K>();
    if entries.len() > 0 {
        let front = entries.drop_last();
        let (key, value) = entries.last();
        let bytes = spec_pack_entries(entries) + rest;
        assert(bytes =~= spec_pack_entries(front) + (key.spec_pack() + value.spec_pack() + rest));
        assert(keys_of(front) =~= keys_of(entries).take(entries.len() - 1));
        lemma_entries_ascending_round_trip::<K, V, P>(
            front,
            key.spec_pack() + value.spec_pack() + rest,
            visitor,
            verify,
        );
        let n = spec_pack_entries(front).len();
        assert(bytes.skip(n as int) =~= key.spec_pack() + (value.spec_pack() + rest));
        key.lemma_round_trip(value.spec_pack() + rest, Narrow::<K::UnpackVisitor>::spec_narrow(visitor), verify);
        let m = key.spec_pack().len();
        assert(bytes.skip(n as int + m) =~= value.spec_pack() + rest);
        value.lemma_round_trip(rest, visitor, verify);
        assert(key.deep_view() == key);
        assert((entries.len() - 1) as nat == front.len());
        if front.len() > 0 {
            assert(precedes(keys_of(entries)[entries.len() - 2], keys_of(entries)[entries.len() - 1]));
            assert(deep_entries(front).last().0 == keys_of(entries)[entries.len() - 2]);
            assert(!precedes(key, deep_entries(front).last().0));
            assert(deep_entries(front).last().0 != key);
        }
        assert(deep_entries(front).push((key, value.deep_view())) =~= deep_entries(entries));
    } else {
        assert(deep_entries(entries) =~= Seq::<(K, V::V)>::empty());
    }
}

/// Unpacking the encodings of valid entries that pass the checks, in ascending order of
/// their keys, cut short fails for want of bytes.
pub proof fn lemma_entries_ascending_truncated<
    K: SortKey,
    V: Packable<UnpackVisitor: Narrow<K::UnpackVisitor>>,
    P,
>(entries: Seq<(K, V)>, len: nat, visitor: &V::UnpackVisitor, verify: bool)
    requires
        all_valid_entries(entries),
        all_pass_entries(entries, visitor),
        ascending(keys_of(entries)),
        len < spec_pack_entries(entries).len(),
    ensures
        spec_unpack_entries_ascending::<K, V, P>(
            spec_pack_entries(entries).take(len as int),
            entries.len(),
            visitor,
            verify,
        ) is Short,
    decreases entries.len(),
{
    K::lemma_sort_key();
    lemma_order::<K>();
    let front = entries.drop_last();
    let (key, value) = entries.last();
    let done = spec_pack_entries(front);
    let cut = spec_pack_entries(entries).take(len as int);
    assert(keys_of(front) =~= keys_of(entries).take(entries.len() - 1));
    assert((entries.len() - 1) as nat == front.len());
    if len < done.len() {
        assert(cut =~= done.take(len as int));
        lemma_entries_ascending_truncated::<K, V, P>(front, len, visitor, verify);
        lemma_entries_ascending_failure_stays::<K, V, P>(
            cut,
            front.len(),
            entries.len(),
            visitor,
            verify,
        );
    } else if len < done.len() + key.spec_pack().len() {
        let left = (len - done.len()) as nat;
        assert(cut =~= done + key.spec_pack().take(left as int));
        lemma_entries_ascending_round_trip::<K, V, P>(
            front,
            key.spec_pack().take(left as int),
            visitor,
            verify,
        );
        assert(cut.skip(done.len() as int) =~= key.spec_pack().take(left as int));
        key.lemma_truncated(left, Narrow::<K::UnpackVisitor>::spec_narrow(visitor), verify);
    } else {
        let left = (len - done.len() - key.spec_pack().len()) as nat;
        let tail = value.spec_pack().take(left as int);
        assert(cut =~= done + (key.spec_pack() + tail));
        lemma_entries_ascending_round_trip::<K, V, P>(front, key.spec_pack() + tail, visitor, verify);
        assert(cut.skip(done.len() as int) =~= key.spec_pack() + tail);
        key.lemma_round_trip(tail, Narrow::<K::UnpackVisitor>::spec_narrow(visitor), verify);
        assert(cut.skip(done.len() as int + key.spec_pack().len()) =~= tail);
        value.lemma_truncated(left, visitor, verify);
        assert(key.deep_view() == key);
        if front.len() > 0 {
            assert(precedes(keys_of(entries)[entries.len() - 2], keys_of(entries)[entries.len() - 1]));
            assert(deep_entries(front).last().0 == keys_of(entries)[entries.len() - 2]);
            assert(!precedes(key, deep_entries(front).last().0));
            assert(deep_entries(front).last().0 != key);
        }
    }
}

/// The entries of an ordered map of std, in ascending order of their keys, make up the map.
pub proof fn lemma_sorted_entries_to_map<K: SortKey, V>(map: &BTreeMap<K, V>)
    ensures
        entries_to_map(sorted_entries(map@)) == map@,
{
    let entries = sorted_entries(map@);
    lemma_sorted_entries(map);
    lemma_entries_to_map_keys(entries);
    lemma_ascending_no_duplicates(keys_of(entries));
    assert forall|key: K| map@.contains_key(key) implies #[trigger] entries_to_map(entries)[key]
        == map@[key] by {
        assert(keys_of(entries).to_set().contains(key));
        assert(keys_of(entries).contains(key));
        let j = choose|j: int| 0 <= j < entries.len() && keys_of(entries)[j] == key;
        lemma_entries_to_map_values(entries, j);
    }
    assert(entries_to_map(entries) =~= map@);
}

/// `BTreeMap<K, V>`: the number of entries as a `u64`, then each key followed by its value,
/// in ascending order of the keys. Unpacking rejects a key that does not come strictly after
/// the key before it.
impl<K: SortKey, V: Packable<UnpackVisitor: Narrow<K::UnpackVisitor>>> Packable for BTreeMap<K, V> {
    type UnpackError = UnpackOrderedMapError<
        K,
        K::UnpackError,
        V::UnpackError,
        core::num::TryFromIntError,
    >;

    type UnpackVisitor = V::UnpackVisitor;

    open spec fn valid(&self) -> bool {
        valid_map(self@)
    }

    open spec fn passes(&self, visitor: &V::UnpackVisitor) -> bool {
        passes_map(self@, visitor)
    }

    open spec fn spec_pack(&self) -> Seq<u8> {
        le_bytes(self@.dom().len(), 8) + spec_pack_entries(sorted_entries(self@))
    }

    open spec fn spec_unpack(bytes: Seq<u8>, visitor: &V::UnpackVisitor, verify: bool) -> Decoded<
        Map<K, V::V>,
        UnpackOrderedMapError<
            K,
            <K::UnpackError as ErrorView>::View,
            <V::UnpackError as ErrorView>::View,
            (),
        >,
    > {
        match usize::spec_unpack(bytes, &(), verify) {
            Decoded::Done(count, n) => match spec_unpack_entries_ascending::<K, V, ()>(
                bytes.skip(n as int),
                count as nat,
                visitor,
                verify,
            ) {
                Decoded::Done(entries, m) => Decoded::Done(entries_to_map(entries), n + m),
                Decoded::Invalid(e) => Decoded::Invalid(e),
                Decoded::Short(required, had) => Decoded::Short(required, had),
            },
            Decoded::Invalid(e) => Decoded::Invalid(
                UnpackOrderedMapError::MapError(UnpackMapError::Prefix(e)),
            ),
            Decoded::Short(required, had) => Decoded::Short(required, had),
        }
    }

    proof fn lemma_round_trip(&self, rest: Seq<u8>, visitor: &V::UnpackVisitor, verify: bool) {
        lemma_sorted_entries(self);
        lemma_sorted_entries_to_map(self);
        lemma_map_deep_view(self);
        let entries = sorted_entries(self@);
        let count = entries.len() as usize;
        let bytes = self.spec_pack() + rest;
        assert(bytes =~= count.spec_pack() + (spec_pack_entries(entries) + rest));
        count.lemma_round_trip(spec_pack_entries(entries) + rest, &(), verify);
        lemma_le_bytes_len(entries.len(), 8);
        assert(bytes.skip(8) =~= spec_pack_entries(entries) + rest);
        assert(all_valid_entries(entries)) by {
            assert forall|i: int| 0 <= i < entries.len() implies (#[trigger] entries[i]).0.valid()
                && entries[i].1.valid() by {
                assert(self@.contains_key(entries[i].0));
                assert(self@[entries[i].0].valid());
            }
        }
        assert(all_pass_entries(entries, visitor)) by {
            assert forall|i: int| 0 <= i < entries.len() implies (#[trigger] entries[i]).0.passes(
                Narrow::<K::UnpackVisitor>::spec_narrow(visitor),
            ) && entries[i].1.passes(visitor) by {
                assert(self@.contains_key(entries[i].0));
                assert(self@[entries[i].0].passes(visitor));
            }
        }
        lemma_entries_ascending_round_trip::<K, V, ()>(entries, rest, visitor, verify);
        lemma_deep_entries_to_map(entries);
    }

    proof fn lemma_truncated(&self, len: nat, visitor: &V::UnpackVisitor, verify: bool) {
        lemma_sorted_entries(self);
        let entries = sorted_entries(self@);
        let count = entries.len() as usize;
        let cut = self.spec_pack().take(len as int);
        lemma_le_bytes_len(entries.len(), 8);
        assert(all_valid_entries(entries)) by {
            assert forall|i: int| 0 <= i < entries.len() implies (#[trigger] entries[i]).0.valid()
                && entries[i].1.valid() by {
                assert(self@.contains_key(entries[i].0));
                assert(self@[entries[i].0].valid());
            }
        }
        assert(all_pass_entries(entries, visitor)) by {
            assert forall|i: int| 0 <= i < entries.len() implies (#[trigger] entries[i]).0.passes(
                Narrow::<K::UnpackVisitor>::spec_narrow(visitor),
            ) && entries[i].1.passes(visitor) by {
                assert(self@.contains_key(entries[i].0));
                assert(self@[entries[i].0].passes(visitor));
            }
        }
        if len < 8 {
            assert(cut =~= count.spec_pack().take(len as int));
            count.lemma_truncated(len, &(), verify);
        } else {
            let left = (len - 8) as nat;
            assert(cut =~= count.spec_pack() + spec_pack_entries(entries).take(left as int));
            count.lemma_round_trip(spec_pack_entries(entries).take(left as int), &(), verify);
            assert(cut.skip(8) =~= spec_pack_entries(entries).take(left as int));
            lemma_entries_ascending_truncated::<K, V, ()>(entries, left, visitor, verify);
        }
    }

    proof fn lemma_invalid_can_occur(bytes: Seq<u8>, visitor: &V::UnpackVisitor, verify: bool) {
    }

    fn pack<P: Packer>(&self, packer: &mut P) -> (r: Result<(), P::Error>) {
        broadcast use vstd::std_specs::btree::group_btree_axioms;

        proof {
            K::lemma_sort_key();
            lemma_sorted_entries(self);
        }
        let ghost before = *packer;
        self.len().pack(packer)?;
        let ghost between = *packer;
        let r = pack_entries_ascending(self, packer);
        proof {
            if r is Ok {
                lemma_accepted_twice(
                    &before,
                    &between,
                    packer,
                    le_bytes(self@.dom().len(), 8),
                    spec_pack_entries(sorted_entries(self@)),
                );
            }
        }
        r
    }

    fn unpack<U: Unpacker, const VERIFY: bool>(
        unpacker: &mut U,
        visitor: &V::UnpackVisitor,
    ) -> (r: Result<Self, UnpackError<Self::UnpackError, U::Error>>) {
        let ghost bytes = unpacker.remaining();
        let count = match usize::unpack::<U, VERIFY>(unpacker, &()) {
            Ok(count) => count,
            Err(UnpackError::Packable(e)) => {
                return Err(
                    UnpackError::Packable(
                        UnpackOrderedMapError::MapError(UnpackMapError::Prefix(e)),
                    ),
                );
            },
            Err(UnpackError::Unpacker(e)) => {
                return Err(UnpackError::Unpacker(e));
            },
        };
        let r = unpack_entries_ascending::<K, V, core::num::TryFromIntError, U, VERIFY>(
            unpacker,
            visitor,
            count as u64,
        );
        proof {
            if r is Ok {
                let m = spec_unpack_entries_ascending::<K, V, ()>(
                    bytes.skip(8),
                    count as nat,
                    visitor,
                    VERIFY,
                )->Done_1;
                assert(bytes.skip(8).skip(m as int) =~= bytes.skip(8 + m as int));
            }
        }
        r
    }
}

} // verus!
