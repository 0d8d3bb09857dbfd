//! Ordered sets: the number of items, then the items in ascending order.

use std::collections::BTreeSet;
use vstd::prelude::*;
use vstd::std_specs::btree::{axiom_spec_btree_keys_iter, increasing_seq, spec_btree_keys_iter};
use vstd::std_specs::iter::IteratorSpec;

use crate::error::{CoerceInto, ErrorView, UnpackError};
use crate::items::{all_pass, all_valid, lemma_pack_items_push, lemma_pack_items_take, spec_pack_items};
use crate::le::{le_bytes, lemma_le_bytes_len};
use crate::order::{
    compare, lemma_increasing_refs, lemma_order, precedes, Rank, SortKey,
};
use crate::packable::{Decoded, Packable};
use crate::packer::{accepted, lemma_accepted_twice, Packer};
use crate::unpacker::{advanced, Unpacker};

verus! {

/// Error type raised when unpacking a set fails.
#[derive(Debug)]
pub enum UnpackSetError<T, I, P> {
    /// An item is in the set twice: the item.
    DuplicateItem(T),
    /// An item could not be unpacked.
    Item(I),
    /// The length prefix could not be unpacked.
    Prefix(P),
}

impl<T: DeepView, I: ErrorView, P: ErrorView> ErrorView for UnpackSetError<T, I, P> {
    type View = UnpackSetError<T::V, I::View, P::View>;

    open spec fn error_view(&self) -> UnpackSetError<T::V, I::View, P::View> {
        match self {
            UnpackSetError::DuplicateItem(item) => UnpackSetError::DuplicateItem(item.deep_view()),
            UnpackSetError::Item(e) => UnpackSetError::Item(e.error_view()),
            UnpackSetError::Prefix(e) => UnpackSetError::Prefix(e.error_view()),
        }
    }

    open spec fn can_occur() -> bool {
        true
    }
}

/// An error of this type turns into itself.
impl<T: DeepView, I: ErrorView, P: ErrorView> CoerceInto<UnpackSetError<T, I, P>> for
    UnpackSetError<T, I, P>
{
    open spec fn spec_coerce(
        view: UnpackSetError<T::V, I::View, P::View>,
    ) -> UnpackSetError<T::V, I::View, P::View> {
        view
    }

    proof fn lemma_coerce_can_occur() {
    }

    fn coerce_into(self) -> (r: UnpackSetError<T, I, P>) {
        self
    }
}

/// Error type raised when unpacking an ordered set fails.
#[derive(Debug)]
pub enum UnpackOrderedSetError<T, I, P> {
    /// The error of a set.
    SetError(UnpackSetError<T, I, P>),
    /// An item does not come after the item before it.
    Unordered,
}

impl<T: DeepView, I: ErrorView, P: ErrorView> ErrorView for UnpackOrderedSetError<T, I, P> {
    type View = UnpackOrderedSetError<T::V, I::View, P::View>;

    open spec fn error_view(&self) -> UnpackOrderedSetError<T::V, I::View, P::View> {
        match self {
            UnpackOrderedSetError::SetError(e) => UnpackOrderedSetError::SetError(e.error_view()),
            UnpackOrderedSetError::Unordered => UnpackOrderedSetError::Unordered,
        }
    }

    open spec fn can_occur() -> bool {
        true
    }
}

/// An error of this type turns into itself.
impl<T: DeepView, I: ErrorView, P: ErrorView> CoerceInto<UnpackOrderedSetError<T, I, P>> for
    UnpackOrderedSetError<T, I, P>
{
    open spec fn spec_coerce(
        view: UnpackOrderedSetError<T::V, I::View, P::View>,
    ) -> UnpackOrderedSetError<T::V, I::View, P::View> {
        view
    }

    proof fn lemma_coerce_can_occur() {
    }

    fn coerce_into(self) -> (r: UnpackOrderedSetError<T, I, P>) {
        self
    }
}

/// Whether every item comes strictly before the items behind it.
pub open spec fn ascending<T: Ord>(items: Seq<T>) -> bool {
    forall|i: int, j: int| 0 <= i < j < items.len() ==> #[trigger] precedes(items[i], items[j])
}

/// No item is twice in an ascending listing, which therefore is as long as its set is large.
pub proof fn lemma_ascending_no_duplicates<T: SortKey>(items: Seq<T>)
    requires
        ascending(items),
    ensures
        items.no_duplicates(),
        items.len() == items.to_set().len(),
{
    lemma_order::<T>();
    assert forall|i: int, j: int| 0 <= i < items.len() && 0 <= j < items.len() && i != j implies items[i]
        != items[j] by {
        if i < j {
            assert(precedes(items[i], items[j]));
            assert(!precedes(items[i], items[i]));
        } else {
            assert(precedes(items[j], items[i]));
            assert(!precedes(items[j], items[j]));
        }
    }
    assert(items.no_duplicates());
    items.unique_seq_to_set();
}

/// What `bytes` decode to as `count` items in strictly ascending order: the items and the
/// number of bytes they take together, or what the first item that fails comes to. An item
/// that equals the one before it is a duplicate; one that comes before it is out of order.
pub open spec fn spec_unpack_ascending<T: SortKey, P>(
    bytes: Seq<u8>,
    count: nat,
    visitor: &T::UnpackVisitor,
    verify: bool,
) -> Decoded<Seq<T>, UnpackOrderedSetError<T, <T::UnpackError as ErrorView>::View, P>>
    decreases count,
{
    if count == 0 {
        Decoded::Done(Seq::empty(), 0)
    } else {
        match spec_unpack_ascending::<T, P>(bytes, (count - 1) as nat, visitor, verify) {
            Decoded::Done(items, n) => match T::spec_unpack(bytes.skip(n as int), visitor, verify) {
                Decoded::Done(item, m) => if items.len() > 0 && items.last() == item {
                    Decoded::Invalid(
                        UnpackOrderedSetError::SetError(UnpackSetError::DuplicateItem(item)),
                    )
                } else if items.len() > 0 && precedes(item, items.last()) {
                    Decoded::Invalid(UnpackOrderedSetError::Unordered)
                } else {
                    Decoded::Done(items.push(item), n + m)
                },
                Decoded::Invalid(e) => Decoded::Invalid(
                    UnpackOrderedSetError::SetError(UnpackSetError::Item(e)),
                ),
                Decoded::Short(required, had) => Decoded::Short(required, had),
            },
            Decoded::Invalid(e) => Decoded::Invalid(e),
            Decoded::Short(required, had) => Decoded::Short(required, had),
        }
    }
}

/// Once an item fails, the run fails in the same way, however many items are asked for.
pub proof fn lemma_ascending_failure_stays<T: SortKey, P>(
    bytes: Seq<u8>,
    failed: nat,
    count: nat,
    visitor: &T::UnpackVisitor,
    verify: bool,
)
    requires
        failed <= count,
        !(spec_unpack_ascending::<T, P>(bytes, failed, visitor, verify) is Done),
    ensures
        spec_unpack_ascending::<T, P>(bytes, count, visitor, verify) == spec_unpack_ascending::<
            T,
            P,
        >(bytes, failed, visitor, verify),
    decreases count,
{
    if failed < count {
        lemma_ascending_failure_stays::<T, P>(bytes, failed, (count - 1) as nat, visitor, verify);
    }
}

/// The greatest item of the set, if it has any.
///
/// Trusted: `BTreeSet::last` of std, which returns the last item of the set, the maximum of
/// all its items, and `None` for the empty set.
#[verifier::external_body]
pub(crate) fn last_item<T: SortKey>(set: &BTreeSet<T>) -> (r: Option<&T>)
    ensures
        match r {
            Some(last) => set@.contains(*last) && forall|item: T|
                set@.contains(item) ==> !precedes(*last, item),
            None => forall|item: T| !set@.contains(item),
        },
{
    set.last()
}

/// Unpacks `count` items that have to come in strictly ascending order into a set.
pub fn unpack_ascending<T: SortKey, P: ErrorView, U: Unpacker, const VERIFY: bool>(
    unpacker: &mut U,
    visitor: &T::UnpackVisitor,
    count: u64,
) -> (r: Result<BTreeSet<T>, UnpackError<UnpackOrderedSetError<T, T::UnpackError, P>, U::Error>>)
    ensures
        match spec_unpack_ascending::<T, P::View>(
            old(unpacker).remaining(),
            count as nat,
            visitor,
            VERIFY,
        ) {
            Decoded::Done(items, n) => {
                &&& r matches Ok(set) && set@ == items.to_set() && items.len() == count
                &&& ascending(items)
                &&& forall|i: int| 0 <= i < items.len() ==> (#[trigger] items[i]).valid()
                &&& advanced(old(unpacker), final(unpacker), n)
            },
            Decoded::Invalid(e) => r matches Err(UnpackError::Packable(x)) && x.error_view() == e,
            Decoded::Short(required, had) => r matches Err(UnpackError::Unpacker(x)) && U::is_eof(
                x,
                required,
                had,
            ),
        },
{
    let ghost before = *unpacker;
    let ghost bytes = unpacker.remaining();
    let ghost mut taken: nat = 0;
    let ghost mut items: Seq<T> = Seq::empty();
    let mut set: BTreeSet<T> = BTreeSet::new();
    let mut i: u64 = 0;
    proof {
        T::lemma_sort_key();
        lemma_order::<T>();
        assert(bytes.skip(0) =~= bytes);
        assert(items.to_set() =~= Set::<T>::empty());
    }
    while i < count
        invariant
            i <= count,
            items.len() == i,
            ascending(items),
            forall|k: int| 0 <= k < items.len() ==> (#[trigger] items[k]).valid(),
            set@ == items.to_set(),
            before == *old(unpacker),
            bytes == before.remaining(),
            spec_unpack_ascending::<T, P::View>(bytes, i as nat, visitor, VERIFY) == Decoded::<
                Seq<T>,
                UnpackOrderedSetError<T, <T::UnpackError as ErrorView>::View, P::View>,
            >::Done(items, taken),
            advanced(&before, unpacker, taken),
        decreases count - i,
    {
        proof {
            T::lemma_sort_key();
            lemma_order::<T>();
        }
        let ghost next = T::spec_unpack(bytes.skip(taken as int), visitor, VERIFY);
        proof {
            assert(((i + 1) as nat - 1) as nat == i as nat);
        }
        let item = match T::unpack::<U, VERIFY>(unpacker, visitor) {
            Ok(item) => item,
            Err(UnpackError::Packable(e)) => {
                proof {
                    lemma_ascending_failure_stays::<T, P::View>(
                        bytes,
                        (i + 1) as nat,
                        count as nat,
                        visitor,
                        VERIFY,
                    );
                }
                return Err(
                    UnpackError::Packable(UnpackOrderedSetError::SetError(UnpackSetError::Item(e))),
                );
            },
            Err(UnpackError::Unpacker(e)) => {
                proof {
                    lemma_ascending_failure_stays::<T, P::View>(
                        bytes,
                        (i + 1) as nat,
                        count as nat,
                        visitor,
                        VERIFY,
                    );
                }
                return Err(UnpackError::Unpacker(e));
            },
        };
        let rank = match last_item(&set) {
            Some(last) => {
                proof {
                    assert(items.to_set().contains(*last));
                    assert(items.contains(*last));
                    let j = choose|j: int| 0 <= j < items.len() && items[j] == *last;
                    assert(items.contains(items.last()));
                    assert(set@.contains(items.last()));
                    if j < items.len() - 1 {
                        assert(precedes(items[j], items[items.len() - 1]));
                    }
                    assert(items.last() == *last);
                }
                compare(last, &item)
            },
            None => {
                proof {
                    if items.len() > 0 {
                        assert(items.to_set().contains(items[0]));
                    }
                }
                Rank::Before
            },
        };
        match rank {
            Rank::Same => {
                proof {
                    lemma_ascending_failure_stays::<T, P::View>(
                        bytes,
                        (i + 1) as nat,
                        count as nat,
                        visitor,
                        VERIFY,
                    );
                }
                return Err(
                    UnpackError::Packable(
                        UnpackOrderedSetError::SetError(UnpackSetError::DuplicateItem(item)),
                    ),
                );
            },
            Rank::After => {
                proof {
                    lemma_ascending_failure_stays::<T, P::View>(
                        bytes,
                        (i + 1) as nat,
                        count as nat,
                        visitor,
                        VERIFY,
                    );
                }
                return Err(UnpackError::Packable(UnpackOrderedSetError::Unordered));
            },
            Rank::Before => {},
        }
        proof {
            let m = next->Done_1;
            assert(bytes.skip(taken as int).skip(m as int) =~= bytes.skip(taken as int + m));
            items.lemma_push_to_set_commute(item);
            assert forall|a: int, b: int| 0 <= a < b < items.push(item).len() implies precedes(
                items.push(item)[a],
                items.push(item)[b],
            ) by {
                if b == items.len() && a < items.len() - 1 {
                    assert(precedes(items[a], items.last()));
                }
            }
            items = items.push(item);
            taken = taken + m;
        }
        set.insert(item);
        i += 1;
    }
    Ok(set)
}

/// The items of a set in ascending order.
pub open spec fn sorted_items<T: Ord>(set: Set<T>) -> Seq<T> {
    choose|items: Seq<T>| ascending(items) && items.to_set() == set
}

/// Two ascending listings of one set are the same listing.
pub proof fn lemma_ascending_unique<T: SortKey>(a: Seq<T>, b: Seq<T>)
    requires
        ascending(a),
        ascending(b),
        a.to_set() == b.to_set(),
    ensures
        a == b,
    decreases a.len(),
{
    lemma_order::<T>();
    lemma_ascending_no_duplicates(a);
    lemma_ascending_no_duplicates(b);
    if a.len() == 0 {
        assert(a =~= b);
    } else {
        let x = a.last();
        let y = b.last();
        assert(a.contains(x));
        assert(b.to_set().contains(x));
        assert(b.contains(x));
        let j = choose|j: int| 0 <= j < b.len() && b[j] == x;
        assert(b.contains(y));
        assert(a.to_set().contains(y));
        assert(a.contains(y));
        let i = choose|i: int| 0 <= i < a.len() && a[i] == y;
        if j < b.len() - 1 {
            assert(precedes(b[j], b[b.len() - 1]));
        }
        if i < a.len() - 1 {
            assert(precedes(a[i], a[a.len() - 1]));
        }
        assert(x == y);
        let a0 = a.drop_last();
        let b0 = b.drop_last();
        assert forall|z: T| a0.to_set().contains(z) <==> b0.to_set().contains(z) by {
            if a0.contains(z) {
                let k = choose|k: int| 0 <= k < a0.len() && a0[k] == z;
                assert(a[k] == z);
                assert(a.contains(z));
                assert(b.to_set().contains(z));
                assert(b.contains(z));
                let l = choose|l: int| 0 <= l < b.len() && b[l] == z;
                assert(precedes(a[k], a[a.len() - 1]));
                assert(b0[l] == z);
            }
            if b0.contains(z) {
                let k = choose|k: int| 0 <= k < b0.len() && b0[k] == z;
                assert(b[k] == z);
                assert(b.contains(z));
                assert(a.to_set().contains(z));
                assert(a.contains(z));
                let l = choose|l: int| 0 <= l < a.len() && a[l] == z;
                assert(precedes(b[k], b[b.len() - 1]));
                assert(a0[l] == z);
            }
        }
        assert(a0.to_set() =~= b0.to_set());
        lemma_ascending_unique(a0, b0);
        assert(a =~= a0.push(x));
        assert(b =~= b0.push(y));
    }
}

/// The set of an ordered set of std has an ascending listing, and only one: `sorted_items`.
pub proof fn lemma_sorted_items<T: SortKey>(set: &BTreeSet<T>)
    ensures
        ascending(sorted_items(set@)),
        sorted_items(set@).to_set() == set@,
        sorted_items(set@).len() == set@.len(),
        set@.len() <= usize::MAX,
        set.deep_view() == set@,
{
    broadcast use vstd::std_specs::btree::group_btree_axioms;

    T::lemma_sort_key();
    lemma_order::<T>();
    axiom_spec_btree_keys_iter(set);
    let refs = spec_btree_keys_iter(set).remaining();
    lemma_increasing_refs::<T>(refs);
    let listing = refs.unref();
    assert(ascending(listing) && listing.to_set() == set@);
    lemma_ascending_no_duplicates(sorted_items(set@));
    assert(set@.len() == vstd::std_specs::btree::spec_btree_set_len(set));
    assert(set.deep_view() =~= set@);
}

/// Unpacking the encodings of valid items that pass the checks, in ascending order, gives
/// the items back.
pub proof fn lemma_ascending_round_trip<T: SortKey, P>(
    items: Seq<T>,
    rest: Seq<u8>,
    visitor: &T::UnpackVisitor,
    verify: bool,
)
    requires
        all_valid(items),
        all_pass(items, visitor),
        ascending(items),
    ensures
        spec_unpack_ascending::<T, P>(spec_pack_items(items) + rest, items.len(), visitor, verify)
            == Decoded::<
            Seq<T>,
            UnpackOrderedSetError<T, <T::UnpackError as ErrorView>::View, P>,
        >::Done(items, spec_pack_items(items).len()),
    decreases items.len(),
{
    T::lemma_sort_key();
    lemma_order::<T>();
    if items.len() > 0 {
        let front = items.drop_last();
        let last = items.last();
        let bytes = spec_pack_items(items) + rest;
        assert(bytes =~= spec_pack_items(front) + (last.spec_pack() + rest));
        lemma_ascending_round_trip::<T, P>(front, last.spec_pack() + rest, visitor, verify);
        let n = spec_pack_items(front).len();
        assert(bytes.skip(n as int) =~= last.spec_pack() + rest);
        last.lemma_round_trip(rest, visitor, verify);
        assert(last.deep_view() == last);
        assert((items.len() - 1) as nat == front.len());
        if front.len() > 0 {
            assert(precedes(items[items.len() - 2], items[items.len() - 1]));
            assert(front.last() == items[items.len() - 2]);
        }
        assert(front.push(last) =~= items);
    } else {
        assert(items =~= Seq::<T>::empty());
    }
}

/// Unpacking the encodings of valid items that pass the checks, in ascending order, cut
/// short fails for want of bytes.
pub proof fn lemma_ascending_truncated<T: SortKey, P>(
    items: Seq<T>,
    len: nat,
    visitor: &T::UnpackVisitor,
    verify: bool,
)
    requires
        all_valid(items),
        all_pass(items, visitor),
        ascending(items),
        len < spec_pack_items(items).len(),
    ensures
        spec_unpack_ascending::<T, P>(
            spec_pack_items(items).take(len as int),
            items.len(),
            visitor,
            verify,
        ) is Short,
    decreases items.len(),
{
    let front = items.drop_last();
    let last = items.last();
    let done = spec_pack_items(front);
    let cut = spec_pack_items(items).take(len as int);
    if len < done.len() {
        assert(cut =~= done.take(len as int));
        lemma_ascending_truncated::<T, P>(front, len, visitor, verify);
        lemma_ascending_failure_stays::<T, P>(cut, front.len(), items.len(), visitor, verify);
    } else {
        let left = (len - done.len()) as nat;
        assert(cut =~= done + last.spec_pack().take(left as int));
        lemma_ascending_round_trip::<T, P>(front, last.spec_pack().take(left as int), visitor, verify);
        assert(cut.skip(done.len() as int) =~= last.spec_pack().take(left as int));
        last.lemma_truncated(left, visitor, verify);
        assert((items.len() - 1) as nat == front.len());
    }
}

/// Packs the items of the set in ascending order.
pub fn pack_ascending<T: SortKey, P: Packer>(set: &BTreeSet<T>, packer: &mut P) -> (r: Result<
    (),
    P::Error,
>)
    requires
        forall|item: T| set@.contains(item) ==> item.valid(),
    ensures
        accepted(old(packer), final(packer), r is Ok, spec_pack_items(sorted_items(set@))),
{
    broadcast use vstd::std_specs::btree::group_btree_axioms;

    let ghost before = *packer;
    let ghost sorted = sorted_items(set@);
    proof {
        T::lemma_sort_key();
        lemma_sorted_items(set);
        assert(before.written() + spec_pack_items(sorted.take(0)) =~= before.written());
    }
    for item in it: set.iter()
        invariant
            before == *old(packer),
            sorted == sorted_items(set@),
            ascending(sorted),
            sorted.to_set() == set@,
            forall|item: T| set@.contains(item) ==> item.valid(),
            it.seq().unref().to_set() == set@,
            increasing_seq(it.seq()),
            it.seq().len() == sorted.len(),
            accepted(&before, packer, true, spec_pack_items(sorted.take(it.index() as int))),
    {
        let ghost i = it.index() as int;
        proof {
            lemma_increasing_refs::<T>(it.seq());
            lemma_ascending_unique(it.seq().unref(), sorted);
            assert(*item == sorted[i]);
            assert(sorted.to_set().contains(sorted[i]));
        }
        let ghost between = *packer;
        let r = item.pack(packer);
        proof {
            lemma_pack_items_push(sorted.take(i), sorted[i]);
            assert(sorted.take(i).push(sorted[i]) =~= sorted.take(i + 1));
        }
        match r {
            Ok(()) => {
                proof {
                    lemma_accepted_twice(
                        &before,
                        &between,
                        packer,
                        spec_pack_items(sorted.take(i)),
                        sorted[i].spec_pack(),
                    );
                }
            },
            Err(e) => {
                proof {
                    lemma_pack_items_take(sorted, i + 1);
                    let done = spec_pack_items(sorted.take(i));
                    assert forall|n: nat| n >= spec_pack_items(sorted).len() implies !(
                    #[trigger] before.has_room(n)) by {
                        if before.has_room(n) {
                            assert(between.has_room((n - done.len()) as nat));
                        }
                    }
                }
                return Err(e);
            },
        }
    }
    proof {
        assert(sorted.take(sorted.len() as int) =~= sorted);
    }
    Ok(())
}

/// `BTreeSet<T>`: the number of items as a `u64`, then the items in ascending order.
/// Unpacking rejects an item that does not come strictly after the item before it.
impl<T: SortKey> Packable for BTreeSet<T> {
    type UnpackError = UnpackOrderedSetError<T, T::UnpackError, core::num::TryFromIntError>;

    type UnpackVisitor = T::UnpackVisitor;

    open spec fn valid(&self) -> bool {
        forall|item: T| self@.contains(item) ==> item.valid()
    }

    open spec fn passes(&self, visitor: &T::UnpackVisitor) -> bool {
        forall|item: T| self@.contains(item) ==> item.passes(visitor)
    }

    open spec fn spec_pack(&self) -> Seq<u8> {
        le_bytes(self@.len(), 8) + spec_pack_items(sorted_items(self@))
    }

    open spec fn spec_unpack(bytes: Seq<u8>, visitor: &T::UnpackVisitor, verify: bool) -> Decoded<
        Set<T>,
        UnpackOrderedSetError<T, <T::UnpackError as ErrorView>::View, ()>,
    > {
        match usize::spec_unpack(bytes, &(), verify) {
            Decoded::Done(count, n) => match spec_unpack_ascending::<T, ()>(
                bytes.skip(n as int),
                count as nat,
                visitor,
                verify,
            ) {
                Decoded::Done(items, m) => Decoded::Done(items.to_set(), n + m),
                Decoded::Invalid(e) => Decoded::Invalid(e),
                Decoded::Short(required, had) => Decoded::Short(required, had),
            },
            Decoded::Invalid(e) => Decoded::Invalid(
                UnpackOrderedSetError::SetError(UnpackSetError::Prefix(e)),
            ),
            Decoded::Short(required, had) => Decoded::Short(required, had),
        }
    }

    proof fn lemma_round_trip(&self, rest: Seq<u8>, visitor: &T::UnpackVisitor, verify: bool) {
        lemma_sorted_items(self);
        let items = sorted_items(self@);
        let count = items.len() as usize;
        let bytes = self.spec_pack() + rest;
        assert(bytes =~= count.spec_pack() + (spec_pack_items(items) + rest));
        count.lemma_round_trip(spec_pack_items(items) + rest, &(), verify);
        lemma_le_bytes_len(items.len(), 8);
        assert(bytes.skip(8) =~= spec_pack_items(items) + rest);
        assert(all_valid(items)) by {
            assert forall|i: int| 0 <= i < items.len() implies (#[trigger] items[i]).valid() by {
                assert(items.to_set().contains(items[i]));
            }
        }
        assert(all_pass(items, visitor)) by {
            assert forall|i: int| 0 <= i < items.len() implies (#[trigger] items[i]).passes(
                visitor,
            ) by {
                assert(items.to_set().contains(items[i]));
            }
        }
        lemma_ascending_round_trip::<T, ()>(items, rest, visitor, verify);
    }

    proof fn lemma_truncated(&self, len: nat, visitor: &T::UnpackVisitor, verify: bool) {
        lemma_sorted_items(self);
        let items = sorted_items(self@);
        let count = items.len() as usize;
        let cut = self.spec_pack().take(len as int);
        lemma_le_bytes_len(items.len(), 8);
        assert(all_valid(items)) by {
            assert forall|i: int| 0 <= i < items.len() implies (#[trigger] items[i]).valid() by {
                assert(items.to_set().contains(items[i]));
            }
        }
        assert(all_pass(items, visitor)) by {
            assert forall|i: int| 0 <= i < items.len() implies (#[trigger] items[i]).passes(
                visitor,
            ) by {
                assert(items.to_set().contains(items[i]));
            }
        }
        if len < 8 {
            assert(cut =~= count.spec_pack().take(len as int));
            count.lemma_truncated(len, &(), verify);
        } else {
            let left = (len - 8) as nat;
            assert(cut =~= count.spec_pack() + spec_pack_items(items).take(left as int));
            count.lemma_round_trip(spec_pack_items(items).take(left as int), &(), verify);
            assert(cut.skip(8) =~= spec_pack_items(items).take(left as int));
            lemma_ascending_truncated::<T, ()>(items, left, visitor, verify);
        }
    }

    proof fn lemma_invalid_can_occur(bytes: Seq<u8>, visitor: &T::UnpackVisitor, verify: bool) {
    }

    fn pack<P: Packer>(&self, packer: &mut P) -> (r: Result<(), P::Error>) {
        broadcast use vstd::std_specs::btree::group_btree_axioms;

        proof {
            T::lemma_sort_key();
            lemma_sorted_items(self);
        }
        let ghost before = *packer;
        self.len().pack(packer)?;
        let ghost between = *packer;
        let r = pack_ascending(self, packer);
        proof {
            if r is Ok {
                lemma_accepted_twice(
                    &before,
                    &between,
                    packer,
                    le_bytes(self@.len(), 8),
                    spec_pack_items(sorted_items(self@)),
                );
            }
        }
        r
    }

    fn unpack<U: Unpacker, const VERIFY: bool>(
        unpacker: &mut U,
        visitor: &T::UnpackVisitor,
    ) -> (r: Result<Self, UnpackError<Self::UnpackError, U::Error>>) {
        let ghost bytes = unpacker.remaining();
        let count = match usize::unpack::<U, VERIFY>(unpacker, &()) {
            Ok(count) => count,
            Err(UnpackError::Packable(e)) => {
                return Err(
                    UnpackError::Packable(
                        UnpackOrderedSetError::SetError(UnpackSetError::Prefix(e)),
                    ),
                );
            },
            Err(UnpackError::Unpacker(e)) => {
                return Err(UnpackError::Unpacker(e));
            },
        };
        let r = unpack_ascending::<T, core::num::TryFromIntError, U, VERIFY>(
            unpacker,
            visitor,
            count as u64,
        );
        proof {
            if r is Ok {
                let m = spec_unpack_ascending::<T, ()>(
                    bytes.skip(8),
                    count as nat,
                    visitor,
                    VERIFY,
                )->Done_1;
                assert(bytes.skip(8).skip(m as int) =~= bytes.skip(8 + m as int));
                lemma_sorted_items(&r->Ok_0);
            }
        }
        r
    }
}

} // verus!
