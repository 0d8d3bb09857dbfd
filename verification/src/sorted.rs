//! Checks that the items of a slice come in order.

use core::cmp::Ordering;
use vstd::prelude::*;
use vstd::std_specs::cmp::OrdSpec;

verus! {

/// Whether each item of the slice comes strictly before the next, as `cmp` orders them:
/// `cmp` is asked of each item and the next, from the front, until a pair is out of order.
pub fn is_unique_sorted_by<T, F: Fn(&T, &T) -> Ordering>(items: &[T], cmp: F) -> (r: bool)
    requires
        forall|a: &T, b: &T| call_requires(cmp, (a, b)),
    ensures
        r ==> forall|i: int|
            0 <= i && i + 1 < items@.len() ==> #[trigger] call_ensures(
                cmp,
                (&items@[i], &items@[i + 1]),
                Ordering::Less,
            ),
        !r ==> exists|i: int, found: Ordering|
            0 <= i && i + 1 < items@.len() && #[trigger] call_ensures(
                cmp,
                (&items@[i], &items@[i + 1]),
                found,
            ) && found != Ordering::Less,
{
    if items.len() < 2 {
        return true;
    }
    let last = items.len() - 1;
    let mut i: usize = 0;
    while i < last
        invariant
            i <= last,
            last + 1 == items@.len(),
            forall|a: &T, b: &T| call_requires(cmp, (a, b)),
            forall|j: int|
                0 <= j < i ==> #[trigger] call_ensures(
                    cmp,
                    (&items@[j], &items@[j + 1]),
                    Ordering::Less,
                ),
        decreases items@.len() - i,
    {
        let found = cmp(&items[i], &items[i + 1]);
        match found {
            Ordering::Less => {},
            _ => {
                proof {
                    assert(call_ensures(cmp, (&items@[i + 0], &items@[i + 1]), found));
                }
                return false;
            },
        }
        i += 1;
    }
    true
}

/// Whether the item at `i` comes strictly before the next in the order of `T`.
pub open spec fn rises_at<T: Ord>(items: Seq<T>, i: int) -> bool {
    items[i].cmp_spec(&items[i + 1]) == Ordering::Less
}

/// Whether the item at `i` does not come after the next in the order of `T`.
pub open spec fn holds_at<T: Ord>(items: Seq<T>, i: int) -> bool {
    items[i].cmp_spec(&items[i + 1]) != Ordering::Greater
}

/// Whether each item of the slice comes strictly before the next in the order of `T`.
pub fn is_unique_sorted<T: Ord>(items: &[T]) -> (r: bool)
    ensures
        T::obeys_cmp_spec() ==> (r <==> forall|i: int|
            0 <= i && i + 1 < items@.len() ==> #[trigger] rises_at(items@, i)),
{
    if items.len() < 2 {
        return true;
    }
    let last = items.len() - 1;
    let mut i: usize = 0;
    while i < last
        invariant
            i <= last,
            last + 1 == items@.len(),
            T::obeys_cmp_spec() ==> forall|j: int| 0 <= j < i ==> #[trigger] rises_at(items@, j),
        decreases items@.len() - i,
    {
        match items[i].cmp(&items[i + 1]) {
            Ordering::Less => {
                proof {
                    assert(T::obeys_cmp_spec() ==> rises_at(items@, i + 0));
                }
            },
            _ => {
                proof {
                    assert(T::obeys_cmp_spec() ==> !rises_at(items@, i + 0));
                }
                return false;
            },
        }
        i += 1;
    }
    true
}

/// Whether `cmp` can find that `a` does not come after `b`.
pub open spec fn in_order<T, F: Fn(&T, &T) -> Ordering>(cmp: F, a: &T, b: &T) -> bool {
    exists|found: Ordering| #[trigger]
        call_ensures(cmp, (a, b), found) && found != Ordering::Greater
}

/// Whether no item of the slice comes after the next, as `cmp` orders them: `cmp` is asked
/// of each item and the next, from the front, until a pair is out of order.
pub fn is_sorted_by<T, F: Fn(&T, &T) -> Ordering>(items: &[T], cmp: F) -> (r: bool)
    requires
        forall|a: &T, b: &T| call_requires(cmp, (a, b)),
    ensures
        r ==> forall|i: int|
            0 <= i && i + 1 < items@.len() ==> #[trigger] in_order(
                cmp,
                &items@[i],
                &items@[i + 1],
            ),
        !r ==> exists|i: int|
            0 <= i && i + 1 < items@.len() && #[trigger] call_ensures(
                cmp,
                (&items@[i], &items@[i + 1]),
                Ordering::Greater,
            ),
{
    if items.len() < 2 {
        return true;
    }
    let last = items.len() - 1;
    let mut i: usize = 0;
    while i < last
        invariant
            i <= last,
            last + 1 == items@.len(),
            forall|a: &T, b: &T| call_requires(cmp, (a, b)),
            forall|j: int| 0 <= j < i ==> #[trigger] in_order(cmp, &items@[j], &items@[j + 1]),
        decreases items@.len() - i,
    {
        let found = cmp(&items[i], &items[i + 1]);
        match found {
            Ordering::Greater => {
                proof {
                    assert(call_ensures(cmp, (&items@[i + 0], &items@[i + 1]), Ordering::Greater));
                }
                return false;
            },
            _ => {
                proof {
                    assert(call_ensures(cmp, (&items@[i + 0], &items@[i + 1]), found));
                    assert(in_order(cmp, &items@[i + 0], &items@[i + 1]));
                }
            },
        }
        i += 1;
    }
    true
}

/// Whether no item of the slice comes after the next in the order of `T`.
pub fn is_sorted<T: Ord>(items: &[T]) -> (r: bool)
    ensures
        T::obeys_cmp_spec() ==> (r <==> forall|i: int|
            0 <= i && i + 1 < items@.len() ==> #[trigger] holds_at(items@, i)),
{
    if items.len() < 2 {
        return true;
    }
    let last = items.len() - 1;
    let mut i: usize = 0;
    while i < last
        invariant
            i <= last,
            last + 1 == items@.len(),
            T::obeys_cmp_spec() ==> forall|j: int| 0 <= j < i ==> #[trigger] holds_at(items@, j),
        decreases items@.len() - i,
    {
        match items[i].cmp(&items[i + 1]) {
            Ordering::Greater => {
                proof {
                    assert(T::obeys_cmp_spec() ==> !holds_at(items@, i + 0));
                }
                return false;
            },
            _ => {
                proof {
                    assert(T::obeys_cmp_spec() ==> holds_at(items@, i + 0));
                }
            },
        }
        i += 1;
    }
    true
}

} // verus!
