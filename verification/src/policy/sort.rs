//! Sorting by key, as the policies use it.
use vstd::prelude::*;

verus! {

/// A sort key: three words, compared left to right.
pub type Key = (u64, u64, u64);

/// `a` comes no later than `b` in the order of tuples.
pub open spec fn key_le(a: Key, b: Key) -> bool {
    a.0 < b.0 || (a.0 == b.0 && (a.1 < b.1 || (a.1 == b.1 && a.2 <= b.2)))
}

/// Items that sort by a key of three words.
pub trait Keyed: Sized {
    /// The key this item sorts by.
    spec fn key(self) -> Key;

    /// The key this item sorts by.
    fn sort_key(&self) -> (key: Key)
        ensures
            key == self.key(),
    ;
}

/// The items stand in key order.
pub open spec fn sorted_by_key<T: Keyed>(items: Seq<T>) -> bool {
    forall|i: int, j: int|
        0 <= i <= j < items.len() ==> key_le(#[trigger] items[i].key(), #[trigger] items[j].key())
}

/// `<[T]>::sort_unstable_by_key`, which sorts in place: afterwards the same
/// items are there, in key order. Nothing is claimed of the order among items
/// with equal keys. Keys are tuples of integers, whose order is lexicographic.
#[verifier::external_body]
pub(crate) fn sort_unstable_by_key<T: Keyed>(items: &mut Vec<T>)
    ensures
        final(items)@.to_multiset() == old(items)@.to_multiset(),
        sorted_by_key(final(items)@),
{
    items.sort_unstable_by_key(|item| item.sort_key());
}

/// The order of keys is total.
pub proof fn lemma_key_order(a: Key, b: Key, c: Key)
    ensures
        key_le(a, a),
        key_le(a, b) || key_le(b, a),
        key_le(a, b) && key_le(b, a) ==> a == b,
        key_le(a, b) && key_le(b, c) ==> key_le(a, c),
{
}

} // verus!
