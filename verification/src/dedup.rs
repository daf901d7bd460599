//! Duplicate detection over a list of keys.
use vstd::prelude::*;
use crate::keys::PhfKey;
use crate::lanes::LANE_MAX;

verus! {

/// A hash set of byte strings, kept by `hashbrown::HashSet<Vec<u8>>`.
#[verifier::external_body]
pub struct KeySet {
    inner: hashbrown::HashSet<Vec<u8>>,
}

/// The byte strings that a key set holds.
pub uninterp spec fn key_set_contents(set: KeySet) -> Set<Seq<u8>>;

/// Calls `hashbrown::HashSet::with_capacity`, which returns an empty set.
///
/// The capacity is only a hint; it is bounded here so that sizing the table
/// cannot overflow.
#[verifier::external_body]
fn key_set_with_capacity(capacity: usize) -> (set: KeySet)
    requires
        capacity <= 0xFFFF,
    ensures
        key_set_contents(set) == Set::<Seq<u8>>::empty(),
{
    KeySet { inner: hashbrown::HashSet::with_capacity(capacity) }
}

/// Calls `hashbrown::HashSet::insert`, which adds the value to the set and
/// returns whether the set did not have it before.
#[verifier::external_body]
fn key_set_insert(set: &mut KeySet, key: Vec<u8>) -> (fresh: bool)
    ensures
        key_set_contents(*final(set)) == key_set_contents(*old(set)).insert(key@),
        fresh == !key_set_contents(*old(set)).contains(key@),
{
    set.inner.insert(key)
}

/// Whether two of the items are the same key.
pub open spec fn spec_has_duplicates<K: PhfKey>(items: Seq<K>) -> bool {
    exists|i: int, j: int|
        0 <= i < j < items.len() && (#[trigger] items[i]).key_bytes()
            == (#[trigger] items[j]).key_bytes()
}

/// Whether two of the items are the same key.
pub fn has_duplicates<K: PhfKey>(items: &[K]) -> (found: bool)
    ensures
        found == spec_has_duplicates(items@),
{
    let hint: usize = if items.len() <= LANE_MAX {
        items.len()
    } else {
        LANE_MAX
    };
    let mut set: KeySet = key_set_with_capacity(hint);
    let mut k: usize = 0;
    while k < items.len()
        invariant
            k <= items@.len(),
            forall|i: int| 0 <= i < k ==> key_set_contents(set).contains(
                (#[trigger] items@[i]).key_bytes(),
            ),
            forall|bytes: Seq<u8>| #[trigger]
                key_set_contents(set).contains(bytes) ==> exists|i: int|
                    0 <= i < k && (#[trigger] items@[i]).key_bytes() == bytes,
            forall|i: int, j: int|
                0 <= i < j < k ==> (#[trigger] items@[i]).key_bytes()
                    != (#[trigger] items@[j]).key_bytes(),
        decreases items@.len() - k,
    {
        let bytes: Vec<u8> = items[k].to_bytes();
        let ghost before = key_set_contents(set);
        let fresh: bool = key_set_insert(&mut set, bytes);
        if !fresh {
            proof {
                assert(before.contains(items@[k as int].key_bytes()));
                let i = choose|i: int|
                    0 <= i < k && (#[trigger] items@[i]).key_bytes() == items@[k as int].key_bytes();
                assert(items@[i].key_bytes() == items@[k as int].key_bytes());
            }
            return true;
        }
        proof {
            assert forall|bytes: Seq<u8>| #[trigger]
                key_set_contents(set).contains(bytes) implies exists|i: int|
                0 <= i < k + 1 && (#[trigger] items@[i]).key_bytes() == bytes by {
                if bytes == items@[k as int].key_bytes() {
                } else {
                    assert(before.contains(bytes));
                    let i = choose|i: int| 0 <= i < k && (#[trigger] items@[i]).key_bytes() == bytes;
                    assert(items@[i].key_bytes() == bytes);
                }
            }
            assert forall|i: int, j: int| 0 <= i < j < k + 1 implies (#[trigger] items@[i]).key_bytes()
                != (#[trigger] items@[j]).key_bytes() by {
                if j == k {
                    assert(before.contains(items@[i].key_bytes()));
                }
            }
        }
        k += 1;
    }
    false
}

} // verus!
