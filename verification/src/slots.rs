//! The secondary maps of the `slotmap` crate, keyed by slot-map keys in their
//! 64-bit form (`KeyData::as_ffi`): the low 32 bits are the slot index, the high
//! 32 bits its version, which for a key of a slot map is always odd.
use vstd::prelude::*;

use slotmap::{DefaultKey, KeyData, SecondaryMap};

use crate::nodequeue::NodeState;

verus! {

/// A secondary map of counts, keyed by slot-map keys.
#[verifier::external_body]
pub struct CountMap {
    map: SecondaryMap<DefaultKey, usize>,
}

/// A secondary map of node states, keyed by slot-map keys.
#[verifier::external_body]
pub struct StateMap {
    map: SecondaryMap<DefaultKey, NodeState>,
}

/// The slot index of a key.
pub open spec fn slot_index(key: u64) -> int {
    key as int % 0x1_0000_0000
}

/// A key a slot map can hand out: its version is odd.
pub open spec fn key_ok(key: u64) -> bool {
    (key as int / 0x1_0000_0000) % 2 == 1
}

/// The null key, refused by every insertion.
pub open spec fn is_null_key(key: u64) -> bool {
    slot_index(key) == 0xffff_ffff
}

/// What inserting `value` at `key` leaves in a secondary map holding `old`:
/// nothing for the null key; the value replaced for a key already there;
/// otherwise the entry takes the slot of the key, evicting an older key of the
/// same slot, or, if the key in that slot is newer, nothing changes.
pub open spec fn inserted<V>(old: Map<u64, V>, new: Map<u64, V>, key: u64, value: V, r: Option<V>) -> bool {
    if is_null_key(key) {
        r is None && new == old
    } else if old.dom().contains(key) {
        r == Some(old[key]) && new == old.insert(key, value)
    } else {
        &&& r is None
        &&& new == old || new == old.restrict(Set::new(|j: u64| slot_index(j) != slot_index(key))).insert(key, value)
        &&& (forall|j: u64| old.dom().contains(j) ==> slot_index(j) != slot_index(key)) ==> new == old.insert(key, value)
    }
}

/// What a secondary map of counts holds.
pub uninterp spec fn count_entries(m: CountMap) -> Map<u64, usize>;

/// What a secondary map of node states holds.
pub uninterp spec fn state_entries(m: StateMap) -> Map<u64, NodeState>;

/// `SecondaryMap::new`: an empty map.
#[verifier::external_body]
pub(crate) fn counts_new() -> (r: CountMap)
    ensures
        (count_entries(r) == Map::<u64, usize>::empty()),
{
    CountMap { map: SecondaryMap::new() }
}

/// `SecondaryMap::new`: an empty map.
#[verifier::external_body]
pub(crate) fn states_new() -> (r: StateMap)
    ensures
        (state_entries(r) == Map::<u64, NodeState>::empty()),
{
    StateMap { map: SecondaryMap::new() }
}

/// `SecondaryMap::insert` at the key whose 64-bit form is `key`; see `inserted`.
#[verifier::external_body]
pub(crate) fn counts_insert(m: &mut CountMap, key: u64, value: usize) -> (r: Option<usize>)
    requires
        key_ok(key),
    ensures
        inserted(count_entries(*old(m)), count_entries(*final(m)), key, value, r),
{
    m.map.insert(DefaultKey::from(KeyData::from_ffi(key)), value)
}

/// `SecondaryMap::contains_key`: whether the key is in the map.
#[verifier::external_body]
pub(crate) fn counts_contains(m: &CountMap, key: u64) -> (r: bool)
    requires
        key_ok(key),
    ensures
        r == count_entries(*m).dom().contains(key),
{
    m.map.contains_key(DefaultKey::from(KeyData::from_ffi(key)))
}

/// `SecondaryMap::get`: the value at the key, if it is in the map.
#[verifier::external_body]
pub(crate) fn counts_get(m: &CountMap, key: u64) -> (r: Option<usize>)
    requires
        key_ok(key),
    ensures
        r == (if count_entries(*m).dom().contains(key) {
            Some(count_entries(*m)[key])
        } else {
            None
        }),
{
    m.map.get(DefaultKey::from(KeyData::from_ffi(key))).copied()
}

/// `SecondaryMap::remove`: takes the key out, returning its value if it was there.
#[verifier::external_body]
pub(crate) fn counts_remove(m: &mut CountMap, key: u64) -> (r: Option<usize>)
    requires
        key_ok(key),
    ensures
        r == (if count_entries(*old(m)).dom().contains(key) {
            Some(count_entries(*old(m))[key])
        } else {
            None
        }),
        count_entries(*final(m)) == count_entries(*old(m)).remove(key),
{
    m.map.remove(DefaultKey::from(KeyData::from_ffi(key)))
}

} // verus!
