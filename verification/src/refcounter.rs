//! Reference counts of slot-map keys, with the keys whose count went to zero
//! kept aside until they are drained.
use vstd::prelude::*;

use crate::slots::{CountMap, count_entries, counts_contains, counts_get, counts_insert, counts_new, counts_remove, inserted, is_null_key, key_ok, slot_index};

verus! {

/// Counts per key; a key leaves when its count reaches zero and waits among the
/// deleted keys.
pub struct RefCounter {
    counts: CountMap,
    deleted: Vec<u64>,
}

impl RefCounter {
    /// The count of each key.
    pub closed spec fn counts(&self) -> Map<u64, usize> {
        count_entries(self.counts)
    }

    /// The keys whose count went to zero since the last drain, oldest first.
    pub closed spec fn deleted(&self) -> Seq<u64> {
        self.deleted@
    }

    /// Every count held is at least one, and no key is the null key.
    pub closed spec fn wf(&self) -> bool {
        forall|k: u64|
            #[trigger] count_entries(self.counts).dom().contains(k) ==> count_entries(self.counts)[k] >= 1
                && !is_null_key(k)
    }

    /// A counter with no key.
    pub fn new() -> (c: Self)
        ensures
            c.wf(),
            c.counts() == Map::<u64, usize>::empty(),
            c.deleted() == Seq::<u64>::empty(),
    {
        RefCounter { counts: counts_new(), deleted: Vec::new() }
    }

    /// Starts counting `item` at one (as `SecondaryMap::insert` places it).
    pub fn create(&mut self, item: u64)
        requires
            old(self).wf(),
            key_ok(item),
        ensures
            final(self).wf(),
            exists|r: Option<usize>| inserted(old(self).counts(), final(self).counts(), item, 1usize, r),
            final(self).deleted() == old(self).deleted(),
    {
        let ghost before = self.counts();
        let r = counts_insert(&mut self.counts, item, 1);
        proof {
            assert(inserted(before, self.counts(), item, 1usize, r));
            assert forall|k: u64| #[trigger] count_entries(self.counts).dom().contains(k) implies count_entries(
                self.counts,
            )[k] >= 1 && !is_null_key(k) by {
                if k != item {
                    assert(before.dom().contains(k));
                }
            }
        }
    }

    /// Whether `item` is counted.
    pub fn contains(&self, item: u64) -> (r: bool)
        requires
            key_ok(item),
        ensures
            r == self.counts().dom().contains(item),
    {
        counts_contains(&self.counts, item)
    }

    /// Adds one to the count of `item`.
    pub fn increment(&mut self, item: u64)
        requires
            old(self).wf(),
            key_ok(item),
            old(self).counts().dom().contains(item),
            old(self).counts()[item] < usize::MAX,
        ensures
            final(self).wf(),
            final(self).counts() == old(self).counts().insert(item, (old(self).counts()[item] + 1) as usize),
            final(self).deleted() == old(self).deleted(),
    {
        let ghost before = self.counts();
        let count = match counts_get(&self.counts, item) {
            Some(c) => c,
            None => 0,
        };
        counts_insert(&mut self.counts, item, count + 1);
        proof {
            assert forall|k: u64| #[trigger] count_entries(self.counts).dom().contains(k) implies count_entries(
                self.counts,
            )[k] >= 1 && !is_null_key(k) by {
                if k != item {
                    assert(before.dom().contains(k));
                }
            }
        }
    }

    /// Takes one from the count of `item`; at zero the key leaves the counts and
    /// joins the deleted keys.
    pub fn decrement(&mut self, item: u64)
        requires
            old(self).wf(),
            key_ok(item),
            old(self).counts().dom().contains(item),
        ensures
            final(self).wf(),
            old(self).counts()[item] == 1 ==> final(self).counts() == old(self).counts().remove(item)
                && final(self).deleted() == old(self).deleted().push(item),
            old(self).counts()[item] > 1 ==> final(self).counts() == old(self).counts().insert(
                item,
                (old(self).counts()[item] - 1) as usize,
            ) && final(self).deleted() == old(self).deleted(),
    {
        let ghost before = self.counts();
        let count = match counts_get(&self.counts, item) {
            Some(c) => c,
            None => 1,
        };
        if count == 1 {
            counts_remove(&mut self.counts, item);
            self.deleted.push(item);
        } else {
            counts_insert(&mut self.counts, item, count - 1);
        }
        proof {
            assert forall|k: u64| #[trigger] count_entries(self.counts).dom().contains(k) implies count_entries(
                self.counts,
            )[k] >= 1 && !is_null_key(k) by {
                if k != item {
                    assert(before.dom().contains(k));
                }
            }
        }
    }

    /// Hands out the deleted keys, oldest first, and forgets them.
    pub fn drain(&mut self) -> (r: Vec<u64>)
        requires
            old(self).wf(),
        ensures
            final(self).wf(),
            r@ == old(self).deleted(),
            final(self).deleted() == Seq::<u64>::empty(),
            final(self).counts() == old(self).counts(),
    {
        let mut out: Vec<u64> = Vec::new();
        std::mem::swap(&mut out, &mut self.deleted);
        out
    }
}

/// A key created in a free slot and released once leaves the counts as they
/// were: after `create` (as `inserted` says) its count is one, so the next
/// `decrement` removes it, which gives back the counts from before.
pub proof fn law_create_then_release(before: Map<u64, usize>, after: Map<u64, usize>, item: u64, r: Option<usize>)
    requires
        key_ok(item),
        !is_null_key(item),
        forall|j: u64| before.dom().contains(j) ==> slot_index(j) != slot_index(item),
        inserted(before, after, item, 1usize, r),
    ensures
        after.dom().contains(item),
        after[item] == 1,
        after.remove(item) == before,
{
    assert(!before.dom().contains(item));
    assert(after.remove(item) =~= before);
}

} // verus!
