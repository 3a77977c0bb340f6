use vstd::prelude::*;
use vstd::multiset::Multiset;

verus! {

/// A bucketed priority queue: one stack per height, popped from the lowest
/// non-empty height upwards.
pub struct FakeHeap<T> {
    min_height: usize,
    lists: Vec<Vec<T>>,
}

impl<T> FakeHeap<T> {
    /// The stacks, one per height, each from bottom to top.
    pub closed spec fn lists(&self) -> Seq<Seq<T>> {
        self.lists@.map_values(|l: Vec<T>| l@)
    }

    /// Every stack below the cached minimum height is empty.
    #[verifier::type_invariant]
    spec fn inv(&self) -> bool {
        &&& self.min_height <= self.lists@.len()
        &&& forall|h: int| 0 <= h < self.min_height ==> (#[trigger] self.lists@[h])@.len() == 0
    }

    /// Number of heights this heap holds (its maximum height plus one).
    pub open spec fn num_heights(&self) -> nat {
        self.lists().len()
    }

    /// True when no stack holds an item.
    pub open spec fn all_empty(&self) -> bool {
        forall|h: int| 0 <= h < self.lists().len() ==> (#[trigger] self.lists()[h]).len() == 0
    }

    /// Creates a heap with `max_height` empty stacks.
    pub fn new(max_height: usize) -> (heap: Self)
        ensures
            heap.lists() == Seq::new(max_height as nat, |h: int| Seq::<T>::empty()),
    {
        let mut lists: Vec<Vec<T>> = Vec::with_capacity(max_height);
        let mut i: usize = 0;
        while i < max_height
            invariant
                i <= max_height,
                lists@.len() == i,
                forall|h: int| 0 <= h < i ==> (#[trigger] lists@[h])@.len() == 0,
            decreases max_height - i,
        {
            lists.push(Vec::new());
            i = i + 1;
        }
        let heap = FakeHeap { lists, min_height: max_height };
        assert forall|h: int| 0 <= h < max_height implies heap.lists()[h] =~= Seq::<T>::empty() by {
            assert(heap.lists()[h] == lists@[h]@);
        }
        assert(heap.lists() =~= Seq::new(max_height as nat, |h: int| Seq::<T>::empty()));
        heap
    }

    /// Pushes `item` on the stack for `height`.
    pub fn insert(&mut self, height: usize, item: T)
        requires
            height < old(self).num_heights(),
        ensures
            final(self).lists() == old(self).lists().update(height as int, old(self).lists()[height as int].push(item)),
    {
        proof {
            use_type_invariant(&*self);
        }
        if height < self.min_height {
            self.min_height = height;
        }
        self.lists[height].push(item);
        assert(self.lists() =~= old(self).lists().update(height as int, old(self).lists()[height as int].push(item)));
    }

    /// Pops the top item of the lowest non-empty stack, with that stack's height.
    pub fn pop_min(&mut self) -> (res: Option<(usize, T)>)
        ensures
            res is None <==> old(self).all_empty(),
            res is None ==> final(self).lists() == old(self).lists(),
            res matches Some((h, v)) ==> {
                &&& h < old(self).num_heights()
                &&& old(self).lists()[h as int].len() > 0
                &&& forall|g: int| 0 <= g < h ==> (#[trigger] old(self).lists()[g]).len() == 0
                &&& v == old(self).lists()[h as int].last()
                &&& final(self).lists() == old(self).lists().update(h as int, old(self).lists()[h as int].drop_last())
            },
    {
        proof {
            use_type_invariant(&*self);
        }
        while self.min_height < self.lists.len()
            invariant
                self.lists() == old(self).lists(),
                self.lists@.len() == old(self).lists@.len(),
                self.min_height <= self.lists@.len(),
                forall|h: int| 0 <= h < self.min_height ==> (#[trigger] self.lists()[h]).len() == 0,
                forall|h: int| 0 <= h < self.min_height ==> (#[trigger] self.lists@[h])@.len() == 0,
            decreases self.lists@.len() - self.min_height,
        {
            let h = self.min_height;
            if let Some(v) = self.lists[h].pop() {
                assert(self.lists() =~= old(self).lists().update(h as int, old(self).lists()[h as int].drop_last()));
                assert forall|g: int| 0 <= g < h implies (#[trigger] old(self).lists()[g]).len() == 0 by {
                    assert(old(self).lists()[g] == old(self).lists@[g]@);
                }
                return Some((h, v));
            } else {
                self.min_height = h + 1;
            }
        }
        assert forall|h: int| 0 <= h < old(self).lists().len() implies (#[trigger] old(self).lists()[h]).len() == 0 by {
            assert(old(self).lists()[h] == old(self).lists@[h]@);
        }
        None
    }
}

/// Pushing an item at a height with no item below it and then popping the lowest
/// item gives that item back, at that height, and leaves the stacks as they were:
/// whatever height `pop_min` may answer on the pushed stacks is that height.
pub proof fn law_insert_then_pop<T>(lists: Seq<Seq<T>>, h: int, x: T)
    requires
        0 <= h < lists.len(),
        forall|g: int| 0 <= g < h ==> (#[trigger] lists[g]).len() == 0,
    ensures
        forall|k: int|
            0 <= k < lists.len() && (#[trigger] lists.update(h, lists[h].push(x))[k]).len() > 0 && (forall|g: int|
                0 <= g < k ==> (#[trigger] lists.update(h, lists[h].push(x))[g]).len() == 0) ==> {
                let pushed = lists.update(h, lists[h].push(x));
                &&& k == h
                &&& pushed[k].last() == x
                &&& pushed.update(k, pushed[k].drop_last()) == lists
            },
{
    let pushed = lists.update(h, lists[h].push(x));
    assert forall|k: int|
        0 <= k < lists.len() && (#[trigger] pushed[k]).len() > 0 && (forall|g: int| 0 <= g < k ==> (#[trigger] pushed[g]).len() == 0) implies {
        &&& k == h
        &&& pushed[k].last() == x
        &&& pushed.update(k, pushed[k].drop_last()) == lists
    } by {
        if k < h {
            assert(pushed[k] == lists[k]);
        } else if k > h {
            assert(pushed[h].len() > 0);
        }
        assert(pushed[h].drop_last() =~= lists[h]);
        assert(pushed.update(k, pushed[k].drop_last()) =~= lists);
    }
}

/// Successive pops never go down in height: when a pop (as `pop_min` says)
/// answers height `h1` and turns the stacks `lists` into `after`, a following
/// pop from `after` answers a height no lower than `h1`.
pub proof fn law_pops_never_go_down<T>(lists: Seq<Seq<T>>, after: Seq<Seq<T>>, h1: int, h2: int)
    requires
        0 <= h1 < lists.len(),
        forall|g: int| 0 <= g < h1 ==> (#[trigger] lists[g]).len() == 0,
        after == lists.update(h1, lists[h1].drop_last()),
        0 <= h2 < after.len(),
        after[h2].len() > 0,
    ensures
        h1 <= h2,
{
    if h2 < h1 {
        assert(after[h2] == lists[h2]);
    }
}

/// The items of one stack, each paired with the stack's height.
pub open spec fn stack_items<T>(l: Seq<T>, h: int) -> Multiset<(int, T)>
    decreases l.len(),
{
    if l.len() == 0 {
        Multiset::empty()
    } else {
        stack_items(l.drop_last(), h).insert((h, l.last()))
    }
}

/// The items of the first `k` stacks, each paired with its stack's height.
pub open spec fn heap_items<T>(lists: Seq<Seq<T>>, k: int) -> Multiset<(int, T)>
    decreases k,
{
    if k <= 0 {
        Multiset::empty()
    } else {
        heap_items(lists, k - 1).add(stack_items(lists[k - 1], k - 1))
    }
}

/// Changing stack `h` leaves the items of the stacks below it as they were.
pub proof fn lemma_heap_items_below<T>(lists: Seq<Seq<T>>, h: int, l: Seq<T>, k: int)
    requires
        0 <= h < lists.len(),
        k <= h,
    ensures
        heap_items(lists.update(h, l), k) == heap_items(lists, k),
    decreases k,
{
    if k > 0 {
        lemma_heap_items_below(lists, h, l, k - 1);
        assert(lists.update(h, l)[k - 1] == lists[k - 1]);
    }
}

/// Replacing stack `h` by `l` trades the items of the old stack for those of `l`.
pub proof fn lemma_heap_items_update<T>(lists: Seq<Seq<T>>, h: int, l: Seq<T>, k: int)
    requires
        0 <= h < k <= lists.len(),
    ensures
        heap_items(lists.update(h, l), k).add(stack_items(lists[h], h)) == heap_items(lists, k).add(stack_items(l, h)),
    decreases k,
{
    let u = lists.update(h, l);
    let so = stack_items(lists[h], h);
    let sl = stack_items(l, h);
    let a = heap_items(u, k - 1);
    let b = heap_items(lists, k - 1);
    assert(heap_items(u, k) == a.add(stack_items(u[k - 1], k - 1)));
    assert(heap_items(lists, k) == b.add(stack_items(lists[k - 1], k - 1)));
    if k - 1 == h {
        lemma_heap_items_below(lists, h, l, h);
        assert(u[h] == l);
        assert forall|y: (int, T)| a.add(sl).add(so).count(y) == b.add(so).add(sl).count(y) by {}
        assert(a.add(sl).add(so) =~= b.add(so).add(sl));
    } else {
        lemma_heap_items_update(lists, h, l, k - 1);
        assert(u[k - 1] == lists[k - 1]);
        let m = stack_items(lists[k - 1], k - 1);
        assert forall|y: (int, T)| a.add(m).add(so).count(y) == b.add(m).add(sl).count(y) by {
            assert(a.add(so).count(y) == b.add(sl).count(y));
        }
        assert(a.add(m).add(so) =~= b.add(m).add(sl));
    }
}

/// Inserting adds exactly the inserted item, at its height: when `insert(h, x)`
/// turns the stacks `lists` into `after` (as it says), the items of `after` are
/// those of `lists` and `(h, x)`.
pub proof fn law_insert_adds_its_item<T>(lists: Seq<Seq<T>>, after: Seq<Seq<T>>, h: int, x: T)
    requires
        0 <= h < lists.len(),
        after == lists.update(h, lists[h].push(x)),
    ensures
        heap_items(after, after.len() as int) == heap_items(lists, lists.len() as int).insert((h, x)),
{
    let l = lists[h].push(x);
    assert(l.drop_last() =~= lists[h]);
    assert(stack_items(l, h) == stack_items(lists[h], h).insert((h, x)));
    lemma_heap_items_update(lists, h, l, lists.len() as int);
    let ha = heap_items(after, after.len() as int);
    let hl = heap_items(lists, lists.len() as int);
    let so = stack_items(lists[h], h);
    assert forall|y: (int, T)| ha.count(y) == hl.insert((h, x)).count(y) by {
        assert(ha.add(so).count(y) == hl.add(so.insert((h, x))).count(y));
    }
    assert(ha =~= hl.insert((h, x)));
}

/// Popping takes out exactly the item it answers: when `pop_min` answers `(h, v)`
/// and turns the stacks `lists` into `after` (as it says), the items of `after`
/// and `(h, v)` are those of `lists`. With `law_pops_never_go_down`, a run of pops
/// hands out every inserted item once, lowest heights first.
pub proof fn law_pop_takes_its_item<T>(lists: Seq<Seq<T>>, after: Seq<Seq<T>>, h: int, v: T)
    requires
        0 <= h < lists.len(),
        lists[h].len() > 0,
        v == lists[h].last(),
        after == lists.update(h, lists[h].drop_last()),
    ensures
        heap_items(after, after.len() as int).insert((h, v)) == heap_items(lists, lists.len() as int),
{
    let l = lists[h].drop_last();
    assert(stack_items(lists[h], h) == stack_items(l, h).insert((h, v)));
    lemma_heap_items_update(lists, h, l, lists.len() as int);
    let ha = heap_items(after, after.len() as int);
    let hl = heap_items(lists, lists.len() as int);
    let sl = stack_items(l, h);
    assert forall|y: (int, T)| ha.insert((h, v)).count(y) == hl.count(y) by {
        assert(ha.add(sl.insert((h, v))).count(y) == hl.add(sl).count(y));
    }
    assert(ha.insert((h, v)) =~= hl);
}

} // verus!
