//! Properties that span several operations of the graph and the engine.
use vstd::prelude::*;

use super::engine::{counts_cover, dirty_cascade, dirty_frame, edge_removed, listers, necessity_cascade, parent_removed, unnecessary};
use super::graph2::{heights_consistent, parents_of, AnchorHandle, Graph2, Node, NodeGuard, NodeKey, NodePtrs, RecalcState};

verus! {

broadcast use {NodeGuard::lemma_index_range, NodeKey::lemma_key_range};

/// Queueing a node at a height below which every queue is empty, and then taking
/// the next node off the queues, gives that node back at that height and leaves
/// the queues as they were: whatever height `recalc_pop_next` may answer after
/// `queue_recalc` pushed `x` in front of queue `h` is `h`, and its node is `x`.
pub proof fn law_queue_then_pop(qs: Seq<Seq<usize>>, h: int, x: usize)
    requires
        0 <= h < qs.len(),
        forall|g: int| 0 <= g < h ==> (#[trigger] qs[g]).len() == 0,
    ensures
        forall|k: int|
            0 <= k < qs.len() && (#[trigger] qs.update(h, seq![x] + qs[h])[k]).len() > 0 && (forall|g: int|
                0 <= g < k ==> (#[trigger] qs.update(h, seq![x] + qs[h])[g]).len() == 0) ==> {
                let pushed = qs.update(h, seq![x] + qs[h]);
                &&& k == h
                &&& pushed[k][0] == x
                &&& pushed.update(k, pushed[k].drop_first()) == qs
            },
{
    let pushed = qs.update(h, seq![x] + qs[h]);
    assert forall|k: int|
        0 <= k < qs.len() && (#[trigger] pushed[k]).len() > 0 && (forall|g: int| 0 <= g < k ==> (#[trigger] pushed[g]).len() == 0) implies {
        &&& k == h
        &&& pushed[k][0] == x
        &&& pushed.update(k, pushed[k].drop_first()) == qs
    } by {
        if k < h {
            assert(pushed[k] == qs[k]);
        } else if k > h {
            assert(pushed[h].len() > 0);
        }
        assert(pushed[h].drop_first() =~= qs[h]);
        assert(pushed.update(k, pushed[k].drop_first()) =~= qs);
    }
}

/// Successive pops never go down in height: when `recalc_pop_next` answers height
/// `h1` and turns the queues `qs` into `after` (as it says), a following pop from
/// `after` answers a height no lower than `h1`.
pub proof fn law_recalc_pops_never_go_down(qs: Seq<Seq<usize>>, after: Seq<Seq<usize>>, h1: int, h2: int)
    requires
        0 <= h1 < qs.len(),
        forall|k: int| 0 <= k < h1 ==> (#[trigger] qs[k]).len() == 0,
        after == qs.update(h1, qs[h1].drop_first()),
        0 <= h2 < after.len(),
        after[h2].len() > 0,
    ensures
        h1 <= h2,
{
    if h2 < h1 {
        assert(after[h2] == qs[h2]);
    }
}

/// Freed slots are handed out again last in, first out: when dropping the last
/// handle on `node` turns graph `g0` into `g1` (as `handle_drop` says) and an
/// insertion then turns `g1` into `g2` handing out `h` (as `insert` says), `h`
/// names the slot of `node` and the free list is back to what it was.
pub proof fn law_freed_slot_reused(g0: Graph2, g1: Graph2, g2: Graph2, node: NodeGuard, h: AnchorHandle)
    requires
        g1.free_list() == seq![node.index() as usize] + g0.free_list(),
        g1.free_list().len() > 0 ==> h.key().index() == g1.free_list()[0] && g2.free_list() == g1.free_list().drop_first(),
    ensures
        h.key().index() == node.index(),
        g2.free_list() == g0.free_list(),
{
    assert((seq![node.index() as usize] + g0.free_list()).drop_first() =~= g0.free_list());
}

/// Adding a necessary edge from `p` to `c` (or leaving the list as it was) adds
/// one listing of `c` exactly when `c` was not listed by `p` before.
pub proof fn lemma_listers_edge_added(a: Seq<Node>, b: Seq<Node>, p: int, c: usize, add: bool, y: usize, k: int)
    requires
        a.len() == b.len(),
        0 <= p < a.len(),
        0 <= k <= a.len(),
        forall|x: int| 0 <= x < a.len() && x != p ==> (#[trigger] b[x]).ptrs.necessary_children@ == a[x].ptrs.necessary_children@,
        b[p].ptrs.necessary_children@.to_set() == (if add {
            a[p].ptrs.necessary_children@.to_set().insert(c)
        } else {
            a[p].ptrs.necessary_children@.to_set()
        }),
    ensures
        listers(b, y, k) == listers(a, y, k) + (if p < k && add && y == c && !a[p].ptrs.necessary_children@.contains(c) {
            1int
        } else {
            0int
        }),
    decreases k,
{
    if k > 0 {
        lemma_listers_edge_added(a, b, p, c, add, y, k - 1);
        let x = k - 1;
        if x == p {
            assert(b[p].ptrs.necessary_children@.to_set().contains(y) == b[p].ptrs.necessary_children@.contains(y));
            assert(a[p].ptrs.necessary_children@.to_set().contains(y) == a[p].ptrs.necessary_children@.contains(y));
        } else {
            assert(b[x].ptrs.necessary_children@ == a[x].ptrs.necessary_children@);
        }
    }
}

/// A request keeps every necessary count covering its listings: when a request
/// from `p` for `c` turns the arena `a` into `b` (as `request` says when it
/// answers), the new listing of `c`, if any, comes with one more count on `c`.
pub proof fn law_request_keeps_counts_cover(a: Seq<Node>, b: Seq<Node>, p: int, c: int, keep: bool)
    requires
        counts_cover(a),
        a.len() == b.len(),
        a.len() <= usize::MAX,
        0 <= p < a.len(),
        0 <= c < a.len(),
        forall|y: int| 0 <= y < a.len() && y != p ==> (#[trigger] b[y]).ptrs.necessary_children@ == a[y].ptrs.necessary_children@,
        b[p].ptrs.necessary_children@.to_set() == (if keep {
            a[p].ptrs.necessary_children@.to_set().insert(c as usize)
        } else {
            a[p].ptrs.necessary_children@.to_set()
        }),
        forall|y: int| 0 <= y < a.len() && y != c ==> (#[trigger] b[y]).necessary_count == a[y].necessary_count,
        b[c].necessary_count == a[c].necessary_count + (if keep && !a[p].ptrs.necessary_children@.contains(c as usize) {
            1int
        } else {
            0int
        }),
    ensures
        counts_cover(b),
{
    assert forall|y: int| 0 <= y < b.len() implies #[trigger] b[y].necessary_count >= listers(b, y as usize, b.len() as int) by {
        lemma_listers_edge_added(a, b, p, c as usize, keep, y as usize, a.len() as int);
        assert(a[y].necessary_count >= listers(a, y as usize, a.len() as int));
    }
}

/// Two strictly increasing sequences with the same elements are equal.
pub proof fn lemma_sorted_same_set(s: Seq<usize>, t: Seq<usize>)
    requires
        forall|i: int, j: int| 0 <= i < j < s.len() ==> s[i] < s[j],
        forall|i: int, j: int| 0 <= i < j < t.len() ==> t[i] < t[j],
        s.to_set() == t.to_set(),
    ensures
        s == t,
    decreases s.len(),
{
    if s.len() == 0 {
        if t.len() > 0 {
            assert(t.to_set().contains(t[0]));
        }
        assert(s =~= t);
    } else if t.len() == 0 {
        assert(s.to_set().contains(s[0]));
    } else {
        assert(t.to_set().contains(s[0]));
        assert(s.to_set().contains(t[0]));
        let j = choose|j: int| 0 <= j < t.len() && t[j] == s[0];
        let i = choose|i: int| 0 <= i < s.len() && s[i] == t[0];
        assert(s[0] == t[0]) by {
            if i > 0 {
                assert(s[0] < s[i]);
            }
            if j > 0 {
                assert(t[0] < t[j]);
            }
        }
        let s1 = s.drop_first();
        let t1 = t.drop_first();
        assert forall|x: usize| s1.to_set().contains(x) == t1.to_set().contains(x) by {
            if s1.contains(x) {
                let k = choose|k: int| 0 <= k < s1.len() && s1[k] == x;
                assert(s[k + 1] == x && s[0] < s[k + 1]);
                assert(s.to_set().contains(x));
                assert(t.to_set().contains(x));
                let m = choose|m: int| 0 <= m < t.len() && t[m] == x;
                assert(m != 0);
                assert(t1[m - 1] == x);
            }
            if t1.contains(x) {
                let k = choose|k: int| 0 <= k < t1.len() && t1[k] == x;
                assert(t[k + 1] == x && t[0] < t[k + 1]);
                assert(t.to_set().contains(x));
                assert(s.to_set().contains(x));
                let m = choose|m: int| 0 <= m < s.len() && s[m] == x;
                assert(m != 0);
                assert(s1[m - 1] == x);
            }
        }
        assert(s1.to_set() =~= t1.to_set());
        assert forall|a: int, b: int| 0 <= a < b < s1.len() implies s1[a] < s1[b] by {
            assert(s[a + 1] < s[b + 1]);
        }
        assert forall|a: int, b: int| 0 <= a < b < t1.len() implies t1[a] < t1[b] by {
            assert(t[a + 1] < t[b + 1]);
        }
        lemma_sorted_same_set(s1, t1);
        assert(s =~= t) by {
            assert forall|k: int| 0 <= k < s.len() implies s[k] == t[k] by {
                if k > 0 {
                    assert(s[k] == s1[k - 1] && t[k] == t1[k - 1]);
                }
            }
        }
    }
}

/// Adding a necessary child and then removing it restores the list of necessary
/// children and the count of the child: when `add_necessary_child` turns the
/// list `l0`, which does not hold `c`, into `l1` and the count `n0` into `n1`,
/// and `remove_necessary_child` turns them into `l2` and `n2` (as both say), and
/// the lists are kept sorted (as a sound graph keeps them), `l2` is `l0` and
/// `n2` is `n0`.
pub proof fn law_add_then_remove_necessary_child(l0: Seq<usize>, l1: Seq<usize>, l2: Seq<usize>, c: usize, n0: int, n1: int, n2: int)
    requires
        forall|i: int, j: int| 0 <= i < j < l0.len() ==> l0[i] < l0[j],
        forall|i: int, j: int| 0 <= i < j < l2.len() ==> l2[i] < l2[j],
        !l0.contains(c),
        l1.to_set() == l0.to_set().insert(c),
        n1 == n0 + 1,
        l1.contains(c),
        l2.to_set() == l1.to_set().remove(c),
        n2 == n1 - 1,
    ensures
        l2 == l0,
        n2 == n0,
{
    assert(l2.to_set() =~= l0.to_set()) by {
        assert forall|x: usize| l2.to_set().contains(x) == l0.to_set().contains(x) by {
            if x == c {
                assert(!l0.to_set().contains(c));
            }
        }
    }
    lemma_sorted_same_set(l2, l0);
}

/// Unrequesting a child undoes what requesting it did to the necessity of the
/// child: when a request from `p` made `c` a necessary child of `p` (as
/// `request` says when it keeps the child), the first two steps of an
/// `unrequest` (as `unrequest` says) leave the necessary children of `p` and
/// the count of `c` as they were before the request.
pub proof fn law_request_then_unrequest(a: Seq<Node>, b: Seq<Node>, a1: Seq<Node>, m: Seq<Node>, p: int, c: int)
    requires
        0 <= p < a.len(),
        0 <= c < a.len(),
        p != c,
        b.len() == a.len(),
        !a[p].ptrs.necessary_children@.contains(c as usize),
        b[p].ptrs.necessary_children@.to_set() == a[p].ptrs.necessary_children@.to_set().insert(c as usize),
        b[c].necessary_count == a[c].necessary_count + 1,
        parent_removed(b, a1, c, p),
        edge_removed(a1, m, p, c),
    ensures
        m[p].ptrs.necessary_children@.to_set() == a[p].ptrs.necessary_children@.to_set(),
        m[c].necessary_count == a[c].necessary_count,
{
    assert(a1[p] == b[p]);
    assert(a1[c].necessary_count == b[c].necessary_count);
    assert(b[p].ptrs.necessary_children@.to_set().contains(c as usize));
    assert(a1[p].ptrs.necessary_children@.contains(c as usize));
    assert(m[p].ptrs.necessary_children@.to_set() =~= a[p].ptrs.necessary_children@.to_set());
}

/// When a stabilization ends, nothing waits for recalculation: once every queue
/// of a sound graph is empty (which is when `stabilize_next` answers `None`),
/// no live node is Pending.
pub proof fn law_stabilized_nothing_pending(g: Graph2)
    requires
        g.wf(),
        g.queues_empty(),
    ensures
        forall|x: int|
            0 <= x < g.len() && (#[trigger] g.nodes()[x]).alive ==> g.nodes()[x].ptrs.recalc_state != RecalcState::Pending,
{
    g.lemma_queued();
    assert forall|x: int|
        0 <= x < g.len() && (#[trigger] g.nodes()[x]).alive implies g.nodes()[x].ptrs.recalc_state != RecalcState::Pending by {
        if g.nodes()[x].ptrs.recalc_state == RecalcState::Pending {
            let h = choose|h: int| 0 <= h < g.queues().len() && #[trigger] g.queues()[h].contains(x as usize);
            assert(g.queues()[h].len() == 0);
        }
    }
}

/// Dirty marking never sets an observed or necessary node back to Needed: in a
/// dirty cascade (as `update_dirty_marks` and `recalculate` report one), such a
/// node either keeps its state or is queued.
pub proof fn law_dirty_keeps_needed_nodes_scheduled(a: Seq<Node>, b: Seq<Node>, y: int)
    requires
        dirty_cascade(a, b),
        0 <= y < a.len(),
        !unnecessary(a[y]),
    ensures
        b[y].ptrs.recalc_state == a[y].ptrs.recalc_state || b[y].ptrs.recalc_state == RecalcState::Pending,
        !unnecessary(b[y]),
{
    assert(dirty_frame(a[y], b[y]));
}

/// Every clean parent sits above its child, and dirty marking keeps it so: a dirty
/// cascade (as `update_dirty_marks`, `stabilize_begin` and `recalculate` report
/// one) changes no height and only drops clean parents. The parents of a sound
/// graph's nodes lie in its arena (`Graph2::lemma_edges_in`).
pub proof fn law_dirty_marking_keeps_heights(a: Seq<Node>, b: Seq<Node>)
    requires
        dirty_cascade(a, b),
        heights_consistent(a),
        forall|x: int, j: int|
            0 <= x < a.len() && 0 <= j < parents_of(a[x]).len() ==> #[trigger] parents_of(a[x])[j] < a.len(),
    ensures
        heights_consistent(b),
{
    assert forall|x: int, j: int|
        0 <= x < b.len() && 0 <= j < parents_of(b[x]).len() implies b[x].ptrs.height
        < b[#[trigger] parents_of(b[x])[j] as int].ptrs.height by {
        assert(dirty_frame(a[x], b[x]));
        assert(parents_of(b[x]) == parents_of(a[x]) || parents_of(b[x]).len() == 0);
        let q = parents_of(a[x])[j] as int;
        assert(a[x].ptrs.height < a[q].ptrs.height);
        assert(dirty_frame(a[q], b[q]));
    }
}

/// Dropping necessary children (as `mark_unobserved` and `unrequest` report it in
/// a necessity cascade) keeps every clean parent above its child.
pub proof fn law_necessity_updates_keep_heights(a: Seq<Node>, b: Seq<Node>)
    requires
        necessity_cascade(a, b),
        heights_consistent(a),
        forall|x: int, j: int|
            0 <= x < a.len() && 0 <= j < parents_of(a[x]).len() ==> #[trigger] parents_of(a[x])[j] < a.len(),
    ensures
        heights_consistent(b),
{
    assert forall|x: int, j: int|
        0 <= x < b.len() && 0 <= j < parents_of(b[x]).len() implies b[x].ptrs.height
        < b[#[trigger] parents_of(b[x])[j] as int].ptrs.height by {
        assert(b[x] == Node {
            necessary_count: b[x].necessary_count,
            ptrs: NodePtrs { necessary_children: b[x].ptrs.necessary_children, ..a[x].ptrs },
            ..a[x]
        });
        let q = parents_of(a[x])[j] as int;
        assert(a[x].ptrs.height < a[q].ptrs.height);
        assert(b[q] == Node {
            necessary_count: b[q].necessary_count,
            ptrs: NodePtrs { necessary_children: b[q].ptrs.necessary_children, ..a[q].ptrs },
            ..a[q]
        });
    }
}

} // verus!
