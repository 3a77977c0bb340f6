//! The engine holds the recomputation graph and makes every scheduling decision; the
//! computations of the nodes themselves are polled by its caller, which hands each outcome
//! back to the engine.
use vstd::prelude::*;

use super::generation::Generation;
use super::graph2;
use super::graph2::{AnchorHandle, Graph2, GraphError, Node, NodeGuard, NodeKey, NodePtrs, RecalcState};
use super::graph2::{guard_slots, parents_of, data_unchanged, states_unchanged_except};
use crate::poll::Poll;
use crate::refcounter::RefCounter;

verus! {

broadcast use {NodeGuard::lemma_index_range, NodeKey::lemma_key_range};

/// Indicates whether the node is a part of some observed calculation.
#[derive(Debug, Clone, Copy, PartialEq, Eq, Structural)]
pub enum ObservedState {
    /// The node has been marked as observed directly via `mark_observed`.
    Observed,
    /// The node is not marked as observed directly.
    /// However, the node has some descendent that is Observed, and this node has
    /// been recalculated since that descendent become Observed.
    Necessary,
    /// The node is not marked as observed directly.
    /// Additionally, this node either has no Observed descendent, or the chain linking
    /// this node to that Observed descendent has not been recalculated since that
    /// dencendent become observed.
    Unnecessary,
}

/// What the engine refuses to do, each where it would otherwise panic.
#[derive(Debug, Clone, Copy, PartialEq, Eq, Structural)]
pub enum EngineError {
    /// The graph refused an operation.
    Graph(GraphError),
    /// A computation reported Pending without requesting another node.
    PendingWithoutRequest,
    /// A key that names no node of this engine's graph.
    UnknownNode,
    /// The engine was made with a maximum height of zero and has no queue to run.
    NoHeights,
    /// The stabilization counter would go past `u64::MAX`.
    GenerationOverflow,
    /// The output of a node that is not ready was asked for.
    NotRequested,
}

/// The observed state a node's flags give.
pub open spec fn observed_state(n: Node) -> ObservedState {
    if n.observed {
        ObservedState::Observed
    } else if n.necessary_count > 0 {
        ObservedState::Necessary
    } else {
        ObservedState::Unnecessary
    }
}

/// Returns whether a node of `graph` is Observed, Necessary, or Unnecessary.
pub fn node_observed_state(graph: &Graph2, node: NodeGuard) -> (s: ObservedState)
    requires
        graph.valid(node),
    ensures
        s == observed_state(graph.node(node)),
{
    let n = graph.node_ref(node);
    if n.observed {
        return ObservedState::Observed;
    }
    if n.necessary_count > 0 {
        ObservedState::Necessary
    } else {
        ObservedState::Unnecessary
    }
}

/// A node's necessary children were dropped between the two versions.
pub open spec fn emptied(a: Node, b: Node) -> bool {
    a.ptrs.necessary_children@.len() > 0 && b.ptrs.necessary_children@.len() == 0
}

/// How many of the first `k` nodes dropped their necessary children between
/// `a` and `b` while listing `c` among them.
pub open spec fn lost_parents(a: Seq<Node>, b: Seq<Node>, c: usize, k: int) -> int
    decreases k,
{
    if k <= 0 {
        0
    } else {
        lost_parents(a, b, c, k - 1) + if emptied(a[k - 1], b[k - 1]) && a[k - 1].ptrs.necessary_children@.contains(c) {
            1int
        } else {
            0int
        }
    }
}

/// Sum of the lengths of the necessary-children lists of the first `k` nodes.
pub open spec fn total_necessary(nodes: Seq<Node>, k: int) -> nat
    decreases k,
{
    if k <= 0 {
        0
    } else {
        total_necessary(nodes, k - 1) + nodes[k - 1].ptrs.necessary_children@.len()
    }
}

/// Between `a` and `b` nodes only dropped whole lists of necessary children, and
/// each count went down by the number of dropped lists that named it; only
/// unnecessary nodes dropped their lists.
pub open spec fn necessity_cascade(a: Seq<Node>, b: Seq<Node>) -> bool {
    &&& a.len() == b.len()
    &&& forall|y: int|
        0 <= y < a.len() ==> (#[trigger] b[y]) == (Node {
            necessary_count: b[y].necessary_count,
            ptrs: NodePtrs { necessary_children: b[y].ptrs.necessary_children, ..a[y].ptrs },
            ..a[y]
        })
    &&& forall|y: int|
        0 <= y < a.len() ==> (#[trigger] b[y]).ptrs.necessary_children@ == a[y].ptrs.necessary_children@
            || b[y].ptrs.necessary_children@.len() == 0
    &&& forall|c: int|
        0 <= c < a.len() ==> (#[trigger] b[c]).necessary_count == a[c].necessary_count - lost_parents(
            a,
            b,
            c as usize,
            a.len() as int,
        )
    &&& forall|y: int| 0 <= y < a.len() && #[trigger] emptied(a[y], b[y]) ==> observed_state(b[y]) == ObservedState::Unnecessary
}

pub proof fn lemma_lost_nonneg(a: Seq<Node>, b: Seq<Node>, c: usize, k: int)
    ensures
        lost_parents(a, b, c, k) >= 0,
    decreases k,
{
    if k > 0 {
        lemma_lost_nonneg(a, b, c, k - 1);
    }
}

/// Lists that are kept or emptied add up their losses.
pub proof fn lemma_lost_additive(a: Seq<Node>, b: Seq<Node>, d: Seq<Node>, c: usize, k: int)
    requires
        a.len() == b.len() && b.len() == d.len(),
        0 <= k <= a.len(),
        forall|y: int|
            0 <= y < a.len() ==> (#[trigger] b[y]).ptrs.necessary_children@ == a[y].ptrs.necessary_children@
                || b[y].ptrs.necessary_children@.len() == 0,
        forall|y: int|
            0 <= y < a.len() ==> (#[trigger] d[y]).ptrs.necessary_children@ == b[y].ptrs.necessary_children@
                || d[y].ptrs.necessary_children@.len() == 0,
    ensures
        lost_parents(a, d, c, k) == lost_parents(a, b, c, k) + lost_parents(b, d, c, k),
    decreases k,
{
    if k > 0 {
        lemma_lost_additive(a, b, d, c, k - 1);
        let y = k - 1;
        assert(b[y].ptrs.necessary_children@ == a[y].ptrs.necessary_children@ || b[y].ptrs.necessary_children@.len() == 0);
        assert(d[y].ptrs.necessary_children@ == b[y].ptrs.necessary_children@ || d[y].ptrs.necessary_children@.len() == 0);
    }
}

/// Cascades compose.
pub proof fn lemma_cascade_trans(a: Seq<Node>, b: Seq<Node>, d: Seq<Node>)
    requires
        necessity_cascade(a, b),
        necessity_cascade(b, d),
    ensures
        necessity_cascade(a, d),
{
    assert forall|y: int| 0 <= y < a.len() implies (#[trigger] d[y]) == (Node {
        necessary_count: d[y].necessary_count,
        ptrs: NodePtrs { necessary_children: d[y].ptrs.necessary_children, ..a[y].ptrs },
        ..a[y]
    }) by {
        assert(b[y] == (Node {
            necessary_count: b[y].necessary_count,
            ptrs: NodePtrs { necessary_children: b[y].ptrs.necessary_children, ..a[y].ptrs },
            ..a[y]
        }));
    }
    assert forall|y: int| 0 <= y < a.len() implies (#[trigger] d[y]).ptrs.necessary_children@
        == a[y].ptrs.necessary_children@ || d[y].ptrs.necessary_children@.len() == 0 by {
        assert(b[y].ptrs.necessary_children@ == a[y].ptrs.necessary_children@ || b[y].ptrs.necessary_children@.len() == 0);
        assert(d[y].ptrs.necessary_children@ == b[y].ptrs.necessary_children@ || d[y].ptrs.necessary_children@.len() == 0);
    }
    assert forall|c: int| 0 <= c < a.len() implies (#[trigger] d[c]).necessary_count == a[c].necessary_count
        - lost_parents(a, d, c as usize, a.len() as int) by {
        lemma_lost_additive(a, b, d, c as usize, a.len() as int);
        assert(b[c].necessary_count == a[c].necessary_count - lost_parents(a, b, c as usize, a.len() as int));
        assert(d[c].necessary_count == b[c].necessary_count - lost_parents(b, d, c as usize, a.len() as int));
    }
    assert forall|y: int| 0 <= y < a.len() && #[trigger] emptied(a[y], d[y]) implies observed_state(d[y])
        == ObservedState::Unnecessary by {
        lemma_lost_nonneg(b, d, y as usize, a.len() as int);
        assert(b[y].ptrs.necessary_children@ == a[y].ptrs.necessary_children@ || b[y].ptrs.necessary_children@.len() == 0);
        assert(d[y].ptrs.necessary_children@ == b[y].ptrs.necessary_children@ || d[y].ptrs.necessary_children@.len() == 0);
        assert(d[y].necessary_count == b[y].necessary_count - lost_parents(b, d, y as usize, a.len() as int));
        assert(d[y].observed == b[y].observed);
        if emptied(a[y], b[y]) {
            assert(observed_state(b[y]) == ObservedState::Unnecessary);
        } else {
            assert(emptied(b[y], d[y]));
        }
    }
}

/// Nothing changing is a cascade.
pub proof fn lemma_cascade_refl(a: Seq<Node>)
    ensures
        necessity_cascade(a, a),
{
    assert forall|c: int| 0 <= c < a.len() implies (#[trigger] a[c]).necessary_count == a[c].necessary_count
        - lost_parents(a, a, c as usize, a.len() as int) by {
        lemma_lost_zero(a, c as usize, a.len() as int);
    }
}

pub proof fn lemma_lost_zero(a: Seq<Node>, c: usize, k: int)
    ensures
        lost_parents(a, a, c, k) == 0,
    decreases k,
{
    if k > 0 {
        lemma_lost_zero(a, c, k - 1);
    }
}

/// Dropping one node's list loses one parent for each child in it.
pub proof fn lemma_lost_single(a: Seq<Node>, b: Seq<Node>, x: int, c: usize, k: int)
    requires
        a.len() == b.len(),
        0 <= x < a.len(),
        0 <= k <= a.len(),
        b[x].ptrs.necessary_children@.len() == 0,
        forall|y: int| 0 <= y < a.len() && y != x ==> (#[trigger] b[y]).ptrs.necessary_children@ == a[y].ptrs.necessary_children@,
    ensures
        lost_parents(a, b, c, k) == (if x < k && a[x].ptrs.necessary_children@.contains(c) {
            1int
        } else {
            0int
        }),
    decreases k,
{
    if k > 0 {
        lemma_lost_single(a, b, x, c, k - 1);
        if k - 1 != x {
            assert(b[k - 1].ptrs.necessary_children@ == a[k - 1].ptrs.necessary_children@);
        }
    }
}

/// How many of the first `k` nodes list `c` among their necessary children.
pub open spec fn listers(nodes: Seq<Node>, c: usize, k: int) -> int
    decreases k,
{
    if k <= 0 {
        0
    } else {
        listers(nodes, c, k - 1) + if nodes[k - 1].ptrs.necessary_children@.contains(c) {
            1int
        } else {
            0int
        }
    }
}

/// The necessary count of every node covers the nodes that list it as a
/// necessary child, so that dropping those edges never runs a count below zero.
pub open spec fn counts_cover(nodes: Seq<Node>) -> bool {
    forall|c: int| 0 <= c < nodes.len() ==> #[trigger] nodes[c].necessary_count >= listers(nodes, c as usize, nodes.len() as int)
}

/// A count of listing nodes is never negative.
pub proof fn lemma_listers_nonneg(nodes: Seq<Node>, c: usize, k: int)
    ensures
        listers(nodes, c, k) >= 0,
    decreases k,
{
    if k > 0 {
        lemma_listers_nonneg(nodes, c, k - 1);
    }
}

/// A node that lists `c` among the first `k` is counted.
pub proof fn lemma_listers_pos(nodes: Seq<Node>, c: usize, x: int, k: int)
    requires
        0 <= x < k,
        nodes[x].ptrs.necessary_children@.contains(c),
    ensures
        listers(nodes, c, k) >= 1,
    decreases k,
{
    lemma_listers_nonneg(nodes, c, k - 1);
    if x < k - 1 {
        lemma_listers_pos(nodes, c, x, k - 1);
    }
}

/// Lists that are kept or emptied lose exactly the listings counted as lost.
pub proof fn lemma_listers_cascade(a: Seq<Node>, b: Seq<Node>, c: usize, k: int)
    requires
        a.len() == b.len(),
        0 <= k <= a.len(),
        forall|y: int|
            0 <= y < a.len() ==> (#[trigger] b[y]).ptrs.necessary_children@ == a[y].ptrs.necessary_children@
                || b[y].ptrs.necessary_children@.len() == 0,
    ensures
        listers(b, c, k) == listers(a, c, k) - lost_parents(a, b, c, k),
    decreases k,
{
    if k > 0 {
        lemma_listers_cascade(a, b, c, k - 1);
        let x = k - 1;
        assert(b[x].ptrs.necessary_children@ == a[x].ptrs.necessary_children@ || b[x].ptrs.necessary_children@.len() == 0);
        if b[x].ptrs.necessary_children@.len() == 0 {
            assert(!b[x].ptrs.necessary_children@.contains(c));
        }
        if a[x].ptrs.necessary_children@.len() == 0 {
            assert(!a[x].ptrs.necessary_children@.contains(c));
        }
    }
}

/// Lists that are all kept keep every count of listing nodes.
pub proof fn lemma_listers_same(a: Seq<Node>, b: Seq<Node>, c: usize, k: int)
    requires
        a.len() == b.len(),
        0 <= k <= a.len(),
        forall|y: int| 0 <= y < a.len() ==> (#[trigger] b[y]).ptrs.necessary_children@ == a[y].ptrs.necessary_children@,
    ensures
        listers(b, c, k) == listers(a, c, k),
    decreases k,
{
    if k > 0 {
        lemma_listers_same(a, b, c, k - 1);
        assert(b[k - 1].ptrs.necessary_children@ == a[k - 1].ptrs.necessary_children@);
    }
}

/// Counts cover their listings after a change that keeps every list and count.
pub proof fn lemma_cover_same(a: Seq<Node>, b: Seq<Node>)
    requires
        counts_cover(a),
        a.len() == b.len(),
        forall|y: int|
            0 <= y < a.len() ==> (#[trigger] b[y]).ptrs.necessary_children@ == a[y].ptrs.necessary_children@
                && b[y].necessary_count == a[y].necessary_count,
    ensures
        counts_cover(b),
{
    assert forall|c: int| 0 <= c < b.len() implies #[trigger] b[c].necessary_count >= listers(b, c as usize, b.len() as int) by {
        lemma_listers_same(a, b, c as usize, a.len() as int);
        assert(a[c].necessary_count >= listers(a, c as usize, a.len() as int));
    }
}

/// Counts cover their listings after a necessity cascade, which drops a listing
/// and its count together.
pub proof fn lemma_cover_cascade(a: Seq<Node>, b: Seq<Node>)
    requires
        counts_cover(a),
        necessity_cascade(a, b),
    ensures
        counts_cover(b),
{
    assert forall|c: int| 0 <= c < b.len() implies #[trigger] b[c].necessary_count >= listers(b, c as usize, b.len() as int) by {
        lemma_listers_cascade(a, b, c as usize, a.len() as int);
        assert(a[c].necessary_count >= listers(a, c as usize, a.len() as int));
    }
}

/// Dropping the necessary edge from `p` to `c` drops one listing of `c` and nothing else.
pub proof fn lemma_listers_edge_removed(a: Seq<Node>, m: Seq<Node>, p: int, c: int, y: usize, k: int)
    requires
        edge_removed(a, m, p, c),
        0 <= p < a.len(),
        0 <= c < a.len(),
        0 <= k <= a.len(),
        a[p].ptrs.necessary_children@.contains(c as usize),
    ensures
        listers(m, y, k) == listers(a, y, k) - (if p < k && y == c as usize {
            1int
        } else {
            0int
        }),
    decreases k,
{
    if k > 0 {
        lemma_listers_edge_removed(a, m, p, c, y, k - 1);
        let x = k - 1;
        if x == p {
            assert(m[p].ptrs.necessary_children@.to_set().contains(y) == a[p].ptrs.necessary_children@.to_set().remove(
                c as usize,
            ).contains(y));
        } else if x == c {
            assert(m[x].ptrs.necessary_children@ == a[x].ptrs.necessary_children@);
        } else {
            assert(m[x] == a[x]);
        }
    }
}

/// Counts cover their listings after a necessary edge is dropped and uncounted.
pub proof fn lemma_cover_edge_removed(a: Seq<Node>, m: Seq<Node>, p: int, c: int)
    requires
        counts_cover(a),
        edge_removed(a, m, p, c),
        0 <= p < a.len(),
        0 <= c < a.len(),
    ensures
        counts_cover(m),
{
    if a[p].ptrs.necessary_children@.contains(c as usize) {
        assert forall|y: int| 0 <= y < m.len() implies #[trigger] m[y].necessary_count >= listers(
            m,
            y as usize,
            m.len() as int,
        ) by {
            lemma_listers_edge_removed(a, m, p, c, y as usize, a.len() as int);
            assert(a[y].necessary_count >= listers(a, y as usize, a.len() as int));
            if y != c {
                if y == p {
                    assert(m[p].necessary_count == a[p].necessary_count);
                } else {
                    assert(m[y] == a[y]);
                }
            }
        }
    }
}

/// Keeping or emptying lists never raises the total, and emptying a non-empty one lowers it.
pub proof fn lemma_total_necessary(a: Seq<Node>, b: Seq<Node>, x: int, k: int)
    requires
        a.len() == b.len(),
        0 <= k <= a.len(),
        forall|y: int|
            0 <= y < a.len() ==> (#[trigger] b[y]).ptrs.necessary_children@ == a[y].ptrs.necessary_children@
                || b[y].ptrs.necessary_children@.len() == 0,
    ensures
        total_necessary(b, k) <= total_necessary(a, k),
        0 <= x < k && a[x].ptrs.necessary_children@.len() > 0 && b[x].ptrs.necessary_children@.len() == 0
            ==> total_necessary(b, k) < total_necessary(a, k),
    decreases k,
{
    if k > 0 {
        lemma_total_necessary(a, b, x, k - 1);
        assert(b[k - 1].ptrs.necessary_children@ == a[k - 1].ptrs.necessary_children@ || b[k - 1].ptrs.necessary_children@.len() == 0);
    }
}

/// Sum of the numbers of clean parents of the first `k` nodes.
pub open spec fn total_parents(nodes: Seq<Node>, k: int) -> nat
    decreases k,
{
    if k <= 0 {
        0
    } else {
        total_parents(nodes, k - 1) + parents_of(nodes[k - 1]).len()
    }
}

/// Keeping or emptying clean-parent lists never raises the total, and emptying a
/// non-empty one lowers it.
pub proof fn lemma_total_parents(a: Seq<Node>, b: Seq<Node>, x: int, k: int)
    requires
        a.len() == b.len(),
        0 <= k <= a.len(),
        forall|y: int| 0 <= y < a.len() ==> parents_of(#[trigger] b[y]) == parents_of(a[y]) || parents_of(b[y]).len() == 0,
    ensures
        total_parents(b, k) <= total_parents(a, k),
        0 <= x < k && parents_of(a[x]).len() > 0 && parents_of(b[x]).len() == 0 ==> total_parents(b, k) < total_parents(a, k),
    decreases k,
{
    if k > 0 {
        lemma_total_parents(a, b, x, k - 1);
        assert(parents_of(b[k - 1]) == parents_of(a[k - 1]) || parents_of(b[k - 1]).len() == 0);
    }
}

/// A node's clean parents were dropped between the two versions.
pub open spec fn parents_emptied(a: Node, b: Node) -> bool {
    parents_of(a).len() > 0 && parents_of(b).len() == 0
}

/// True when a node's flags make it unnecessary.
pub open spec fn unnecessary(n: Node) -> bool {
    observed_state(n) == ObservedState::Unnecessary
}

/// The two versions of a node agree on everything but their clean parents,
/// recalculation state and queue links.
pub open spec fn dirty_frame(a: Node, b: Node) -> bool {
    &&& a.observed == b.observed
    &&& a.visited == b.visited
    &&& a.necessary_count == b.necessary_count
    &&& a.token == b.token
    &&& a.last_ready == b.last_ready
    &&& a.last_update == b.last_update
    &&& a.alive == b.alive
    &&& a.ptrs.necessary_children@ == b.ptrs.necessary_children@
    &&& a.ptrs.height == b.ptrs.height
    &&& a.ptrs.handle_count == b.ptrs.handle_count
}

/// Between `a` and `b` only recalculation states, queue links and clean parents
/// changed; clean-parent lists were kept or dropped whole; unnecessary ready nodes
/// may have become Needed and observed or necessary nodes may have been queued.
pub open spec fn dirty_cascade(a: Seq<Node>, b: Seq<Node>) -> bool {
    &&& a.len() == b.len()
    &&& forall|y: int| 0 <= y < a.len() ==> dirty_frame(a[y], #[trigger] b[y])
    &&& forall|y: int| 0 <= y < a.len() ==> parents_of(#[trigger] b[y]) == parents_of(a[y]) || parents_of(b[y]).len() == 0
    &&& forall|y: int|
        0 <= y < a.len() ==> (#[trigger] b[y]).ptrs.recalc_state == a[y].ptrs.recalc_state || (a[y].ptrs.recalc_state
            == RecalcState::Ready && b[y].ptrs.recalc_state == RecalcState::Needed && unnecessary(a[y])) || (
        b[y].ptrs.recalc_state == RecalcState::Pending && !unnecessary(a[y]))
}

/// What marking a node dirty leaves it in: not ready, and queued if it matters.
pub open spec fn dirtied(n: Node) -> bool {
    &&& n.ptrs.recalc_state != RecalcState::Ready
    &&& !unnecessary(n) ==> n.ptrs.recalc_state == RecalcState::Pending
}

/// Each notification names a dropped clean-parent edge, from the parent to the
/// child's key, and the parent it names has been dirtied.
pub open spec fn notes_sound(a: Seq<Node>, b: Seq<Node>, notes: Seq<(NodeGuard, NodeKey)>, token: u32) -> bool {
    forall|i: int|
        0 <= i < notes.len() ==> {
            let (p, k) = #[trigger] notes[i];
            &&& 0 <= k.index() < a.len()
            &&& k.graph_token() == token
            &&& parents_emptied(a[k.index() as int], b[k.index() as int])
            &&& parents_of(a[k.index() as int]).contains(p.index() as usize)
            &&& 0 <= p.index() < a.len()
            &&& dirtied(b[p.index()])
        }
}

/// The `j`-th clean parent of node `y` was dropped between `a` and `b`.
pub open spec fn dropped_edge(a: Seq<Node>, b: Seq<Node>, y: int, j: int) -> bool {
    0 <= y < a.len() && parents_emptied(a[y], b[y]) && 0 <= j < parents_of(a[y]).len()
}

/// Each dropped clean-parent edge has a notification, except the edges from `x`
/// to its parents at positions `i` and after.
pub open spec fn notes_cover(a: Seq<Node>, b: Seq<Node>, notes: Seq<(NodeGuard, NodeKey)>, x: int, i: int) -> bool {
    forall|y: int, j: int|
        #[trigger] dropped_edge(a, b, y, j) && (y != x || j < i) ==> exists|k: int|
            0 <= k < notes.len() && (#[trigger] notes[k]).0.index() == parents_of(a[y])[j] && notes[k].1.index() == y
}

/// Each dropped clean-parent edge has a notification.
pub open spec fn notes_complete(a: Seq<Node>, b: Seq<Node>, notes: Seq<(NodeGuard, NodeKey)>) -> bool {
    forall|y: int, j: int|
        #[trigger] dropped_edge(a, b, y, j) ==> exists|i: int|
            0 <= i < notes.len() && (#[trigger] notes[i]).0.index() == parents_of(a[y])[j] && notes[i].1.index() == y
}

/// Every node that went from Ready to Needed between `a` and `b` dropped its
/// clean parents.
pub open spec fn needed_dropped(a: Seq<Node>, b: Seq<Node>) -> bool {
    forall|y: int|
        0 <= y < a.len() && a[y].ptrs.recalc_state == RecalcState::Ready && (#[trigger] b[y]).ptrs.recalc_state
            == RecalcState::Needed ==> parents_of(b[y]).len() == 0
}

/// A Ready node that nothing observes or needs.
pub open spec fn ready_unneeded(n: Node) -> bool {
    n.ptrs.recalc_state == RecalcState::Ready && unnecessary(n)
}

/// Every node of `s` but the last is Ready and unnecessary in `a`.
pub open spec fn ready_climb(a: Seq<Node>, s: Seq<int>) -> bool {
    forall|i: int| 0 <= i < s.len() - 1 ==> #[trigger] ready_unneeded(a[s[i]])
}

/// Following clean parents in `a` from `z`, through Ready unnecessary nodes only,
/// leads to `y`: the way dirty marking spreads from `z`.
pub open spec fn climbs_to(a: Seq<Node>, z: int, y: int) -> bool {
    exists|s: Seq<int>| #[trigger] graph2::is_path(a, s) && s[0] == z && s.last() == y && ready_climb(a, s)
}

/// Every node whose recalculation state or clean parents differ between `a` and
/// `b` is one that dirty marking spreads to from `z`.
pub open spec fn changes_reached_from(a: Seq<Node>, b: Seq<Node>, z: int) -> bool {
    forall|y: int|
        0 <= y < a.len() && ((#[trigger] b[y]).ptrs.recalc_state != a[y].ptrs.recalc_state || parents_of(b[y])
            != parents_of(a[y])) ==> climbs_to(a, z, y)
}

/// Every node whose recalculation state or clean parents differ between `a` and
/// `b` is `z` itself, or one that dirty marking spreads to from a clean parent of `z`.
pub open spec fn parent_changes_reached_from(a: Seq<Node>, b: Seq<Node>, z: int) -> bool {
    forall|y: int|
        0 <= y < a.len() && ((#[trigger] b[y]).ptrs.recalc_state != a[y].ptrs.recalc_state || parents_of(b[y])
            != parents_of(a[y])) ==> y == z || exists|p: int|
            0 <= p && parents_of(a[z]).contains(p as usize) && #[trigger] climbs_to(a, p, y)
}

/// Every node whose recalculation state or clean parents differ between `a` and
/// `b` is one that dirty marking spreads to from the node of one of the first `n` marks.
pub open spec fn changes_reached_from_marks(a: Seq<Node>, b: Seq<Node>, marks: Seq<NodeKey>, n: int) -> bool {
    forall|y: int|
        0 <= y < a.len() && ((#[trigger] b[y]).ptrs.recalc_state != a[y].ptrs.recalc_state || parents_of(b[y])
            != parents_of(a[y])) ==> exists|k: int| 0 <= k < n && climbs_to(a, (#[trigger] marks[k]).index() as int, y)
}

/// Dirty marking leaves nothing stale above a dirtied node: when a dirty marking
/// turns `a` into `b` (as `dirty_cascade` says), dirtying every clean parent of
/// each node it makes Needed, and `z` is dirtied, then every node that a climb
/// from `z` through Ready unnecessary nodes reaches is dirtied too.
pub proof fn law_dirty_marking_spreads(a: Seq<Node>, b: Seq<Node>, s: Seq<int>)
    requires
        dirty_cascade(a, b),
        forall|y: int, j: int|
            0 <= y < a.len() && a[y].ptrs.recalc_state == RecalcState::Ready && b[y].ptrs.recalc_state == RecalcState::Needed
                && 0 <= j < parents_of(a[y]).len() ==> dirtied(b[#[trigger] parents_of(a[y])[j] as int]),
        a.len() <= usize::MAX,
        graph2::is_path(a, s),
        ready_climb(a, s),
        dirtied(b[s[0]]),
    ensures
        dirtied(b[s.last()]),
    decreases s.len(),
{
    if s.len() > 1 {
        let x = s[0];
        assert(ready_unneeded(a[x]));
        assert(b[x].ptrs.recalc_state == a[x].ptrs.recalc_state || (a[x].ptrs.recalc_state == RecalcState::Ready
            && b[x].ptrs.recalc_state == RecalcState::Needed && unnecessary(a[x])) || (b[x].ptrs.recalc_state
            == RecalcState::Pending && !unnecessary(a[x])));
        assert(b[x].ptrs.recalc_state == RecalcState::Needed);
        assert(graph2::path_step(a, s, 0));
        let ps = parents_of(a[x]);
        let j = choose|j: int| 0 <= j < ps.len() && ps[j] == s[1] as usize;
        assert(dirtied(b[parents_of(a[x])[j] as int]));
        let t = s.drop_first();
        graph2::lemma_path_drop_first(a, s);
        assert forall|i: int| 0 <= i < t.len() - 1 implies #[trigger] ready_unneeded(a[t[i]]) by {
            assert(t[i] == s[i + 1]);
            assert(ready_unneeded(a[s[i + 1]]));
        }
        assert(t[0] == s[1]);
        law_dirty_marking_spreads(a, b, t);
        assert(t.last() == s.last());
    }
}

/// Dirty marking spreads from a node to itself.
pub proof fn lemma_climb_self(a: Seq<Node>, z: int)
    requires
        0 <= z < a.len(),
    ensures
        climbs_to(a, z, z),
{
    let s = seq![z];
    assert(graph2::is_path(a, s) && s[0] == z && s.last() == z && ready_climb(a, s));
}

/// A climb over an arena whose clean-parent lists were only kept or dropped, and
/// whose Ready unnecessary nodes were so before, is a climb over the arena before.
pub proof fn lemma_climb_back(a: Seq<Node>, b: Seq<Node>, z: int, y: int)
    requires
        a.len() == b.len(),
        forall|x: int| 0 <= x < a.len() ==> parents_of(#[trigger] b[x]) == parents_of(a[x]) || parents_of(b[x]).len() == 0,
        forall|x: int| 0 <= x < a.len() && ready_unneeded(#[trigger] b[x]) ==> ready_unneeded(a[x]),
        climbs_to(b, z, y),
    ensures
        climbs_to(a, z, y),
{
    let s = choose|s: Seq<int>| #[trigger] graph2::is_path(b, s) && s[0] == z && s.last() == y && ready_climb(b, s);
    assert forall|i: int| 0 <= i < s.len() - 1 implies #[trigger] graph2::path_step(a, s, i) by {
        assert(graph2::path_step(b, s, i));
        assert(parents_of(b[s[i]]) == parents_of(a[s[i]]) || parents_of(b[s[i]]).len() == 0);
    }
    assert forall|i: int| 0 <= i < s.len() - 1 implies #[trigger] ready_unneeded(a[s[i]]) by {
        assert(ready_unneeded(b[s[i]]));
    }
    assert(graph2::is_path(a, s));
}

/// A climb after a dirty cascade is a climb before it.
pub proof fn lemma_climb_cascade(a: Seq<Node>, b: Seq<Node>, z: int, y: int)
    requires
        dirty_cascade(a, b),
        climbs_to(b, z, y),
    ensures
        climbs_to(a, z, y),
{
    assert forall|x: int| 0 <= x < a.len() && ready_unneeded(#[trigger] b[x]) implies ready_unneeded(a[x]) by {
        assert(dirty_frame(a[x], b[x]));
        assert(b[x].ptrs.recalc_state == a[x].ptrs.recalc_state || (a[x].ptrs.recalc_state == RecalcState::Ready
            && b[x].ptrs.recalc_state == RecalcState::Needed && unnecessary(a[x])) || (b[x].ptrs.recalc_state
            == RecalcState::Pending && !unnecessary(a[x])));
    }
    lemma_climb_back(a, b, z, y);
}

/// Dirty marking spreads from a Ready unnecessary node through each of its clean parents.
pub proof fn lemma_climb_prepend(a: Seq<Node>, n: int, p: int, y: int)
    requires
        0 <= n < a.len(),
        0 <= p,
        ready_unneeded(a[n]),
        parents_of(a[n]).contains(p as usize),
        climbs_to(a, p, y),
    ensures
        climbs_to(a, n, y),
{
    let t = choose|t: Seq<int>| #[trigger] graph2::is_path(a, t) && t[0] == p && t.last() == y && ready_climb(a, t);
    graph2::lemma_path_prepend(a, n, t);
    let u = seq![n] + t;
    assert forall|i: int| 0 <= i < u.len() - 1 implies #[trigger] ready_unneeded(a[u[i]]) by {
        if i > 0 {
            assert(u[i] == t[i - 1]);
        }
    }
    assert(graph2::is_path(a, u) && u[0] == n && u.last() == y && ready_climb(a, u));
}

/// Nodes that became Needed dropping their clean parents compose along dirty cascades.
pub proof fn lemma_needed_trans(a: Seq<Node>, b: Seq<Node>, d: Seq<Node>)
    requires
        dirty_cascade(a, b),
        dirty_cascade(b, d),
        needed_dropped(a, b),
        needed_dropped(b, d),
    ensures
        needed_dropped(a, d),
{
    assert forall|y: int|
        0 <= y < a.len() && a[y].ptrs.recalc_state == RecalcState::Ready && (#[trigger] d[y]).ptrs.recalc_state
            == RecalcState::Needed implies parents_of(d[y]).len() == 0 by {
        assert(b[y].ptrs.recalc_state == a[y].ptrs.recalc_state || (a[y].ptrs.recalc_state == RecalcState::Ready
            && b[y].ptrs.recalc_state == RecalcState::Needed && unnecessary(a[y])) || (b[y].ptrs.recalc_state
            == RecalcState::Pending && !unnecessary(a[y])));
        assert(d[y].ptrs.recalc_state == b[y].ptrs.recalc_state || (b[y].ptrs.recalc_state == RecalcState::Ready
            && d[y].ptrs.recalc_state == RecalcState::Needed && unnecessary(b[y])) || (d[y].ptrs.recalc_state
            == RecalcState::Pending && !unnecessary(b[y])));
        assert(parents_of(d[y]) == parents_of(b[y]) || parents_of(d[y]).len() == 0);
    }
}

/// Dirty marking reaches the clean parents of every node it makes Needed: when a
/// dirty marking turns `a` into `b` with notifications `notes` (as `mark_dirty0`,
/// `update_dirty_marks`, `stabilize_begin` and `recalculate` report it), each clean
/// parent that a Ready node had before it became Needed is dirtied: not Ready,
/// and queued if it is observed or necessary. So no Ready node is left above a
/// node that was invalidated.
pub proof fn law_needed_nodes_dirty_their_parents(a: Seq<Node>, b: Seq<Node>, notes: Seq<(NodeGuard, NodeKey)>, token: u32)
    requires
        a.len() == b.len(),
        needed_dropped(a, b),
        notes_sound(a, b, notes, token),
        notes_complete(a, b, notes),
    ensures
        forall|y: int, j: int|
            0 <= y < a.len() && a[y].ptrs.recalc_state == RecalcState::Ready && b[y].ptrs.recalc_state == RecalcState::Needed
                && 0 <= j < parents_of(a[y]).len() ==> dirtied(b[#[trigger] parents_of(a[y])[j] as int]),
{
    assert forall|y: int, j: int|
        0 <= y < a.len() && a[y].ptrs.recalc_state == RecalcState::Ready && b[y].ptrs.recalc_state == RecalcState::Needed
            && 0 <= j < parents_of(a[y]).len() implies dirtied(b[#[trigger] parents_of(a[y])[j] as int]) by {
        assert(parents_of(b[y]).len() == 0);
        assert(dropped_edge(a, b, y, j));
        let k = choose|k: int| 0 <= k < notes.len() && (#[trigger] notes[k]).0.index() == parents_of(a[y])[j] && notes[k].1.index() == y;
        let (pp, kk) = notes[k];
        assert(dirtied(b[pp.index()]));
    }
}

/// Nothing changing is a dirty cascade.
pub proof fn lemma_dirty_refl(a: Seq<Node>)
    ensures
        dirty_cascade(a, a),
{
    assert forall|y: int| 0 <= y < a.len() implies dirty_frame(a[y], #[trigger] a[y]) by {}
}

/// Dirty cascades compose.
pub proof fn lemma_dirty_trans(a: Seq<Node>, b: Seq<Node>, d: Seq<Node>)
    requires
        dirty_cascade(a, b),
        dirty_cascade(b, d),
    ensures
        dirty_cascade(a, d),
        forall|y: int| 0 <= y < a.len() && dirtied(#[trigger] b[y]) ==> dirtied(d[y]),
        forall|y: int| 0 <= y < a.len() ==> unnecessary(#[trigger] d[y]) == unnecessary(a[y]),
{
    assert forall|y: int| 0 <= y < a.len() implies dirty_frame(a[y], #[trigger] d[y]) by {
        assert(dirty_frame(a[y], b[y]));
        assert(dirty_frame(b[y], d[y]));
    }
    assert forall|y: int| 0 <= y < a.len() implies parents_of(#[trigger] d[y]) == parents_of(a[y]) || parents_of(
        d[y],
    ).len() == 0 by {
        assert(parents_of(b[y]) == parents_of(a[y]) || parents_of(b[y]).len() == 0);
        assert(parents_of(d[y]) == parents_of(b[y]) || parents_of(d[y]).len() == 0);
    }
    assert forall|y: int| 0 <= y < a.len() implies unnecessary(#[trigger] d[y]) == unnecessary(a[y]) by {
        assert(dirty_frame(a[y], b[y]));
        assert(dirty_frame(b[y], d[y]));
    }
    assert forall|y: int| 0 <= y < a.len() implies (#[trigger] d[y]).ptrs.recalc_state == a[y].ptrs.recalc_state
        || (a[y].ptrs.recalc_state == RecalcState::Ready && d[y].ptrs.recalc_state == RecalcState::Needed && unnecessary(
        a[y],
    )) || (d[y].ptrs.recalc_state == RecalcState::Pending && !unnecessary(a[y])) by {
        assert(unnecessary(b[y]) == unnecessary(a[y]));
        assert(b[y].ptrs.recalc_state == a[y].ptrs.recalc_state || (a[y].ptrs.recalc_state == RecalcState::Ready
            && b[y].ptrs.recalc_state == RecalcState::Needed && unnecessary(a[y])) || (b[y].ptrs.recalc_state
            == RecalcState::Pending && !unnecessary(a[y])));
        assert(d[y].ptrs.recalc_state == b[y].ptrs.recalc_state || (b[y].ptrs.recalc_state == RecalcState::Ready
            && d[y].ptrs.recalc_state == RecalcState::Needed && unnecessary(b[y])) || (d[y].ptrs.recalc_state
            == RecalcState::Pending && !unnecessary(b[y])));
    }
    assert forall|y: int| 0 <= y < a.len() && dirtied(#[trigger] b[y]) implies dirtied(d[y]) by {
        assert(unnecessary(d[y]) == unnecessary(b[y])) by {
            assert(dirty_frame(b[y], d[y]));
        }
        assert(d[y].ptrs.recalc_state == b[y].ptrs.recalc_state || (b[y].ptrs.recalc_state == RecalcState::Ready
            && d[y].ptrs.recalc_state == RecalcState::Needed && unnecessary(b[y])) || (d[y].ptrs.recalc_state
            == RecalcState::Pending && !unnecessary(b[y])));
    }
}

/// Notifications of two successive dirty cascades, put together, are those of the
/// composed cascade.
pub proof fn lemma_notes_compose(
    a: Seq<Node>,
    b: Seq<Node>,
    d: Seq<Node>,
    n1: Seq<(NodeGuard, NodeKey)>,
    n2: Seq<(NodeGuard, NodeKey)>,
    token: u32,
)
    requires
        dirty_cascade(a, b),
        dirty_cascade(b, d),
        notes_sound(a, b, n1, token),
        notes_sound(b, d, n2, token),
        notes_complete(a, b, n1),
        notes_complete(b, d, n2),
    ensures
        notes_sound(a, d, n1 + n2, token),
        notes_complete(a, d, n1 + n2),
{
    lemma_dirty_trans(a, b, d);
    let n = n1 + n2;
    assert forall|k: int| 0 <= k < n.len() implies {
        let (pp, kk) = #[trigger] n[k];
        &&& 0 <= kk.index() < a.len()
        &&& kk.graph_token() == token
        &&& parents_emptied(a[kk.index() as int], d[kk.index() as int])
        &&& parents_of(a[kk.index() as int]).contains(pp.index() as usize)
        &&& 0 <= pp.index() < a.len()
        &&& dirtied(d[pp.index()])
    } by {
        if k < n1.len() {
            assert(n[k] == n1[k]);
            let (pp, kk) = n1[k];
            let y = kk.index() as int;
            assert(parents_of(d[y]) == parents_of(b[y]) || parents_of(d[y]).len() == 0);
            assert(dirtied(b[pp.index()]));
        } else {
            assert(n[k] == n2[k - n1.len()]);
            let (pp, kk) = n2[k - n1.len()];
            let y = kk.index() as int;
            assert(parents_of(b[y]) == parents_of(a[y]) || parents_of(b[y]).len() == 0);
        }
    }
    assert forall|y: int, j: int| #[trigger] dropped_edge(a, d, y, j) implies exists|k: int|
        0 <= k < n.len() && (#[trigger] n[k]).0.index() == parents_of(a[y])[j] && n[k].1.index() == y by {
        assert(parents_of(b[y]) == parents_of(a[y]) || parents_of(b[y]).len() == 0);
        assert(parents_of(d[y]) == parents_of(b[y]) || parents_of(d[y]).len() == 0);
        if parents_emptied(a[y], b[y]) {
            assert(dropped_edge(a, b, y, j));
            let k = choose|k: int| 0 <= k < n1.len() && (#[trigger] n1[k]).0.index() == parents_of(a[y])[j] && n1[k].1.index() == y;
            assert(n[k] == n1[k]);
        } else {
            assert(dropped_edge(b, d, y, j));
            let k = choose|k: int| 0 <= k < n2.len() && (#[trigger] n2[k]).0.index() == parents_of(b[y])[j] && n2[k].1.index() == y;
            assert(n[n1.len() + k] == n2[k]);
        }
    }
}

/// Every live node sits below the number of heights, and all its clean parents
/// are live nodes of the arena: dirty marking can then queue whatever it meets.
pub open spec fn schedulable(nodes: Seq<Node>, n: nat) -> bool {
    forall|y: int|
        0 <= y < nodes.len() && (#[trigger] nodes[y]).alive ==> {
            &&& nodes[y].ptrs.height < n
            &&& forall|j: int|
                0 <= j < parents_of(nodes[y]).len() ==> #[trigger] parents_of(nodes[y])[j] < nodes.len()
                    && nodes[parents_of(nodes[y])[j] as int].alive
        }
}

/// A dirty cascade keeps the graph schedulable: liveness and heights do not
/// change, and clean-parent lists are only dropped.
pub proof fn lemma_schedulable_cascade(a: Seq<Node>, b: Seq<Node>, n: nat)
    requires
        dirty_cascade(a, b),
        schedulable(a, n),
    ensures
        schedulable(b, n),
{
    assert forall|y: int| 0 <= y < b.len() && (#[trigger] b[y]).alive implies {
        &&& b[y].ptrs.height < n
        &&& forall|j: int|
            0 <= j < parents_of(b[y]).len() ==> #[trigger] parents_of(b[y])[j] < b.len() && b[parents_of(b[y])[j] as int].alive
    } by {
        assert(dirty_frame(a[y], b[y]));
        assert(parents_of(b[y]) == parents_of(a[y]) || parents_of(b[y]).len() == 0);
        assert forall|j: int| 0 <= j < parents_of(b[y]).len() implies #[trigger] parents_of(b[y])[j] < b.len()
            && b[parents_of(b[y])[j] as int].alive by {
            let q = parents_of(a[y])[j] as int;
            assert(dirty_frame(a[q], b[q]));
        }
    }
}

/// A handle with which a node whose inputs lie outside the graph marks itself dirty.
#[derive(Debug, Clone, Copy)]
pub struct DirtyHandle {
    num: NodeKey,
}

impl DirtyHandle {
    pub closed spec fn key(&self) -> NodeKey {
        self.num
    }

    /// Indicates that the node of this handle may have changed its output and should
    /// be repolled: its key joins the marks the engine reads on its next stabilization.
    pub fn mark_dirty(&self, dirty_marks: &mut Vec<NodeKey>)
        ensures
            final(dirty_marks)@ == old(dirty_marks)@.push(self.key()),
    {
        dirty_marks.push(self.num);
    }
}

/// The state the engine keeps for the node being recalculated.
pub struct EngineContextMut {
    pub node: NodeGuard,
    /// Set when a requested node was not ready yet.
    pub pending_on_anchor_get: bool,
}

impl EngineContextMut {
    /// The context for recalculating `node`.
    pub fn new(node: NodeGuard) -> (c: EngineContextMut)
        ensures
            c.node == node,
            !c.pending_on_anchor_get,
    {
        EngineContextMut { node, pending_on_anchor_get: false }
    }
}

/// The sum, over heights below `k`, of the number of queued nodes times their
/// distance to the top of the queues.
pub open spec fn queue_weight(qs: Seq<Seq<usize>>, top: int, k: int) -> int
    decreases k,
{
    if k <= 0 {
        0
    } else {
        queue_weight(qs, top, k - 1) + qs[k - 1].len() * (top - (k - 1))
    }
}

proof fn lemma_mul_step(l: int, w: int)
    by (nonlinear_arith)
    ensures
        (l + 1) * w == l * w + w,
        (l - 1) * w == l * w - w,
{
}

/// Moving the weight of one queue changes the total by as much.
proof fn lemma_queue_weight_update(qs: Seq<Seq<usize>>, top: int, h: int, q: Seq<usize>, k: int)
    requires
        0 <= h < qs.len(),
        0 <= k <= qs.len(),
    ensures
        queue_weight(qs.update(h, q), top, k) == queue_weight(qs, top, k) + (if h < k {
            q.len() * (top - h) - qs[h].len() * (top - h)
        } else {
            0
        }),
    decreases k,
{
    if k > 0 {
        lemma_queue_weight_update(qs, top, h, q, k - 1);
    }
}

proof fn lemma_queue_weight_nonneg(qs: Seq<Seq<usize>>, top: int, k: int)
    requires
        k <= top,
    ensures
        queue_weight(qs, top, k) >= 0,
    decreases k,
{
    if k > 0 {
        lemma_queue_weight_nonneg(qs, top, k - 1);
        assert(qs[k - 1].len() * (top - (k - 1)) >= 0) by (nonlinear_arith)
            requires
                top - (k - 1) >= 0,
        ;
    }
}

/// Nodes whose data did not change are still not visited.
proof fn lemma_unvisited_kept(g1: Graph2, g2: Graph2)
    requires
        g1.none_visited(),
        data_unchanged(g1.nodes(), g2.nodes()),
    ensures
        g2.none_visited(),
{
    assert forall|i: int| 0 <= i < g2.len() implies !(#[trigger] g2.nodes()[i]).visited by {
        assert(graph2::node_data_eq(g1.nodes()[i], g2.nodes()[i]));
    }
}

/// What a request for child `c` answers the computation of `p`, from the state
/// before the request: `Pending` while `c` is not ready or not yet below `p`;
/// otherwise `Unchanged` when `c` last changed no later than `p` was last ready,
/// and `Updated` when it changed since (or either generation is missing).
pub open spec fn request_answer(a: Seq<Node>, c: int, p: int) -> Poll {
    if a[c].ptrs.recalc_state != RecalcState::Ready {
        Poll::Pending
    } else if a[c].ptrs.height >= a[p].ptrs.height {
        Poll::Pending
    } else {
        match (a[c].last_update, a[p].last_ready) {
            (Some(u), Some(l)) => if u.value() <= l.value() {
                Poll::Unchanged
            } else {
                Poll::Updated
            },
            _ => Poll::Updated,
        }
    }
}

/// A request records `p` as a clean parent of `c` when `c` is ready and already below `p`.
pub open spec fn request_links(a: Seq<Node>, c: int, p: int) -> bool {
    a[c].ptrs.recalc_state == RecalcState::Ready && a[c].ptrs.height < a[p].ptrs.height
}

/// A request records `c` as a necessary child of `p` when asked to, when `p` is
/// observed or necessary itself, and unless `c` was ready but not yet below `p`.
pub open spec fn request_keeps(a: Seq<Node>, c: int, p: int, necessary: bool) -> bool {
    &&& necessary
    &&& !unnecessary(a[p])
    &&& (a[c].ptrs.recalc_state != RecalcState::Ready || a[c].ptrs.height < a[p].ptrs.height)
}

/// The two versions of a node agree on the flags, generations and counts a request leaves alone.
pub open spec fn request_frame(a: Node, b: Node) -> bool {
    &&& a.observed == b.observed
    &&& a.token == b.token
    &&& a.last_ready == b.last_ready
    &&& a.last_update == b.last_update
    &&& a.alive == b.alive
    &&& a.ptrs.handle_count == b.ptrs.handle_count
}

/// Between `a` and `m` the necessary edge from `p` to `c` was dropped, if there
/// was one, and uncounted on `c`; nothing else changed.
pub open spec fn edge_removed(a: Seq<Node>, m: Seq<Node>, p: int, c: int) -> bool {
    &&& m.len() == a.len()
    &&& if !a[p].ptrs.necessary_children@.contains(c as usize) {
        m == a
    } else {
        &&& m[p].ptrs.necessary_children@.to_set() == a[p].ptrs.necessary_children@.to_set().remove(c as usize)
        &&& m[c].necessary_count == a[c].necessary_count - 1
        &&& forall|y: int| 0 <= y < a.len() && y != p && y != c ==> #[trigger] m[y] == a[y]
        &&& p != c ==> m[p] == Node {
            ptrs: NodePtrs { necessary_children: m[p].ptrs.necessary_children, ..a[p].ptrs },
            ..a[p]
        }
        &&& p != c ==> m[c] == Node { necessary_count: m[c].necessary_count, ..a[c] }
        &&& p == c ==> m[p] == Node {
            necessary_count: m[p].necessary_count,
            ptrs: NodePtrs { necessary_children: m[p].ptrs.necessary_children, ..a[p].ptrs },
            ..a[p]
        }
    }
}

/// Between `a` and `m` only the clean parents of `c` changed: every occurrence of
/// `p` among them was dropped, the others kept their order.
pub open spec fn parent_removed(a: Seq<Node>, m: Seq<Node>, c: int, p: int) -> bool {
    &&& m.len() == a.len()
    &&& forall|y: int| 0 <= y < a.len() && y != c ==> #[trigger] m[y] == a[y]
    &&& parents_of(m[c]) == parents_of(a[c]).filter(|q: usize| q != p as usize)
    &&& graph2::node_data_eq(
        m[c],
        Node {
            ptrs: NodePtrs { clean_parent0: m[c].ptrs.clean_parent0, clean_parents: m[c].ptrs.clean_parents, ..a[c].ptrs },
            ..a[c]
        },
    )
    &&& m[c].ptrs.recalc_state == a[c].ptrs.recalc_state
}

/// Node `x` waits in one of the queues of `g`.
pub open spec fn queued(g: Graph2, x: int) -> bool {
    exists|h: int| 0 <= h < g.queues().len() && #[trigger] g.queues()[h].contains(x as usize)
}

/// The main execution engine of Singlethread.
pub struct Engine {
    graph: Graph2,
    /// tracks the current stabilization generation; incremented on every stabilize
    generation: Generation,
    /// counts of handles on nodes; the keys whose count reached zero wait to be collected
    refcounter: RefCounter,
}

impl Engine {
    pub closed spec fn graph(&self) -> Graph2 {
        self.graph
    }

    pub closed spec fn generation(&self) -> Generation {
        self.generation
    }

    /// The graph is sound and no node is left marked visited.
    pub closed spec fn counter(&self) -> RefCounter {
        self.refcounter
    }

    pub open spec fn wf(&self) -> bool {
        &&& self.graph().wf()
        &&& self.graph().none_visited()
        &&& self.counter().wf()
    }

    /// The node a key names, if it belongs to this engine.
    pub open spec fn key_valid(&self, key: NodeKey) -> bool {
        key.graph_token() == self.graph().graph_token() && key.index() < self.graph().len()
    }

    /// Creates a new Engine with maximum height 256; `token` names its graph.
    pub fn new(token: u32) -> (e: Engine)
        ensures
            e.wf(),
            e.graph().len() == 0,
            e.graph().num_heights() == 256,
            e.graph().graph_token() == token,
            e.graph().queues() == Seq::new(256, |h: int| Seq::<usize>::empty()),
            e.graph().free_list() == Seq::<usize>::empty(),
            counts_cover(e.graph().nodes()),
            e.generation().value() == 1,
    {
        Self::new_with_max_height(256, token)
    }

    /// Creates a new Engine with a custom maximum height; `token` names its graph.
    pub fn new_with_max_height(max_height: usize, token: u32) -> (e: Engine)
        ensures
            e.wf(),
            e.graph().len() == 0,
            e.graph().num_heights() == max_height,
            e.graph().graph_token() == token,
            e.graph().queues() == Seq::new(max_height as nat, |h: int| Seq::<usize>::empty()),
            e.graph().free_list() == Seq::<usize>::empty(),
            counts_cover(e.graph().nodes()),
            e.generation().value() == 1,
    {
        Engine { graph: Graph2::new(max_height, token), generation: Generation::new(), refcounter: RefCounter::new() }
    }

    /// The recomputation graph.
    pub fn graph_ref(&self) -> (g: &Graph2)
        ensures
            *g == self.graph(),
    {
        &self.graph
    }

    /// The current stabilization generation.
    pub fn current_generation(&self) -> (g: Generation)
        ensures
            g == self.generation(),
    {
        self.generation
    }

    /// Adds a node for a new computation and returns the first handle on it.
    pub fn mount(&mut self) -> (h: AnchorHandle)
        requires
            old(self).wf(),
        ensures
            final(self).wf(),
            final(self).key_valid(h.key()),
            final(self).generation() == old(self).generation(),
            final(self).graph().graph_token() == old(self).graph().graph_token(),
            final(self).graph().num_heights() == old(self).graph().num_heights(),
            final(self).graph().queues() == old(self).graph().queues(),
            graph2::is_fresh(final(self).graph().nodes()[h.key().index() as int], final(self).graph().graph_token()),
            old(self).graph().free_list().len() > 0 ==> {
                &&& h.key().index() == old(self).graph().free_list()[0]
                &&& final(self).graph().free_list() == old(self).graph().free_list().drop_first()
                &&& final(self).graph().len() == old(self).graph().len()
            },
            old(self).graph().free_list().len() == 0 ==> {
                &&& h.key().index() == old(self).graph().len()
                &&& final(self).graph().free_list() == old(self).graph().free_list()
                &&& final(self).graph().len() == old(self).graph().len() + 1
            },
            forall|i: int|
                0 <= i < old(self).graph().len() && i != h.key().index() ==> graph2::node_data_eq(
                    #[trigger] final(self).graph().nodes()[i],
                    old(self).graph().nodes()[i],
                ) && final(self).graph().nodes()[i].ptrs.recalc_state == old(self).graph().nodes()[i].ptrs.recalc_state,
    {
        let h = self.graph.insert();
        proof {
            assert forall|i: int| 0 <= i < self.graph.len() implies !(#[trigger] self.graph.nodes()[i]).visited by {
                if i != h.key().index() {
                    assert(graph2::node_data_eq(self.graph.nodes()[i], old(self).graph.nodes()[i]));
                }
            }
        }
        h
    }

    /// Looks up the node a key names.
    pub fn lookup(&self, key: NodeKey) -> (r: Result<NodeGuard, EngineError>)
        ensures
            r is Ok <==> self.key_valid(key),
            r matches Ok(g) ==> g.index() == key.index() && self.graph().valid(g),
            r is Err ==> r == Err::<NodeGuard, EngineError>(EngineError::UnknownNode),
    {
        match self.graph.get(key) {
            Some(g) => Ok(g),
            None => Err(EngineError::UnknownNode),
        }
    }

    /// Returns whether a node is Observed, Necessary, or Unnecessary.
    pub fn check_observed_raw(&self, node: NodeGuard) -> (s: ObservedState)
        requires
            self.graph().valid(node),
        ensures
            s == observed_state(self.graph().node(node)),
    {
        node_observed_state(&self.graph, node)
    }

    /// Returns whether the node a key names is Observed, Necessary, or Unnecessary.
    pub fn check_observed(&self, key: NodeKey) -> (r: Result<ObservedState, EngineError>)
        ensures
            r is Ok <==> self.key_valid(key),
            r matches Ok(s) ==> s == observed_state(self.graph().nodes()[key.index() as int]),
    {
        let node = self.lookup(key)?;
        Ok(node_observed_state(&self.graph, node))
    }

    /// Marks a node as observed. All observed nodes will always be brought up-to-date
    /// when *any* node in the graph is retrieved; if the node is not ready it is queued.
    pub fn mark_observed(&mut self, key: NodeKey) -> (r: Result<(), EngineError>)
        requires
            old(self).wf(),
        ensures
            final(self).wf(),
            final(self).generation() == old(self).generation(),
            final(self).graph().graph_token() == old(self).graph().graph_token(),
            final(self).graph().num_heights() == old(self).graph().num_heights(),
            final(self).graph().len() == old(self).graph().len(),
            !old(self).key_valid(key) ==> r == Err::<(), EngineError>(EngineError::UnknownNode) && final(self).graph() == old(self).graph(),
            old(self).key_valid(key) ==> ({
                let x = key.index() as int;
                let n = old(self).graph().nodes()[x];
                let marked = old(self).graph().nodes().update(x, Node { observed: true, ..n });
                &&& final(self).graph().nodes()[x].observed
                &&& data_unchanged(marked, final(self).graph().nodes())
                &&& states_unchanged_except(marked, final(self).graph().nodes(), x)
                &&& if n.ptrs.recalc_state == RecalcState::Ready || n.ptrs.recalc_state == RecalcState::Pending {
                    r is Ok && final(self).graph().nodes() == marked && final(self).graph().queues() == old(self).graph().queues()
                } else if !n.alive {
                    r == Err::<(), EngineError>(EngineError::Graph(GraphError::NodeFreed))
                } else if n.ptrs.height >= old(self).graph().num_heights() {
                    r == Err::<(), EngineError>(EngineError::Graph(GraphError::TooLargeHeight))
                } else {
                    &&& r is Ok
                    &&& final(self).graph().nodes()[x].ptrs.recalc_state == RecalcState::Pending
                    &&& final(self).graph().queues() == old(self).graph().queues().update(
                        n.ptrs.height as int,
                        seq![x as usize] + old(self).graph().queues()[n.ptrs.height as int],
                    )
                }
            }),
    {
        let node = self.lookup(key)?;
        self.graph.set_observed(node, true);
        let ghost marked = self.graph.nodes();
        let mut r: Result<(), EngineError> = Ok(());
        if graph2::recalc_state(&self.graph, node) != RecalcState::Ready {
            match self.graph.try_queue_recalc(node) {
                Ok(()) => {},
                Err(e) => {
                    r = Err(EngineError::Graph(e));
                },
            }
        }
        proof {
            assert forall|i: int| 0 <= i < self.graph.len() implies !(#[trigger] self.graph.nodes()[i]).visited by {
                assert(graph2::node_data_eq(marked[i], self.graph.nodes()[i]));
                assert(!old(self).graph.nodes()[i].visited);
            }
        }
        r
    }

    /// When `node` has become unnecessary, drops its necessary children and does the
    /// same, recursively, for each child that is left unnecessary.
    fn update_necessary_children(&mut self, node: NodeGuard) -> (r: Result<(), EngineError>)
        requires
            old(self).wf(),
            old(self).graph().valid(node),
        ensures
            final(self).wf(),
            final(self).generation() == old(self).generation(),
            final(self).graph().same_lists(old(self).graph()),
            final(self).graph().len() == old(self).graph().len(),
            r is Err ==> r == Err::<(), EngineError>(EngineError::Graph(GraphError::CountUnderflow)),
            counts_cover(old(self).graph().nodes()) ==> r is Ok,
            r is Ok ==> ({
                let a = old(self).graph().nodes();
                let b = final(self).graph().nodes();
                &&& necessity_cascade(a, b)
                &&& forall|y: int|
                    0 <= y < a.len() && (y == node.index() || b[y].necessary_count < a[y].necessary_count)
                        && observed_state(#[trigger] b[y]) == ObservedState::Unnecessary ==> b[y].ptrs.necessary_children@.len() == 0
                &&& forall|y: int|
                    0 <= y < a.len() && #[trigger] emptied(a[y], b[y]) ==> y == node.index() || b[y].necessary_count
                        < a[y].necessary_count
            }),
        decreases total_necessary(self.graph().nodes(), self.graph().len() as int),
    {
        let ghost a = self.graph.nodes();
        proof {
            self.graph.lemma_len_bound();
        }
        if node_observed_state(&self.graph, node) != ObservedState::Unnecessary {
            proof {
                lemma_cascade_refl(a);
            }
            return Ok(());
        }
        proof {
            if counts_cover(a) {
                self.graph.lemma_edges_in();
                let own = a[node.index()].ptrs.necessary_children@;
                assert(graph2::edges_in(a[node.index()], a.len()));
                assert forall|i: int| 0 <= i < own.len() implies a[#[trigger] own[i] as int].necessary_count >= 1 by {
                    lemma_listers_pos(a, own[i], node.index(), a.len() as int);
                    assert(a[own[i] as int].necessary_count >= listers(a, own[i] as int as usize, a.len() as int));
                }
            }
        }
        let children = match node.drain_necessary_children(&mut self.graph) {
            Ok(v) => v,
            Err(e) => {
                return Err(EngineError::Graph(GraphError::CountUnderflow));
            },
        };
        let ghost s1 = self.graph.nodes();
        let ghost list = a[node.index()].ptrs.necessary_children@;
        proof {
            let n = a.len() as int;
            assert forall|y: int| 0 <= y < n implies (#[trigger] s1[y]) == (Node {
                necessary_count: s1[y].necessary_count,
                ptrs: NodePtrs { necessary_children: s1[y].ptrs.necessary_children, ..a[y].ptrs },
                ..a[y]
            }) by {}
            assert forall|y: int| 0 <= y < n implies (#[trigger] s1[y]).ptrs.necessary_children@
                == a[y].ptrs.necessary_children@ || s1[y].ptrs.necessary_children@.len() == 0 by {}
            assert forall|c: int| 0 <= c < n implies (#[trigger] s1[c]).necessary_count == a[c].necessary_count
                - lost_parents(a, s1, c as usize, n) by {
                lemma_lost_single(a, s1, node.index(), c as usize, n);
                if list.len() == 0 {
                    assert(!list.contains(c as usize));
                }
            }
            assert forall|y: int| 0 <= y < n && #[trigger] emptied(a[y], s1[y]) implies observed_state(s1[y])
                == ObservedState::Unnecessary by {
                assert(y == node.index());
                lemma_lost_nonneg(a, s1, y as usize, n);
            }
            assert(necessity_cascade(a, s1));
            lemma_total_necessary(a, s1, node.index(), n);
            assert(list.subrange(0, list.len() as int) =~= list);
            assert forall|y: int|
                0 <= y < n && (y == node.index() || s1[y].necessary_count < a[y].necessary_count)
                    && observed_state(#[trigger] s1[y]) == ObservedState::Unnecessary
                    && !list.subrange(0, list.len() as int).contains(y as usize) implies s1[y].ptrs.necessary_children@.len() == 0 by {
                lemma_lost_single(a, s1, node.index(), y as usize, n);
            }
            assert forall|k: int| 0 <= k < list.len() implies s1[#[trigger] list[k] as int].necessary_count
                < a[list[k] as int].necessary_count by {
                lemma_lost_single(a, s1, node.index(), list[k], n);
                assert(list.contains(list[k]));
            }
        }
        let mut i: usize = 0;
        while i < children.len()
            invariant
                self.wf(),
                self.generation() == old(self).generation(),
                self.graph().same_lists(old(self).graph()),
                self.graph().len() == a.len(),
                a == old(self).graph().nodes(),
                a.len() <= usize::MAX,
                list == a[node.index()].ptrs.necessary_children@,
                0 <= node.index() < a.len(),
                guard_slots(children@) == list,
                forall|k: int| 0 <= k < children@.len() ==> self.graph().valid(#[trigger] children@[k]),
                i <= children@.len(),
                list.len() > 0 ==> total_necessary(self.graph().nodes(), a.len() as int) < total_necessary(a, a.len() as int),
                necessity_cascade(a, self.graph().nodes()),
                self.graph().nodes()[node.index()].ptrs.necessary_children@.len() == 0,
                forall|k: int|
                    0 <= k < list.len() ==> self.graph().nodes()[#[trigger] list[k] as int].necessary_count
                        < a[list[k] as int].necessary_count,
                forall|y: int|
                    0 <= y < a.len() && (y == node.index() || self.graph().nodes()[y].necessary_count < a[y].necessary_count)
                        && observed_state(#[trigger] self.graph().nodes()[y]) == ObservedState::Unnecessary
                        && !list.subrange(i as int, list.len() as int).contains(y as usize)
                        ==> self.graph().nodes()[y].ptrs.necessary_children@.len() == 0,
                forall|y: int|
                    0 <= y < a.len() && #[trigger] emptied(a[y], self.graph().nodes()[y]) ==> y == node.index()
                        || self.graph().nodes()[y].necessary_count < a[y].necessary_count,
            decreases children@.len() - i,
        {
            let child = children[i];
            let ghost cur = self.graph.nodes();
            proof {
                assert(guard_slots(children@)[i as int] == children@[i as int].index() as usize);
                assert(list.len() > 0);
            }
            proof {
                if counts_cover(a) {
                    lemma_cover_cascade(a, cur);
                }
            }
            match self.update_necessary_children(child) {
                Ok(()) => {},
                Err(e) => {
                    return Err(e);
                },
            }
            proof {
                let nx = self.graph.nodes();
                let n = a.len() as int;
                let z = child.index();
                lemma_cascade_trans(a, cur, nx);
                assert forall|k: int| 0 <= k < list.len() implies nx[#[trigger] list[k] as int].necessary_count
                    < a[list[k] as int].necessary_count by {
                    lemma_lost_nonneg(cur, nx, list[k], n);
                    assert(cur[list[k] as int].necessary_count < a[list[k] as int].necessary_count);
                }
                assert(z == list[i as int]);
                assert forall|y: int|
                    0 <= y < n && (y == node.index() || nx[y].necessary_count < a[y].necessary_count)
                        && observed_state(#[trigger] nx[y]) == ObservedState::Unnecessary
                        && !list.subrange(i + 1, list.len() as int).contains(y as usize) implies nx[y].ptrs.necessary_children@.len()
                    == 0 by {
                    lemma_lost_nonneg(cur, nx, y as usize, n);
                    if y == z || nx[y].necessary_count < cur[y].necessary_count {
                    } else {
                        assert(nx[y].necessary_count == cur[y].necessary_count);
                        assert(observed_state(cur[y]) == ObservedState::Unnecessary);
                        assert(!list.subrange(i as int, list.len() as int).contains(y as usize)) by {
                            if list.subrange(i as int, list.len() as int).contains(y as usize) {
                                let k = choose|k: int| 0 <= k < list.len() - i && list.subrange(i as int, list.len() as int)[k] == y as usize;
                                if k > 0 {
                                    assert(list.subrange(i + 1, list.len() as int)[k - 1] == y as usize);
                                } else {
                                    assert(y == z);
                                }
                            }
                        }
                        assert(cur[y].ptrs.necessary_children@.len() == 0);
                    }
                }
                assert forall|y: int| 0 <= y < n && #[trigger] emptied(a[y], nx[y]) implies y == node.index()
                    || nx[y].necessary_count < a[y].necessary_count by {
                    lemma_lost_nonneg(cur, nx, y as usize, n);
                    assert(nx[y].necessary_count == cur[y].necessary_count - lost_parents(cur, nx, y as usize, n));
                    assert(cur[y].ptrs.necessary_children@ == a[y].ptrs.necessary_children@ || cur[y].ptrs.necessary_children@.len() == 0);
                    assert(nx[y].ptrs.necessary_children@ == cur[y].ptrs.necessary_children@ || nx[y].ptrs.necessary_children@.len() == 0);
                    lemma_lost_nonneg(a, cur, y as usize, n);
                    assert(cur[y].necessary_count == a[y].necessary_count - lost_parents(a, cur, y as usize, n));
                    if emptied(a[y], cur[y]) {
                        assert(y == node.index() || cur[y].necessary_count < a[y].necessary_count);
                    } else {
                        assert(emptied(cur[y], nx[y]));
                        if y == z {
                            assert(list[i as int] == z as usize);
                            assert(cur[list[i as int] as int].necessary_count < a[list[i as int] as int].necessary_count);
                        }
                    }
                }
                lemma_total_necessary(cur, nx, 0, n);
            }
            i = i + 1;
        }
        proof {
            assert(list.subrange(list.len() as int, list.len() as int) =~= Seq::<usize>::empty());
        }
        Ok(())
    }

    /// Marks a node as unobserved; nodes that were necessary only because it was
    /// observed stop being necessary.
    pub fn mark_unobserved(&mut self, key: NodeKey) -> (r: Result<(), EngineError>)
        requires
            old(self).wf(),
        ensures
            final(self).wf(),
            final(self).generation() == old(self).generation(),
            final(self).graph().same_lists(old(self).graph()),
            final(self).graph().len() == old(self).graph().len(),
            !old(self).key_valid(key) ==> r == Err::<(), EngineError>(EngineError::UnknownNode) && final(self).graph() == old(self).graph(),
            old(self).key_valid(key) && r is Err ==> r == Err::<(), EngineError>(EngineError::Graph(GraphError::CountUnderflow)),
            old(self).key_valid(key) && counts_cover(old(self).graph().nodes()) ==> r is Ok,
            r is Ok && counts_cover(old(self).graph().nodes()) ==> counts_cover(final(self).graph().nodes()),
            old(self).key_valid(key) && r is Ok ==> ({
                let x = key.index() as int;
                let a = old(self).graph().nodes().update(x, Node { observed: false, ..old(self).graph().nodes()[x] });
                let b = final(self).graph().nodes();
                &&& !b[x].observed
                &&& necessity_cascade(a, b)
                &&& forall|y: int|
                    0 <= y < a.len() && (y == x || b[y].necessary_count < a[y].necessary_count)
                        && observed_state(#[trigger] b[y]) == ObservedState::Unnecessary ==> b[y].ptrs.necessary_children@.len() == 0
                &&& forall|y: int|
                    0 <= y < a.len() && #[trigger] emptied(a[y], b[y]) ==> y == x || b[y].necessary_count < a[y].necessary_count
            }),
    {
        let node = self.lookup(key)?;
        self.graph.set_observed(node, false);
        proof {
            assert forall|i: int| 0 <= i < self.graph.len() implies !(#[trigger] self.graph.nodes()[i]).visited by {
                assert(!old(self).graph.nodes()[i].visited);
            }
            if counts_cover(old(self).graph.nodes()) {
                lemma_cover_same(old(self).graph.nodes(), self.graph.nodes());
            }
        }
        let ghost m = self.graph.nodes();
        let res = self.update_necessary_children(node);
        proof {
            if res is Ok && counts_cover(old(self).graph.nodes()) {
                lemma_cover_cascade(m, self.graph.nodes());
            }
        }
        res
    }

    /// Marks `next` and, transitively, the clean parents of unnecessary ready
    /// nodes as needing recalculation; observed or necessary nodes met on the way
    /// are queued instead. Returns, for each dropped clean-parent edge, the parent
    /// and the key of the child, whose computation must hear that the child changed.
    fn mark_dirty0(&mut self, next: NodeGuard) -> (r: Result<Vec<(NodeGuard, NodeKey)>, EngineError>)
        requires
            old(self).wf(),
            old(self).graph().valid(next),
        ensures
            final(self).wf(),
            final(self).generation() == old(self).generation(),
            final(self).graph().graph_token() == old(self).graph().graph_token(),
            final(self).graph().num_heights() == old(self).graph().num_heights(),
            final(self).graph().len() == old(self).graph().len(),
            final(self).graph().free_list() == old(self).graph().free_list(),
            r is Err ==> r == Err::<Vec<(NodeGuard, NodeKey)>, EngineError>(EngineError::Graph(GraphError::NodeFreed))
                || r == Err::<Vec<(NodeGuard, NodeKey)>, EngineError>(EngineError::Graph(GraphError::TooLargeHeight)),
            r matches Ok(notes) ==> ({
                let a = old(self).graph().nodes();
                let b = final(self).graph().nodes();
                &&& dirty_cascade(a, b)
                &&& notes_sound(a, b, notes@, old(self).graph().graph_token())
                &&& notes_complete(a, b, notes@)
                &&& forall|y: int|
                    0 <= y < a.len() && #[trigger] parents_emptied(a[y], b[y]) ==> a[y].ptrs.recalc_state == RecalcState::Ready
                        && b[y].ptrs.recalc_state == RecalcState::Needed && unnecessary(a[y])
                &&& forall|y: int| 0 <= y < a.len() && #[trigger] climbs_to(a, next.index(), y) ==> dirtied(b[y])
                &&& changes_reached_from(a, b, next.index())
                &&& needed_dropped(a, b)
                &&& forall|y: int, j: int|
                    0 <= y < a.len() && a[y].ptrs.recalc_state == RecalcState::Ready && b[y].ptrs.recalc_state
                        == RecalcState::Needed && 0 <= j < parents_of(a[y]).len() ==> dirtied(
                        b[#[trigger] parents_of(a[y])[j] as int],
                    )
                &&& dirtied(b[next.index()])
            }),
            schedulable(old(self).graph().nodes(), old(self).graph().num_heights()) && old(self).graph().node(next).alive ==> r is Ok,
        decreases total_parents(self.graph().nodes(), self.graph().len() as int), 1nat,
    {
        let ghost a = self.graph.nodes();
        let id = next.key(&self.graph);
        if node_observed_state(&self.graph, next) != ObservedState::Unnecessary {
            match self.graph.try_queue_recalc(next) {
                Ok(()) => {},
                Err(e) => {
                    proof {
                        assert(e == GraphError::NodeFreed || e == GraphError::TooLargeHeight);
                    }
                    return Err(EngineError::Graph(e));
                },
            }
            proof {
                let b = self.graph.nodes();
                assert forall|i: int| 0 <= i < self.graph.len() implies !(#[trigger] self.graph.nodes()[i]).visited by {
                    assert(graph2::node_data_eq(a[i], b[i]));
                }
                assert forall|y: int| 0 <= y < a.len() implies parents_of(#[trigger] b[y]) == parents_of(a[y]) by {
                    assert(graph2::node_data_eq(a[y], b[y]));
                }
                assert forall|y: int| 0 <= y < a.len() implies dirty_frame(a[y], #[trigger] b[y]) by {
                    assert(graph2::node_data_eq(a[y], b[y]));
                }
                assert forall|y: int| 0 <= y < a.len() implies (#[trigger] b[y]).ptrs.recalc_state == a[y].ptrs.recalc_state || (a[y].ptrs.recalc_state
                    == RecalcState::Ready && b[y].ptrs.recalc_state == RecalcState::Needed && unnecessary(a[y])) || (
                b[y].ptrs.recalc_state == RecalcState::Pending && !unnecessary(a[y])) by {
                    if y != next.index() {
                        assert(graph2::states_unchanged_except(a, b, next.index()));
                    }
                }
                assert(dirty_cascade(a, b));
                assert(dirtied(b[next.index()]));
                assert(needed_dropped(a, b)) by {
                    assert forall|y: int|
                        0 <= y < a.len() && a[y].ptrs.recalc_state == RecalcState::Ready && (#[trigger] b[y]).ptrs.recalc_state
                            == RecalcState::Needed implies parents_of(b[y]).len() == 0 by {
                        if y != next.index() {
                            assert(graph2::states_unchanged_except(a, b, next.index()));
                        }
                    }
                }
                law_needed_nodes_dirty_their_parents(a, b, Seq::empty(), old(self).graph().graph_token());
                old(self).graph.lemma_len_bound();
                assert forall|y: int| 0 <= y < a.len() && #[trigger] climbs_to(a, next.index(), y) implies dirtied(b[y]) by {
                    let s = choose|s: Seq<int>| #[trigger] graph2::is_path(a, s) && s[0] == next.index() && s.last() == y && ready_climb(a, s);
                    law_dirty_marking_spreads(a, b, s);
                }
                assert forall|y: int|
                    0 <= y < a.len() && ((#[trigger] b[y]).ptrs.recalc_state != a[y].ptrs.recalc_state || parents_of(b[y])
                        != parents_of(a[y])) implies climbs_to(a, next.index(), y) by {
                    if y != next.index() {
                        assert(graph2::states_unchanged_except(a, b, next.index()));
                    } else {
                        lemma_climb_self(a, y);
                    }
                }
            }
            return Ok(Vec::new());
        }
        if graph2::recalc_state(&self.graph, next) != RecalcState::Ready {
            proof {
                lemma_dirty_refl(a);
                law_needed_nodes_dirty_their_parents(a, a, Seq::empty(), old(self).graph().graph_token());
                assert(dirtied(a[next.index()]));
                old(self).graph.lemma_len_bound();
                assert forall|y: int| 0 <= y < a.len() && #[trigger] climbs_to(a, next.index(), y) implies dirtied(a[y]) by {
                    let s = choose|s: Seq<int>| #[trigger] graph2::is_path(a, s) && s[0] == next.index() && s.last() == y && ready_climb(a, s);
                    law_dirty_marking_spreads(a, a, s);
                }
            }
            return Ok(Vec::new());
        }
        graph2::needs_recalc(&mut self.graph, next);
        let ghost s0 = self.graph().nodes();
        proof {
            let x = next.index();
            if schedulable(a, self.graph.num_heights()) {
                assert forall|y: int| 0 <= y < s0.len() && (#[trigger] s0[y]).alive implies {
                    &&& s0[y].ptrs.height < self.graph.num_heights()
                    &&& forall|j: int|
                        0 <= j < parents_of(s0[y]).len() ==> #[trigger] parents_of(s0[y])[j] < s0.len()
                            && s0[parents_of(s0[y])[j] as int].alive
                } by {
                    assert(parents_of(s0[y]) == parents_of(a[y]));
                    assert forall|j: int| 0 <= j < parents_of(s0[y]).len() implies #[trigger] parents_of(s0[y])[j] < s0.len()
                        && s0[parents_of(s0[y])[j] as int].alive by {
                        let q = parents_of(a[y])[j] as int;
                        assert(s0[q].alive == a[q].alive);
                    }
                }
                assert(schedulable(s0, self.graph.num_heights()));
            }
            assert forall|i: int| 0 <= i < self.graph.len() implies !(#[trigger] self.graph.nodes()[i]).visited by {
                if i != x {
                    assert(s0[i] == a[i]);
                }
            }
            assert forall|y: int| 0 <= y < a.len() implies parents_of(#[trigger] s0[y]) == parents_of(a[y]) by {
                if y != x {
                    assert(s0[y] == a[y]);
                }
            }
            lemma_total_parents(a, s0, 0, a.len() as int);
            lemma_total_parents(s0, a, 0, a.len() as int);
        }
        let notes = match self.dirty_parents(next) {
            Ok(v) => v,
            Err(e) => {
                return Err(e);
            },
        };
        proof {
            let b = self.graph().nodes();
            let x = next.index();
            let n = a.len() as int;
            assert(dirty_cascade(a, s0)) by {
                assert forall|y: int| 0 <= y < n implies dirty_frame(a[y], #[trigger] s0[y]) by {
                    if y != x {
                        assert(s0[y] == a[y]);
                    }
                }
                assert forall|y: int| 0 <= y < n implies (#[trigger] s0[y]).ptrs.recalc_state == a[y].ptrs.recalc_state || (a[y].ptrs.recalc_state
                    == RecalcState::Ready && s0[y].ptrs.recalc_state == RecalcState::Needed && unnecessary(a[y])) || (
                s0[y].ptrs.recalc_state == RecalcState::Pending && !unnecessary(a[y])) by {
                    if y != x {
                        assert(s0[y] == a[y]);
                    }
                }
            }
            lemma_dirty_trans(a, s0, b);
            assert(dirtied(s0[x]));
            assert forall|y: int| 0 <= y < n && #[trigger] parents_emptied(a[y], b[y]) implies a[y].ptrs.recalc_state
                == RecalcState::Ready && b[y].ptrs.recalc_state == RecalcState::Needed && unnecessary(a[y]) by {
                assert(parents_of(s0[y]) == parents_of(a[y]));
                assert(parents_emptied(s0[y], b[y]));
                if y == x {
                    assert(dirtied(b[x]));
                    assert(unnecessary(b[x]) == unnecessary(a[x]));
                    assert(dirty_frame(s0[x], b[x]));
                    assert(b[x].ptrs.recalc_state == s0[x].ptrs.recalc_state || (s0[x].ptrs.recalc_state == RecalcState::Ready
                        && b[x].ptrs.recalc_state == RecalcState::Needed && unnecessary(s0[x])) || (b[x].ptrs.recalc_state
                        == RecalcState::Pending && !unnecessary(s0[x])));
                } else {
                    assert(s0[y] == a[y]);
                }
            }
            assert forall|k: int| 0 <= k < notes@.len() implies {
                let (pp, kk) = #[trigger] notes@[k];
                &&& 0 <= kk.index() < a.len()
                &&& kk.graph_token() == old(self).graph().graph_token()
                &&& parents_emptied(a[kk.index() as int], b[kk.index() as int])
                &&& parents_of(a[kk.index() as int]).contains(pp.index() as usize)
                &&& 0 <= pp.index() < a.len()
                &&& dirtied(b[pp.index()])
            } by {
                let (pp, kk) = notes@[k];
                assert(parents_of(s0[kk.index() as int]) == parents_of(a[kk.index() as int]));
            }
            assert forall|y: int, j: int| #[trigger] dropped_edge(a, b, y, j) implies exists|k: int|
                0 <= k < notes@.len() && (#[trigger] notes@[k]).0.index() == parents_of(a[y])[j] && notes@[k].1.index() == y by {
                assert(parents_of(s0[y]) == parents_of(a[y]));
                assert(dropped_edge(s0, b, y, j));
            }
            assert(needed_dropped(a, b)) by {
                assert forall|y: int|
                    0 <= y < n && a[y].ptrs.recalc_state == RecalcState::Ready && (#[trigger] b[y]).ptrs.recalc_state
                        == RecalcState::Needed implies parents_of(b[y]).len() == 0 by {
                    if y != x {
                        assert(s0[y] == a[y]);
                    }
                }
            }
            law_needed_nodes_dirty_their_parents(a, b, notes@, old(self).graph().graph_token());
            assert(dirtied(b[x]));
            old(self).graph.lemma_len_bound();
            assert forall|y: int| 0 <= y < a.len() && #[trigger] climbs_to(a, next.index(), y) implies dirtied(b[y]) by {
                let s = choose|s: Seq<int>| #[trigger] graph2::is_path(a, s) && s[0] == next.index() && s.last() == y && ready_climb(a, s);
                law_dirty_marking_spreads(a, b, s);
            }
            assert forall|y: int|
                0 <= y < n && ((#[trigger] b[y]).ptrs.recalc_state != a[y].ptrs.recalc_state || parents_of(b[y])
                    != parents_of(a[y])) implies climbs_to(a, x, y) by {
                if y == x {
                    lemma_climb_self(a, x);
                } else {
                    assert(s0[y] == a[y]);
                    let p = choose|p: int| 0 <= p && parents_of(s0[x]).contains(p as usize) && #[trigger] climbs_to(s0, p, y);
                    lemma_climb_cascade(a, s0, p, y);
                    assert(parents_of(s0[x]) == parents_of(a[x]));
                    assert(ready_unneeded(a[x]));
                    lemma_climb_prepend(a, x, p, y);
                }
            }
        }
        Ok(notes)
    }

    /// Drops the clean parents of `next` and marks each of them dirty, returning a
    /// notification for every clean-parent edge dropped on the way.
    fn dirty_parents(&mut self, next: NodeGuard) -> (r: Result<Vec<(NodeGuard, NodeKey)>, EngineError>)
        requires
            old(self).wf(),
            old(self).graph().valid(next),
        ensures
            final(self).wf(),
            final(self).generation() == old(self).generation(),
            final(self).graph().graph_token() == old(self).graph().graph_token(),
            final(self).graph().num_heights() == old(self).graph().num_heights(),
            final(self).graph().len() == old(self).graph().len(),
            final(self).graph().free_list() == old(self).graph().free_list(),
            r is Err ==> r == Err::<Vec<(NodeGuard, NodeKey)>, EngineError>(EngineError::Graph(GraphError::NodeFreed))
                || r == Err::<Vec<(NodeGuard, NodeKey)>, EngineError>(EngineError::Graph(GraphError::TooLargeHeight)),
            r matches Ok(notes) ==> ({
                let a = old(self).graph().nodes();
                let b = final(self).graph().nodes();
                &&& dirty_cascade(a, b)
                &&& notes_sound(a, b, notes@, old(self).graph().graph_token())
                &&& notes_complete(a, b, notes@)
                &&& parents_of(b[next.index()]).len() == 0
                &&& needed_dropped(a, b)
                &&& parent_changes_reached_from(a, b, next.index())
                &&& forall|y: int|
                    0 <= y < a.len() && y != next.index() && #[trigger] parents_emptied(a[y], b[y]) ==> a[y].ptrs.recalc_state
                        == RecalcState::Ready && b[y].ptrs.recalc_state == RecalcState::Needed && unnecessary(a[y])
            }),
            schedulable(old(self).graph().nodes(), old(self).graph().num_heights()) && old(self).graph().node(next).alive ==> r is Ok,
        decreases total_parents(self.graph().nodes(), self.graph().len() as int), 0nat,
    {
        let ghost a = self.graph.nodes();
        let id = next.key(&self.graph);
        let parents = next.drain_clean_parents(&mut self.graph);
        let ghost s1 = self.graph().nodes();
        let ghost plist = parents_of(a[next.index()]);
        proof {
            let n = a.len() as int;
            assert forall|i: int| 0 <= i < self.graph.len() implies !(#[trigger] self.graph.nodes()[i]).visited by {
                if i != next.index() {
                    assert(s1[i] == a[i]);
                }
            }
            lemma_total_parents(a, s1, next.index(), n);
            let x = next.index();
            assert forall|y: int| 0 <= y < n implies dirty_frame(a[y], #[trigger] s1[y]) by {
                if y != x {
                    assert(s1[y] == a[y]);
                } else {
                    assert(graph2::node_data_eq(
                        s1[x],
                        Node {
                            ptrs: NodePtrs {
                                clean_parent0: s1[x].ptrs.clean_parent0,
                                clean_parents: s1[x].ptrs.clean_parents,
                                ..a[x].ptrs
                            },
                            ..a[x]
                        },
                    ));
                }
            }
            assert forall|y: int| 0 <= y < n implies parents_of(#[trigger] s1[y]) == parents_of(a[y]) || parents_of(s1[y]).len() == 0 by {
                if y != x {
                    assert(s1[y] == a[y]);
                }
            }
            assert forall|y: int| 0 <= y < n implies (#[trigger] s1[y]).ptrs.recalc_state == a[y].ptrs.recalc_state || (a[y].ptrs.recalc_state
                == RecalcState::Ready && s1[y].ptrs.recalc_state == RecalcState::Needed && unnecessary(a[y])) || (
            s1[y].ptrs.recalc_state == RecalcState::Pending && !unnecessary(a[y])) by {
                if y != x {
                    assert(s1[y] == a[y]);
                }
            }
            assert(dirty_cascade(a, s1));
            assert(needed_dropped(a, s1));
            assert forall|y: int|
                0 <= y < n && ((#[trigger] s1[y]).ptrs.recalc_state != a[y].ptrs.recalc_state || parents_of(s1[y])
                    != parents_of(a[y])) implies y == x || exists|p: int|
                    0 <= p && parents_of(a[x]).contains(p as usize) && #[trigger] climbs_to(a, p, y) by {
                if y != x {
                    assert(s1[y] == a[y]);
                }
            }
            assert forall|y: int| 0 <= y < n && y != x && #[trigger] parents_emptied(a[y], s1[y]) implies a[y].ptrs.recalc_state
                == RecalcState::Ready && s1[y].ptrs.recalc_state == RecalcState::Needed && unnecessary(a[y]) by {
                if y != x {
                    assert(s1[y] == a[y]);
                }
            }
        }
        let mut notes: Vec<(NodeGuard, NodeKey)> = Vec::new();
        let mut i: usize = 0;
        while i < parents.len()
            invariant
                self.wf(),
                self.generation() == old(self).generation(),
                self.graph().graph_token() == old(self).graph().graph_token(),
                self.graph().num_heights() == old(self).graph().num_heights(),
                self.graph().free_list() == old(self).graph().free_list(),
                self.graph().len() == a.len(),
                a == old(self).graph().nodes(),
                0 <= next.index() < a.len(),
                id.index() == next.index(),
                id.graph_token() == old(self).graph().graph_token(),
                plist == parents_of(a[next.index()]),
                guard_slots(parents@) == plist,
                forall|k: int| 0 <= k < parents@.len() ==> self.graph().valid(#[trigger] parents@[k]),
                i <= parents@.len(),
                plist.len() > 0 ==> total_parents(self.graph().nodes(), a.len() as int) < total_parents(a, a.len() as int),
                dirty_cascade(a, self.graph().nodes()),
                needed_dropped(a, self.graph().nodes()),
                parent_changes_reached_from(a, self.graph().nodes(), next.index()),
                parents_of(self.graph().nodes()[next.index()]).len() == 0,
                notes_sound(a, self.graph().nodes(), notes@, old(self).graph().graph_token()),
                notes_cover(a, self.graph().nodes(), notes@, next.index(), i as int),
                forall|y: int|
                    0 <= y < a.len() && y != next.index() && #[trigger] parents_emptied(a[y], self.graph().nodes()[y]) ==> a[y].ptrs.recalc_state
                        == RecalcState::Ready && self.graph().nodes()[y].ptrs.recalc_state == RecalcState::Needed
                        && unnecessary(a[y]),
            decreases parents@.len() - i,
        {
            let parent = parents[i];
            let ghost cur = self.graph().nodes();
            proof {
                assert(guard_slots(parents@)[i as int] == parents@[i as int].index() as usize);
                assert(plist.len() > 0);
                if schedulable(a, old(self).graph().num_heights()) && a[next.index()].alive {
                    lemma_schedulable_cascade(a, cur, old(self).graph().num_heights());
                    assert(plist[i as int] == parent.index() as usize);
                    assert(a[parent.index()].alive);
                    assert(dirty_frame(a[parent.index()], cur[parent.index()]));
                }
            }
            if !self.graph.node_ref(parent).alive {
                return Err(EngineError::Graph(GraphError::NodeFreed));
            }
            let sub = match self.mark_dirty0(parent) {
                Ok(v) => v,
                Err(e) => {
                    return Err(e);
                },
            };
            let ghost old_notes = notes@;
            notes.push((parent, id));
            let mut sub = sub;
            let ghost subn = sub@;
            notes.append(&mut sub);
            proof {
                let nx = self.graph().nodes();
                let n = a.len() as int;
                let p = parent.index();
                lemma_needed_trans(a, cur, nx);
                lemma_dirty_trans(a, cur, nx);
                lemma_total_parents(cur, nx, 0, n);
                assert forall|y: int|
                    0 <= y < n && ((#[trigger] nx[y]).ptrs.recalc_state != a[y].ptrs.recalc_state || parents_of(nx[y])
                        != parents_of(a[y])) implies y == next.index() || exists|q: int|
                        0 <= q && parents_of(a[next.index()]).contains(q as usize) && #[trigger] climbs_to(a, q, y) by {
                    if cur[y].ptrs.recalc_state != a[y].ptrs.recalc_state || parents_of(cur[y]) != parents_of(a[y]) {
                    } else {
                        assert(nx[y].ptrs.recalc_state != cur[y].ptrs.recalc_state || parents_of(nx[y]) != parents_of(cur[y]));
                        assert(climbs_to(cur, p, y));
                        lemma_climb_cascade(a, cur, p, y);
                        assert(plist[i as int] == p as usize);
                        assert(plist.contains(p as usize));
                    }
                }
                assert(notes@ == old_notes.push((parent, id)) + subn);
                assert(plist[i as int] == p as usize);
                // soundness
                assert forall|k: int| 0 <= k < notes@.len() implies {
                    let (pp, kk) = #[trigger] notes@[k];
                    &&& 0 <= kk.index() < a.len()
                    &&& kk.graph_token() == old(self).graph().graph_token()
                    &&& parents_emptied(a[kk.index() as int], nx[kk.index() as int])
                    &&& parents_of(a[kk.index() as int]).contains(pp.index() as usize)
                    &&& 0 <= pp.index() < a.len()
                    &&& dirtied(nx[pp.index()])
                } by {
                    if k < old_notes.len() {
                        assert(notes@[k] == old_notes[k]);
                        let (pp, kk) = old_notes[k];
                        assert(parents_of(nx[kk.index() as int]) == parents_of(cur[kk.index() as int]) || parents_of(nx[kk.index() as int]).len() == 0);
                        assert(dirtied(cur[pp.index()]));
                    } else if k == old_notes.len() {
                        assert(notes@[k] == (parent, id));
                        assert(parents_of(nx[next.index()]) == parents_of(cur[next.index()]) || parents_of(nx[next.index()]).len() == 0);
                        assert(plist.contains(p as usize));
                    } else {
                        assert(notes@[k] == subn[k - old_notes.len() - 1]);
                        let (pp, kk) = subn[k - old_notes.len() - 1];
                        let y = kk.index() as int;
                        assert(parents_of(cur[y]) == parents_of(a[y]) || parents_of(cur[y]).len() == 0);
                    }
                }
                // completeness
                assert(notes_cover(a, cur, old_notes, next.index(), i as int));
                assert forall|y: int, j: int|
                    #[trigger] dropped_edge(a, nx, y, j) && (y != next.index()
                        || j < i + 1) implies exists|k: int|
                    0 <= k < notes@.len() && (#[trigger] notes@[k]).0.index() == parents_of(a[y])[j]
                        && notes@[k].1.index() == y by {
                    assert(parents_of(cur[y]) == parents_of(a[y]) || parents_of(cur[y]).len() == 0);
                    if parents_emptied(a[y], cur[y]) {
                        assert(dropped_edge(a, cur, y, j));
                        if y == next.index() && j == i {
                            let k = old_notes.len() as int;
                            assert(notes@[k] == (parent, id));
                            assert(notes@[k].0.index() == parents_of(a[y])[j]);
                        } else {
                            let k = choose|k: int| 0 <= k < old_notes.len() && (#[trigger] old_notes[k]).0.index()
                                == parents_of(a[y])[j] && old_notes[k].1.index() == y;
                            assert(notes@[k] == old_notes[k]);
                        }
                    } else {
                        assert(parents_emptied(cur[y], nx[y]));
                        assert(parents_of(cur[y])[j] == parents_of(a[y])[j]);
                        assert(dropped_edge(cur, nx, y, j));
                        let k = choose|k: int| 0 <= k < subn.len() && (#[trigger] subn[k]).0.index() == parents_of(cur[y])[j]
                            && subn[k].1.index() == y;
                        assert(notes@[old_notes.len() + 1 + k] == subn[k]);
                    }
                }
                assert(notes_cover(a, nx, notes@, next.index(), i + 1));
                assert forall|y: int|
                    0 <= y < a.len() && y != next.index() && #[trigger] parents_emptied(a[y], nx[y]) implies a[y].ptrs.recalc_state
                    == RecalcState::Ready && nx[y].ptrs.recalc_state == RecalcState::Needed && unnecessary(a[y]) by {
                    assert(parents_of(cur[y]) == parents_of(a[y]) || parents_of(cur[y]).len() == 0);
                    assert(cur[y].ptrs.recalc_state == a[y].ptrs.recalc_state || (a[y].ptrs.recalc_state == RecalcState::Ready
                        && cur[y].ptrs.recalc_state == RecalcState::Needed && unnecessary(a[y])) || (cur[y].ptrs.recalc_state
                        == RecalcState::Pending && !unnecessary(a[y])));
                    if parents_emptied(a[y], cur[y]) {
                        assert(unnecessary(cur[y]) == unnecessary(a[y])) by {
                            assert(dirty_frame(a[y], cur[y]));
                        }
                        assert(nx[y].ptrs.recalc_state == cur[y].ptrs.recalc_state || (cur[y].ptrs.recalc_state == RecalcState::Ready
                            && nx[y].ptrs.recalc_state == RecalcState::Needed && unnecessary(cur[y])) || (nx[y].ptrs.recalc_state
                            == RecalcState::Pending && !unnecessary(cur[y])));
                    } else {
                        assert(parents_emptied(cur[y], nx[y]));
                    }
                }
                assert(parents_of(nx[next.index()]).len() == 0) by {
                    assert(parents_of(nx[next.index()]) == parents_of(cur[next.index()]) || parents_of(nx[next.index()]).len() == 0);
                }
            }
            i = i + 1;
        }
        proof {
            let b = self.graph().nodes();
            assert(notes_cover(a, b, notes@, next.index(), i as int));
            assert(plist.len() == parents@.len());
            assert(notes_complete(a, b, notes@));
        }
        Ok(notes)
    }

    /// Marks a node dirty. With `skip_self` the node's output has definitely changed
    /// and it has just been recalculated, so only its clean parents are marked dirty;
    /// otherwise the node itself is marked as `mark_dirty0` does.
    fn mark_dirty(&mut self, node: NodeGuard, skip_self: bool) -> (r: Result<Vec<(NodeGuard, NodeKey)>, EngineError>)
        requires
            old(self).wf(),
            old(self).graph().valid(node),
        ensures
            final(self).wf(),
            final(self).generation() == old(self).generation(),
            final(self).graph().graph_token() == old(self).graph().graph_token(),
            final(self).graph().num_heights() == old(self).graph().num_heights(),
            final(self).graph().len() == old(self).graph().len(),
            final(self).graph().free_list() == old(self).graph().free_list(),
            r is Err ==> r == Err::<Vec<(NodeGuard, NodeKey)>, EngineError>(EngineError::Graph(GraphError::NodeFreed))
                || r == Err::<Vec<(NodeGuard, NodeKey)>, EngineError>(EngineError::Graph(GraphError::TooLargeHeight)),
            r matches Ok(notes) ==> ({
                let a = old(self).graph().nodes();
                let b = final(self).graph().nodes();
                &&& dirty_cascade(a, b)
                &&& notes_sound(a, b, notes@, old(self).graph().graph_token())
                &&& notes_complete(a, b, notes@)
                &&& forall|y: int|
                    0 <= y < a.len() && (y != node.index() || !skip_self) && #[trigger] parents_emptied(a[y], b[y])
                        ==> a[y].ptrs.recalc_state == RecalcState::Ready && b[y].ptrs.recalc_state == RecalcState::Needed
                        && unnecessary(a[y])
                &&& skip_self ==> parents_of(b[node.index()]).len() == 0
                &&& !skip_self ==> dirtied(b[node.index()])
                &&& !skip_self ==> changes_reached_from(a, b, node.index())
                &&& skip_self ==> parent_changes_reached_from(a, b, node.index())
                &&& !skip_self ==> forall|y: int| 0 <= y < a.len() && #[trigger] climbs_to(a, node.index(), y) ==> dirtied(b[y])
                &&& skip_self ==> forall|j: int, y: int|
                    0 <= j < parents_of(a[node.index()]).len() && 0 <= y < a.len() && #[trigger] climbs_to(
                        a,
                        parents_of(a[node.index()])[j] as int,
                        y,
                    ) ==> dirtied(b[y])
                &&& needed_dropped(a, b)
                &&& forall|y: int, j: int|
                    0 <= y < a.len() && a[y].ptrs.recalc_state == RecalcState::Ready && b[y].ptrs.recalc_state
                        == RecalcState::Needed && 0 <= j < parents_of(a[y]).len() ==> dirtied(
                        b[#[trigger] parents_of(a[y])[j] as int],
                    )
            }),
            schedulable(old(self).graph().nodes(), old(self).graph().num_heights()) && old(self).graph().node(node).alive ==> r is Ok,
    {
        let ghost a = self.graph().nodes();
        let r = if skip_self {
            self.dirty_parents(node)
        } else {
            self.mark_dirty0(node)
        };
        proof {
            if r is Ok {
                let b = self.graph().nodes();
                let x = node.index();
                law_needed_nodes_dirty_their_parents(a, b, r->Ok_0@, old(self).graph().graph_token());
                if skip_self {
                    old(self).graph.lemma_len_bound();
                    old(self).graph.lemma_edges_in();
                    assert forall|j: int, y: int|
                        0 <= j < parents_of(a[x]).len() && 0 <= y < a.len() && #[trigger] climbs_to(a, parents_of(a[x])[j] as int, y)
                            implies dirtied(b[y]) by {
                        assert(dropped_edge(a, b, x, j));
                        let notes = r->Ok_0@;
                        let k = choose|k: int| 0 <= k < notes.len() && (#[trigger] notes[k]).0.index() == parents_of(a[x])[j]
                            && notes[k].1.index() == x;
                        let (pp, kk) = notes[k];
                        assert(dirtied(b[pp.index()]));
                        let s = choose|s: Seq<int>| #[trigger] graph2::is_path(a, s) && s[0] == parents_of(a[x])[j] as int && s.last() == y
                            && ready_climb(a, s);
                        law_dirty_marking_spreads(a, b, s);
                    }
                }
            }
        }
        r
    }

    /// Reads the marks left by dirty handles since the last stabilization and marks
    /// each of their nodes dirty, returning the notifications for the computations.
    pub fn update_dirty_marks(&mut self, marks: &Vec<NodeKey>) -> (r: Result<Vec<(NodeGuard, NodeKey)>, EngineError>)
        requires
            old(self).wf(),
        ensures
            final(self).wf(),
            final(self).generation() == old(self).generation(),
            final(self).graph().graph_token() == old(self).graph().graph_token(),
            final(self).graph().num_heights() == old(self).graph().num_heights(),
            final(self).graph().len() == old(self).graph().len(),
            r is Err ==> r == Err::<Vec<(NodeGuard, NodeKey)>, EngineError>(EngineError::UnknownNode) || r
                == Err::<Vec<(NodeGuard, NodeKey)>, EngineError>(EngineError::Graph(GraphError::NodeFreed)) || r
                == Err::<Vec<(NodeGuard, NodeKey)>, EngineError>(EngineError::Graph(GraphError::TooLargeHeight)),
            r matches Ok(notes) ==> ({
                let a = old(self).graph().nodes();
                let b = final(self).graph().nodes();
                &&& forall|k: int| 0 <= k < marks@.len() ==> old(self).key_valid(#[trigger] marks@[k])
                &&& dirty_cascade(a, b)
                &&& notes_sound(a, b, notes@, old(self).graph().graph_token())
                &&& notes_complete(a, b, notes@)
                &&& forall|y: int|
                    0 <= y < a.len() && #[trigger] parents_emptied(a[y], b[y]) ==> a[y].ptrs.recalc_state == RecalcState::Ready
                        && b[y].ptrs.recalc_state == RecalcState::Needed && unnecessary(a[y])
                &&& forall|k: int| 0 <= k < marks@.len() ==> dirtied(b[(#[trigger] marks@[k]).index() as int])
                &&& needed_dropped(a, b)
                &&& changes_reached_from_marks(a, b, marks@, marks@.len() as int)
                &&& forall|k: int, y: int|
                    0 <= k < marks@.len() && 0 <= y < a.len() && #[trigger] climbs_to(a, marks@[k].index() as int, y)
                        ==> dirtied(b[y])
                &&& forall|y: int, j: int|
                    0 <= y < a.len() && a[y].ptrs.recalc_state == RecalcState::Ready && b[y].ptrs.recalc_state
                        == RecalcState::Needed && 0 <= j < parents_of(a[y]).len() ==> dirtied(
                        b[#[trigger] parents_of(a[y])[j] as int],
                    )
            }),
            schedulable(old(self).graph().nodes(), old(self).graph().num_heights()) && (forall|k: int|
                0 <= k < marks@.len() ==> old(self).key_valid(#[trigger] marks@[k]) && old(self).graph().nodes()[marks@[k].index() as int].alive)
                ==> r is Ok,
    {
        let ghost a = self.graph().nodes();
        let mut notes: Vec<(NodeGuard, NodeKey)> = Vec::new();
        proof {
            lemma_dirty_refl(a);
        }
        let mut i: usize = 0;
        while i < marks.len()
            invariant
                self.wf(),
                self.generation() == old(self).generation(),
                self.graph().graph_token() == old(self).graph().graph_token(),
                self.graph().num_heights() == old(self).graph().num_heights(),
                self.graph().len() == a.len(),
                a == old(self).graph().nodes(),
                i <= marks@.len(),
                forall|k: int| 0 <= k < i ==> old(self).key_valid(#[trigger] marks@[k]),
                dirty_cascade(a, self.graph().nodes()),
                needed_dropped(a, self.graph().nodes()),
                changes_reached_from_marks(a, self.graph().nodes(), marks@, i as int),
                notes_sound(a, self.graph().nodes(), notes@, old(self).graph().graph_token()),
                notes_complete(a, self.graph().nodes(), notes@),
                forall|y: int|
                    0 <= y < a.len() && #[trigger] parents_emptied(a[y], self.graph().nodes()[y]) ==> a[y].ptrs.recalc_state
                        == RecalcState::Ready && self.graph().nodes()[y].ptrs.recalc_state == RecalcState::Needed
                        && unnecessary(a[y]),
                forall|k: int| 0 <= k < i ==> dirtied(self.graph().nodes()[(#[trigger] marks@[k]).index() as int]),
            decreases marks@.len() - i,
        {
            let node = self.lookup(marks[i])?;
            let ghost cur = self.graph().nodes();
            proof {
                if schedulable(a, old(self).graph().num_heights()) && (forall|k: int|
                    0 <= k < marks@.len() ==> old(self).key_valid(#[trigger] marks@[k]) && a[marks@[k].index() as int].alive) {
                    lemma_schedulable_cascade(a, cur, old(self).graph().num_heights());
                    assert(old(self).key_valid(marks@[i as int]) && a[marks@[i as int].index() as int].alive);
                    assert(dirty_frame(a[node.index()], cur[node.index()]));
                }
            }
            let sub = match self.mark_dirty(node, false) {
                Ok(v) => v,
                Err(e) => {
                    return Err(e);
                },
            };
            let ghost old_notes = notes@;
            let mut sub = sub;
            let ghost subn = sub@;
            notes.append(&mut sub);
            proof {
                let nx = self.graph().nodes();
                lemma_needed_trans(a, cur, nx);
                lemma_dirty_trans(a, cur, nx);
                lemma_notes_compose(a, cur, nx, old_notes, subn, old(self).graph().graph_token());
                assert forall|y: int|
                    0 <= y < a.len() && ((#[trigger] nx[y]).ptrs.recalc_state != a[y].ptrs.recalc_state || parents_of(nx[y])
                        != parents_of(a[y])) implies exists|k: int|
                        0 <= k < i + 1 && climbs_to(a, (#[trigger] marks@[k]).index() as int, y) by {
                    if cur[y].ptrs.recalc_state != a[y].ptrs.recalc_state || parents_of(cur[y]) != parents_of(a[y]) {
                        let k = choose|k: int| 0 <= k < i && climbs_to(a, (#[trigger] marks@[k]).index() as int, y);
                        assert(climbs_to(a, marks@[k].index() as int, y));
                    } else {
                        assert(climbs_to(cur, node.index(), y));
                        lemma_climb_cascade(a, cur, node.index(), y);
                        assert(marks@[i as int].index() == node.index());
                        assert(climbs_to(a, marks@[i as int].index() as int, y));
                    }
                }
                assert(notes@ == old_notes + subn);
                assert forall|y: int|
                    0 <= y < a.len() && #[trigger] parents_emptied(a[y], nx[y]) implies a[y].ptrs.recalc_state
                    == RecalcState::Ready && nx[y].ptrs.recalc_state == RecalcState::Needed && unnecessary(a[y]) by {
                    assert(parents_of(cur[y]) == parents_of(a[y]) || parents_of(cur[y]).len() == 0);
                    assert(dirty_frame(a[y], cur[y]));
                    assert(dirty_frame(cur[y], nx[y]));
                    if parents_emptied(a[y], cur[y]) {
                        assert(unnecessary(cur[y]) == unnecessary(a[y]));
                        assert(nx[y].ptrs.recalc_state == cur[y].ptrs.recalc_state || (cur[y].ptrs.recalc_state == RecalcState::Ready
                            && nx[y].ptrs.recalc_state == RecalcState::Needed && unnecessary(cur[y])) || (nx[y].ptrs.recalc_state
                            == RecalcState::Pending && !unnecessary(cur[y])));
                    } else {
                        assert(parents_emptied(cur[y], nx[y]));
                        assert(cur[y].ptrs.recalc_state == a[y].ptrs.recalc_state || (a[y].ptrs.recalc_state == RecalcState::Ready
                            && cur[y].ptrs.recalc_state == RecalcState::Needed && unnecessary(a[y])) || (cur[y].ptrs.recalc_state
                            == RecalcState::Pending && !unnecessary(a[y])));
                    }
                }
                assert forall|k: int| 0 <= k < i + 1 implies dirtied(nx[(#[trigger] marks@[k]).index() as int]) by {
                    if k < i {
                        assert(dirtied(cur[marks@[k].index() as int]));
                    }
                }
            }
            i = i + 1;
        }
        proof {
            let b = self.graph().nodes();
            law_needed_nodes_dirty_their_parents(a, b, notes@, old(self).graph().graph_token());
            old(self).graph.lemma_len_bound();
            assert forall|k: int, y: int|
                0 <= k < marks@.len() && 0 <= y < a.len() && #[trigger] climbs_to(a, marks@[k].index() as int, y) implies dirtied(
                b[y],
            ) by {
                let s = choose|s: Seq<int>| #[trigger] graph2::is_path(a, s) && s[0] == marks@[k].index() as int && s.last() == y
                    && ready_climb(a, s);
                law_dirty_marking_spreads(a, b, s);
            }
        }
        Ok(notes)
    }

    /// Collects the nodes whose handles are all gone; for now their keys are only
    /// taken off the counter.
    fn garbage_collect(&mut self)
        requires
            old(self).wf(),
        ensures
            final(self).wf(),
            final(self).graph() == old(self).graph(),
            final(self).generation() == old(self).generation(),
            final(self).counter().deleted() == Seq::<u64>::empty(),
            final(self).counter().counts() == old(self).counter().counts(),
    {
        let _collected = self.refcounter.drain();
    }

    /// Takes the next node to recalculate off the queues: the head of the lowest
    /// non-empty queue. A node found below its own height (it was raised while it
    /// waited) goes back into the queue of its height, and the search goes on.
    /// `Ok(None)` once every queue is empty.
    pub fn stabilize_next(&mut self) -> (r: Result<Option<NodeGuard>, EngineError>)
        requires
            old(self).wf(),
        ensures
            final(self).wf(),
            final(self).generation() == old(self).generation(),
            final(self).graph().graph_token() == old(self).graph().graph_token(),
            final(self).graph().num_heights() == old(self).graph().num_heights(),
            final(self).graph().free_list() == old(self).graph().free_list(),
            data_unchanged(old(self).graph().nodes(), final(self).graph().nodes()),
            (r == Err::<Option<NodeGuard>, EngineError>(EngineError::NoHeights)) <==> old(self).graph().num_heights() == 0,
            r is Err ==> r == Err::<Option<NodeGuard>, EngineError>(EngineError::NoHeights) || r == Err::<
                Option<NodeGuard>,
                EngineError,
            >(EngineError::Graph(GraphError::TooLargeHeight)),
            old(self).graph().num_heights() > 0 && old(self).graph().queues_empty() ==> r == Ok::<
                Option<NodeGuard>,
                EngineError,
            >(None),
            r == Ok::<Option<NodeGuard>, EngineError>(None) ==> old(self).graph().queues_empty()
                && final(self).graph().nodes() == old(self).graph().nodes()
                && final(self).graph().queues() == old(self).graph().queues(),
            r == Err::<Option<NodeGuard>, EngineError>(EngineError::Graph(GraphError::TooLargeHeight)) ==> exists|x: int|
                0 <= x < old(self).graph().len() && (#[trigger] old(self).graph().nodes()[x]).ptrs.recalc_state
                    == RecalcState::Pending && old(self).graph().nodes()[x].ptrs.height >= old(self).graph().num_heights(),
            r matches Ok(Some(g)) ==> {
                let a = old(self).graph().nodes();
                let b = final(self).graph().nodes();
                &&& final(self).graph().valid(g)
                &&& a[g.index()].alive
                &&& a[g.index()].ptrs.recalc_state == RecalcState::Pending
                &&& b[g.index()].ptrs.recalc_state == RecalcState::Ready
                &&& states_unchanged_except(a, b, g.index())
                &&& forall|k: int| 0 <= k < b[g.index()].ptrs.height ==> (#[trigger] final(self).graph().queues()[k]).len() == 0
                &&& forall|x: int|
                    0 <= x < a.len() ==> (queued(final(self).graph(), x) <==> queued(old(self).graph(), x) && x != g.index())
            },
    {
        let n = self.graph.max_height();
        if n == 0 {
            return Err(EngineError::NoHeights);
        }
        let ghost a = self.graph.nodes();
        let ghost a_empty = self.graph.queues_empty();
        loop
            invariant
                self.wf(),
                self.generation == old(self).generation,
                self.graph.graph_token() == old(self).graph.graph_token(),
                self.graph.num_heights() == n,
                n == old(self).graph.num_heights(),
                n > 0,
                self.graph.free_list() == old(self).graph.free_list(),
                a == old(self).graph.nodes(),
                old(self).graph.wf(),
                a_empty == old(self).graph.queues_empty(),
                data_unchanged(a, self.graph.nodes()),
                forall|y: int| 0 <= y < a.len() ==> (#[trigger] self.graph.nodes()[y]).ptrs.recalc_state == a[y].ptrs.recalc_state,
                a_empty ==> self.graph.nodes() == a && self.graph.queues() == old(self).graph.queues(),
                !a_empty ==> !self.graph.queues_empty(),
            decreases queue_weight(self.graph.queues(), n as int, n as int),
        {
            let ghost g0 = self.graph;
            proof {
                g0.lemma_queued();
                lemma_queue_weight_nonneg(g0.queues(), n as int, n as int);
            }
            match self.graph.recalc_pop_next() {
                None => {
                    proof {
                        lemma_unvisited_kept(g0, self.graph);
                    }
                    self.garbage_collect();
                    return Ok(None);
                },
                Some((h, node)) => {
                    proof {
                        assert(g0.queues()[h as int][0] == node.index() as usize);
                        assert(a[node.index()].ptrs.recalc_state == g0.nodes()[node.index()].ptrs.recalc_state);
                        assert(graph2::node_data_eq(a[node.index()], g0.nodes()[node.index()]));
                    }
                    let nh = graph2::height(&self.graph, node);
                    if nh == h {
                        proof {
                            assert forall|y: int| 0 <= y < a.len() implies graph2::node_data_eq(
                                #[trigger] a[y],
                                self.graph.nodes()[y],
                            ) by {
                                assert(graph2::node_data_eq(a[y], g0.nodes()[y]));
                                assert(graph2::node_data_eq(g0.nodes()[y], self.graph.nodes()[y]));
                            }
                            lemma_unvisited_kept(g0, self.graph);
                            let gf = self.graph;
                            let go = old(self).graph;
                            go.lemma_queued();
                            gf.lemma_queued();
                            go.lemma_len_bound();
                            assert forall|x: int| 0 <= x < a.len() implies (queued(gf, x) <==> queued(go, x) && x != node.index()) by {
                                assert(graph2::node_data_eq(a[x], gf.nodes()[x]));
                                assert(go.nodes() == a);
                                if x != node.index() {
                                    assert(gf.nodes()[x].ptrs.recalc_state == g0.nodes()[x].ptrs.recalc_state);
                                    assert(g0.nodes()[x].ptrs.recalc_state == a[x].ptrs.recalc_state);
                                }
                                if queued(gf, x) {
                                    let h = choose|h: int| 0 <= h < gf.queues().len() && #[trigger] gf.queues()[h].contains(x as usize);
                                    let i = choose|i: int| 0 <= i < gf.queues()[h].len() && gf.queues()[h][i] == x as usize;
                                    assert(gf.queues()[h][i] == x as usize);
                                    assert(gf.queues()[h][i] as int == x);
                                    assert(gf.nodes()[x].ptrs.recalc_state == RecalcState::Pending);
                                    assert(x != node.index());
                                    assert(a[x].alive && a[x].ptrs.recalc_state == RecalcState::Pending);
                                    assert(go.nodes()[x].alive);
                                }
                                if queued(go, x) && x != node.index() {
                                    let h = choose|h: int| 0 <= h < go.queues().len() && #[trigger] go.queues()[h].contains(x as usize);
                                    let i = choose|i: int| 0 <= i < go.queues()[h].len() && go.queues()[h][i] == x as usize;
                                    assert(go.queues()[h][i] == x as usize);
                                    assert(go.queues()[h][i] as int == x);
                                    assert(a[x].alive && a[x].ptrs.recalc_state == RecalcState::Pending);
                                    assert(gf.nodes()[x].alive && gf.nodes()[x].ptrs.recalc_state == RecalcState::Pending);
                                }
                            }
                        }
                        return Ok(Some(node));
                    }
                    let ghost g1 = self.graph;
                    proof {
                        assert(graph2::node_data_eq(g0.nodes()[node.index()], g1.nodes()[node.index()]));
                        assert forall|y: int| 0 <= y < a.len() implies graph2::node_data_eq(#[trigger] a[y], g1.nodes()[y]) by {
                            assert(graph2::node_data_eq(a[y], g0.nodes()[y]));
                            assert(graph2::node_data_eq(g0.nodes()[y], g1.nodes()[y]));
                        }
                    }
                    match self.graph.try_queue_recalc(node) {
                        Ok(()) => {},
                        Err(e) => {
                            proof {
                                assert(a[node.index()].ptrs.recalc_state == RecalcState::Pending);
                                lemma_unvisited_kept(g0, g1);
                            }
                            return Err(EngineError::Graph(e));
                        },
                    }
                    proof {
                        let g2 = self.graph;
                        assert forall|y: int| 0 <= y < a.len() implies graph2::node_data_eq(#[trigger] a[y], g2.nodes()[y]) by {
                            assert(graph2::node_data_eq(a[y], g1.nodes()[y]));
                            assert(graph2::node_data_eq(g1.nodes()[y], g2.nodes()[y]));
                        }
                        assert forall|y: int| 0 <= y < a.len() implies (#[trigger] g2.nodes()[y]).ptrs.recalc_state
                            == a[y].ptrs.recalc_state by {
                            if y != node.index() {
                                assert(g1.nodes()[y].ptrs.recalc_state == g0.nodes()[y].ptrs.recalc_state);
                            }
                        }
                        lemma_unvisited_kept(old(self).graph, g2);
                        let q1 = g0.queues().update(h as int, g0.queues()[h as int].drop_first());
                        let h2 = nh as int;
                        assert(h2 > h);
                        lemma_queue_weight_update(g0.queues(), n as int, h as int, g0.queues()[h as int].drop_first(), n as int);
                        assert(0 <= h2 < q1.len());
                        lemma_queue_weight_update(q1, n as int, h2, seq![node.index() as usize] + q1[h2], n as int);
                        lemma_mul_step(q1[h2].len() as int, n - h2);
                        lemma_mul_step(g0.queues()[h as int].len() as int, n - h);
                        assert(g2.queues()[h2].len() > 0);
                        assert(g1.queues() == q1);
                        assert(g2.queues() == q1.update(h2, seq![node.index() as usize] + q1[h2]));
                        assert(queue_weight(q1, n as int, n as int) == queue_weight(g0.queues(), n as int, n as int) - (n - h));
                        assert(queue_weight(g2.queues(), n as int, n as int) == queue_weight(q1, n as int, n as int) + (n - h2));
                        lemma_queue_weight_nonneg(g2.queues(), n as int, n as int);
                    }
                },
            }
        }
    }

    /// Takes in the outcome of polling the computation of `node`.
    /// `Pending`, which may only come after a request for a node that was not
    /// ready, puts `node` back in its queue and answers `false`.
    /// `Updated` marks the clean parents of `node` dirty and records the current
    /// generation as both the last update of `node` and the last time it became
    /// ready; `Unchanged` records only the latter. Both answer `true`, with the
    /// notifications for the computations of the parents that were marked dirty.
    pub fn recalculate(&mut self, node: NodeGuard, poll: Poll, pending_on_anchor_get: bool) -> (r: Result<
        (bool, Vec<(NodeGuard, NodeKey)>),
        EngineError,
    >)
        requires
            old(self).wf(),
            old(self).graph().valid(node),
            poll == Poll::Pending ==> pending_on_anchor_get,
        ensures
            final(self).wf(),
            final(self).generation() == old(self).generation(),
            final(self).graph().graph_token() == old(self).graph().graph_token(),
            final(self).graph().num_heights() == old(self).graph().num_heights(),
            final(self).graph().len() == old(self).graph().len(),
            final(self).graph().free_list() == old(self).graph().free_list(),
            ({
                let a = old(self).graph().nodes();
                let b = final(self).graph().nodes();
                let x = node.index();
                let gen = Some(old(self).generation());
                match poll {
                    Poll::Pending => {
                        &&& data_unchanged(a, b)
                        &&& states_unchanged_except(a, b, x)
                        &&& (r is Err <==> a[x].ptrs.recalc_state != RecalcState::Pending && (!a[x].alive
                            || a[x].ptrs.height >= old(self).graph().num_heights()))
                        &&& r is Err ==> b == a
                        &&& r matches Ok((done, notes)) ==> !done && notes@.len() == 0
                            && b[x].ptrs.recalc_state == RecalcState::Pending
                    },
                    Poll::Unchanged => {
                        &&& r matches Ok((done, notes)) && done && notes@.len() == 0
                        &&& b == a.update(x, Node { last_ready: gen, ..a[x] })
                    },
                    Poll::Updated => {
                        let a1 = a.update(x, Node { last_ready: gen, last_update: gen, ..a[x] });
                        &&& r is Err ==> r == Err::<(bool, Vec<(NodeGuard, NodeKey)>), EngineError>(
                            EngineError::Graph(GraphError::NodeFreed),
                        ) || r == Err::<(bool, Vec<(NodeGuard, NodeKey)>), EngineError>(
                            EngineError::Graph(GraphError::TooLargeHeight),
                        )
                        &&& schedulable(a, old(self).graph().num_heights()) && a[x].alive ==> r is Ok
                        &&& r matches Ok((done, notes)) ==> {
                            &&& done
                            &&& b[x].last_ready == gen
                            &&& b[x].last_update == gen
                            &&& dirty_cascade(a1, b)
                            &&& notes_sound(a1, b, notes@, old(self).graph().graph_token())
                            &&& notes_complete(a1, b, notes@)
                            &&& parents_of(b[x]).len() == 0
                            &&& parent_changes_reached_from(a1, b, x)
                            &&& forall|j: int, y: int|
                                0 <= j < parents_of(a1[x]).len() && 0 <= y < a.len() && #[trigger] climbs_to(
                                    a1,
                                    parents_of(a1[x])[j] as int,
                                    y,
                                ) ==> dirtied(b[y])
                            &&& forall|y: int, j: int|
                                0 <= y < a.len() && a1[y].ptrs.recalc_state == RecalcState::Ready && b[y].ptrs.recalc_state
                                    == RecalcState::Needed && 0 <= j < parents_of(a1[y]).len() ==> dirtied(
                                    b[#[trigger] parents_of(a1[y])[j] as int],
                                )
                            &&& forall|y: int|
                                0 <= y < a.len() && y != x && #[trigger] parents_emptied(a1[y], b[y])
                                    ==> a1[y].ptrs.recalc_state == RecalcState::Ready && b[y].ptrs.recalc_state
                                    == RecalcState::Needed && unnecessary(a1[y])
                        }
                    },
                }
            }),
    {
        let ghost a = self.graph.nodes();
        let gen = Some(self.generation);
        match poll {
            Poll::Pending => {
                let res = self.graph.try_queue_recalc(node);
                proof {
                    lemma_unvisited_kept(old(self).graph, self.graph);
                }
                match res {
                    Ok(()) => Ok((false, Vec::new())),
                    Err(e) => Err(EngineError::Graph(e)),
                }
            },
            Poll::Updated => {
                let notes = self.mark_dirty(node, true)?;
                let ghost m = self.graph.nodes();
                let last_update = gen;
                self.graph.set_generations(node, gen, last_update);
                proof {
                    let x = node.index();
                    let b = self.graph.nodes();
                    let a1 = a.update(x, Node { last_ready: gen, last_update: gen, ..a[x] });
                    assert forall|i: int| 0 <= i < b.len() implies !(#[trigger] b[i]).visited by {
                        assert(dirty_frame(a[i], m[i]));
                    }
                    assert(dirty_frame(a[x], m[x]));
                    assert forall|y: int| 0 <= y < a.len() implies dirty_frame(a1[y], #[trigger] b[y]) by {
                        assert(dirty_frame(a[y], m[y]));
                    }
                    assert forall|y: int| 0 <= y < a.len() implies parents_of(#[trigger] b[y]) == parents_of(a1[y])
                        || parents_of(b[y]).len() == 0 by {
                        assert(parents_of(m[y]) == parents_of(a[y]) || parents_of(m[y]).len() == 0);
                    }
                    assert forall|y: int| 0 <= y < a.len() implies (#[trigger] b[y]).ptrs.recalc_state
                        == a1[y].ptrs.recalc_state || (a1[y].ptrs.recalc_state == RecalcState::Ready
                        && b[y].ptrs.recalc_state == RecalcState::Needed && unnecessary(a1[y])) || (
                    b[y].ptrs.recalc_state == RecalcState::Pending && !unnecessary(a1[y])) by {
                        assert(m[y].ptrs.recalc_state == a[y].ptrs.recalc_state || (a[y].ptrs.recalc_state
                            == RecalcState::Ready && m[y].ptrs.recalc_state == RecalcState::Needed && unnecessary(a[y]))
                            || (m[y].ptrs.recalc_state == RecalcState::Pending && !unnecessary(a[y])));
                    }
                    assert(dirty_cascade(a1, b));
                    assert forall|i: int| 0 <= i < notes@.len() implies {
                        let (p, k) = #[trigger] notes@[i];
                        &&& 0 <= k.index() < a1.len()
                        &&& k.graph_token() == old(self).graph().graph_token()
                        &&& parents_emptied(a1[k.index() as int], b[k.index() as int])
                        &&& parents_of(a1[k.index() as int]).contains(p.index() as usize)
                        &&& 0 <= p.index() < a1.len()
                        &&& dirtied(b[p.index()])
                    } by {
                        let (p, k) = notes@[i];
                        assert(dirtied(m[p.index()]));
                    }
                    assert forall|y: int, j: int| #[trigger] dropped_edge(a1, b, y, j) implies exists|i: int|
                        0 <= i < notes@.len() && (#[trigger] notes@[i]).0.index() == parents_of(a1[y])[j]
                            && notes@[i].1.index() == y by {
                        assert(dropped_edge(a, m, y, j));
                    }
                    assert forall|y: int|
                        0 <= y < a.len() && y != x && #[trigger] parents_emptied(a1[y], b[y]) implies a1[y].ptrs.recalc_state
                        == RecalcState::Ready && b[y].ptrs.recalc_state == RecalcState::Needed && unnecessary(a1[y]) by {
                        assert(parents_emptied(a[y], m[y]));
                    }
                    assert forall|y: int, j: int|
                        0 <= y < a.len() && a1[y].ptrs.recalc_state == RecalcState::Ready && b[y].ptrs.recalc_state
                            == RecalcState::Needed && 0 <= j < parents_of(a1[y]).len() implies dirtied(
                            b[#[trigger] parents_of(a1[y])[j] as int],
                        ) by {
                        assert(parents_of(a1[y]) == parents_of(a[y]));
                        assert(m[y].ptrs.recalc_state == b[y].ptrs.recalc_state);
                        old(self).graph.lemma_edges_in();
                        let q = parents_of(a[y])[j] as int;
                        assert(0 <= q < a.len());
                        assert(dirtied(m[q]));
                        if q != x {
                            assert(b[q] == m[q]);
                        } else {
                            assert(b[q].ptrs == m[q].ptrs && b[q].observed == m[q].observed
                                && b[q].necessary_count == m[q].necessary_count);
                        }
                    }
                    assert forall|y: int|
                        0 <= y < a.len() && ((#[trigger] b[y]).ptrs.recalc_state != a1[y].ptrs.recalc_state || parents_of(b[y])
                            != parents_of(a1[y])) implies y == x || exists|p: int|
                            0 <= p && parents_of(a1[x]).contains(p as usize) && #[trigger] climbs_to(a1, p, y) by {
                        assert(m[y].ptrs.recalc_state == b[y].ptrs.recalc_state);
                        assert(parents_of(m[y]) == parents_of(b[y]));
                        assert(a1[y].ptrs.recalc_state == a[y].ptrs.recalc_state);
                        assert(parents_of(a1[y]) == parents_of(a[y]));
                        if y != x {
                            let p = choose|p: int| 0 <= p && parents_of(a[x]).contains(p as usize) && #[trigger] climbs_to(a, p, y);
                            assert forall|z: int| 0 <= z < a.len() implies parents_of(#[trigger] a[z]) == parents_of(a1[z])
                                || parents_of(a[z]).len() == 0 by {}
                            assert forall|z: int| 0 <= z < a.len() && ready_unneeded(#[trigger] a[z]) implies ready_unneeded(a1[z]) by {}
                            lemma_climb_back(a1, a, p, y);
                            assert(parents_of(a1[x]) == parents_of(a[x]));
                        }
                    }
                    assert forall|j: int, y: int|
                        0 <= j < parents_of(a1[x]).len() && 0 <= y < a.len() && #[trigger] climbs_to(a1, parents_of(a1[x])[j] as int, y)
                            implies dirtied(b[y]) by {
                        assert(parents_of(a1[x]) == parents_of(a[x]));
                        assert forall|z: int| 0 <= z < a.len() implies parents_of(#[trigger] a1[z]) == parents_of(a[z])
                            || parents_of(a1[z]).len() == 0 by {}
                        assert forall|z: int| 0 <= z < a.len() && ready_unneeded(#[trigger] a1[z]) implies ready_unneeded(a[z]) by {}
                        lemma_climb_back(a, a1, parents_of(a[x])[j] as int, y);
                        assert(dirtied(m[y]));
                        if y != x {
                            assert(b[y] == m[y]);
                        }
                    }
                }
                Ok((true, notes))
            },
            Poll::Unchanged => {
                let last_update = self.graph.node_ref(node).last_update;
                self.graph.set_generations(node, gen, last_update);
                proof {
                    assert(self.graph.nodes() =~= a.update(node.index(), Node { last_ready: gen, ..a[node.index()] }));
                    assert forall|i: int| 0 <= i < self.graph.len() implies !(#[trigger] self.graph.nodes()[i]).visited by {
                        assert(!a[i].visited);
                    }
                }
                Ok((true, Vec::new()))
            },
        }
    }

    /// The part of a request for a child `c` that is not ready: `c` is queued and,
    /// with `keep`, becomes a necessary child of `p`.
    fn request_queue(&mut self, c: NodeGuard, p: NodeGuard, keep: bool) -> (r: Result<(), EngineError>)
        requires
            old(self).wf(),
            old(self).graph().valid(c),
            old(self).graph().valid(p),
            c.index() != p.index(),
            old(self).graph().node(c).ptrs.recalc_state != RecalcState::Ready,
        ensures
            final(self).wf(),
            final(self).generation() == old(self).generation(),
            final(self).graph().graph_token() == old(self).graph().graph_token(),
            final(self).graph().num_heights() == old(self).graph().num_heights(),
            final(self).graph().len() == old(self).graph().len(),
            final(self).graph().free_list() == old(self).graph().free_list(),
            r is Err ==> r == Err::<(), EngineError>(EngineError::Graph(GraphError::NodeFreed)) || r == Err::<(), EngineError>(
                EngineError::Graph(GraphError::TooLargeHeight),
            ) || r == Err::<(), EngineError>(EngineError::Graph(GraphError::CountOverflow)),
            r == Err::<(), EngineError>(EngineError::Graph(GraphError::NodeFreed)) ==> !old(self).graph().node(c).alive,
            r == Err::<(), EngineError>(EngineError::Graph(GraphError::TooLargeHeight)) ==> old(self).graph().node(c).ptrs.height
                >= old(self).graph().num_heights(),
            r == Err::<(), EngineError>(EngineError::Graph(GraphError::CountOverflow)) ==> old(self).graph().node(c).necessary_count
                == usize::MAX,
            r is Ok ==> {
                let a = old(self).graph().nodes();
                let b = final(self).graph().nodes();
                &&& forall|y: int|
                    0 <= y < a.len() ==> request_frame(a[y], #[trigger] b[y]) && a[y].ptrs.height == b[y].ptrs.height
                        && parents_of(b[y]) == parents_of(a[y])
                &&& forall|y: int| 0 <= y < a.len() && y != c.index() ==> (#[trigger] b[y]).ptrs.recalc_state == a[y].ptrs.recalc_state
                &&& b[c.index()].ptrs.recalc_state == RecalcState::Pending
                &&& forall|y: int|
                    0 <= y < a.len() && y != p.index() ==> (#[trigger] b[y]).ptrs.necessary_children@ == a[y].ptrs.necessary_children@
                &&& b[p.index()].ptrs.necessary_children@.to_set() == (if keep {
                    a[p.index()].ptrs.necessary_children@.to_set().insert(c.index() as usize)
                } else {
                    a[p.index()].ptrs.necessary_children@.to_set()
                })
                &&& forall|y: int| 0 <= y < a.len() && y != c.index() ==> (#[trigger] b[y]).necessary_count == a[y].necessary_count
                &&& b[c.index()].necessary_count == a[c.index()].necessary_count + (if keep
                    && !a[p.index()].ptrs.necessary_children@.contains(c.index() as usize) {
                    1int
                } else {
                    0int
                })
                &&& graph2::heights_consistent(a) ==> graph2::heights_consistent(b)
            },
    {
        let ghost g0 = self.graph;
        let ghost a = self.graph.nodes();
        let res = self.graph.try_queue_recalc(c);
        proof {
            lemma_unvisited_kept(g0, self.graph);
        }
        match res {
            Ok(()) => {},
            Err(e) => {
                return Err(EngineError::Graph(e));
            },
        }
        let ghost m2 = self.graph.nodes();
        if keep {
            match p.add_necessary_child(&mut self.graph, c) {
                Ok(()) => {},
                Err(e) => {
                    return Err(EngineError::Graph(e));
                },
            }
        }
        proof {
            let b = self.graph.nodes();
            assert(graph2::node_data_eq(a[c.index()], m2[c.index()]));
            assert(graph2::node_data_eq(a[p.index()], m2[p.index()]));
            assert forall|y: int| 0 <= y < a.len() implies request_frame(a[y], #[trigger] b[y]) && a[y].ptrs.height
                == b[y].ptrs.height && parents_of(b[y]) == parents_of(a[y]) && !b[y].visited && (y != c.index()
                ==> b[y].ptrs.recalc_state == a[y].ptrs.recalc_state) && (y != p.index()
                ==> b[y].ptrs.necessary_children@ == a[y].ptrs.necessary_children@) && (y != c.index()
                ==> b[y].necessary_count == a[y].necessary_count) by {
                assert(graph2::node_data_eq(a[y], m2[y]));
            }
            if graph2::heights_consistent(a) {
                assert forall|x: int, j: int|
                    0 <= x < b.len() && 0 <= j < parents_of(b[x]).len() implies b[x].ptrs.height
                    < b[#[trigger] parents_of(b[x])[j] as int].ptrs.height by {
                    g0.lemma_edges_in();
                    assert(parents_of(b[x]) == parents_of(a[x]));
                    let q = parents_of(a[x])[j] as int;
                    assert(a[q].ptrs.height == b[q].ptrs.height);
                }
            }
        }
        Ok(())
    }

    /// The part of a request for a ready child `c` already below `p`: `p` becomes a
    /// clean parent of `c` and, with `keep`, `c` a necessary child of `p`.
    fn request_link(&mut self, c: NodeGuard, p: NodeGuard, keep: bool) -> (r: Result<(), EngineError>)
        requires
            old(self).wf(),
            old(self).graph().valid(c),
            old(self).graph().valid(p),
            c.index() != p.index(),
        ensures
            final(self).wf(),
            final(self).generation() == old(self).generation(),
            final(self).graph().graph_token() == old(self).graph().graph_token(),
            final(self).graph().num_heights() == old(self).graph().num_heights(),
            final(self).graph().len() == old(self).graph().len(),
            final(self).graph().free_list() == old(self).graph().free_list(),
            r is Err ==> r == Err::<(), EngineError>(EngineError::Graph(GraphError::CountOverflow))
                && old(self).graph().node(c).necessary_count == usize::MAX,
            r is Ok ==> {
                let a = old(self).graph().nodes();
                let b = final(self).graph().nodes();
                &&& forall|y: int|
                    0 <= y < a.len() ==> request_frame(a[y], #[trigger] b[y]) && a[y].ptrs.height == b[y].ptrs.height
                        && b[y].ptrs.recalc_state == a[y].ptrs.recalc_state
                &&& forall|y: int| 0 <= y < a.len() && y != c.index() ==> parents_of(#[trigger] b[y]) == parents_of(a[y])
                &&& parents_of(b[c.index()]) == parents_of(a[c.index()]).push(p.index() as usize)
                &&& forall|y: int|
                    0 <= y < a.len() && y != p.index() ==> (#[trigger] b[y]).ptrs.necessary_children@ == a[y].ptrs.necessary_children@
                &&& b[p.index()].ptrs.necessary_children@.to_set() == (if keep {
                    a[p.index()].ptrs.necessary_children@.to_set().insert(c.index() as usize)
                } else {
                    a[p.index()].ptrs.necessary_children@.to_set()
                })
                &&& forall|y: int| 0 <= y < a.len() && y != c.index() ==> (#[trigger] b[y]).necessary_count == a[y].necessary_count
                &&& b[c.index()].necessary_count == a[c.index()].necessary_count + (if keep
                    && !a[p.index()].ptrs.necessary_children@.contains(c.index() as usize) {
                    1int
                } else {
                    0int
                })
                &&& graph2::heights_consistent(a) && a[c.index()].ptrs.height < a[p.index()].ptrs.height
                    ==> graph2::heights_consistent(b)
            },
    {
        let ghost g0 = self.graph;
        let ghost a = self.graph.nodes();
        c.add_clean_parent(&mut self.graph, p);
        let ghost m2 = self.graph.nodes();
        proof {
            assert forall|i: int| 0 <= i < self.graph.len() implies !(#[trigger] self.graph.nodes()[i]).visited by {
                if i != c.index() {
                    assert(m2[i] == a[i]);
                }
            }
        }
        if keep {
            match p.add_necessary_child(&mut self.graph, c) {
                Ok(()) => {},
                Err(e) => {
                    return Err(EngineError::Graph(e));
                },
            }
        }
        proof {
            let b = self.graph.nodes();
            assert forall|y: int| 0 <= y < a.len() implies request_frame(a[y], #[trigger] b[y]) && a[y].ptrs.height
                == b[y].ptrs.height && b[y].ptrs.recalc_state == a[y].ptrs.recalc_state && !b[y].visited && (y
                != c.index() ==> parents_of(b[y]) == parents_of(a[y])) && (y != p.index()
                ==> b[y].ptrs.necessary_children@ == a[y].ptrs.necessary_children@) && (y != c.index()
                ==> b[y].necessary_count == a[y].necessary_count) by {
                if y != c.index() {
                    assert(m2[y] == a[y]);
                }
            }
            if graph2::heights_consistent(a) && a[c.index()].ptrs.height < a[p.index()].ptrs.height {
                assert forall|x: int, j: int|
                    0 <= x < b.len() && 0 <= j < parents_of(b[x]).len() implies b[x].ptrs.height
                    < b[#[trigger] parents_of(b[x])[j] as int].ptrs.height by {
                    g0.lemma_edges_in();
                    if x == c.index() {
                        if j < parents_of(a[x]).len() {
                            assert(parents_of(b[x])[j] == parents_of(a[x])[j]);
                            let q = parents_of(a[x])[j] as int;
                            assert(a[q].ptrs.height == b[q].ptrs.height);
                        }
                    } else {
                        let q = parents_of(a[x])[j] as int;
                        assert(a[q].ptrs.height == b[q].ptrs.height);
                    }
                }
            }
        }
        Ok(())
    }

    /// Requests the output of node `child` for the computation of `ctx.node`. First
    /// makes sure `child` sits below `ctx.node`, raising heights if needed. Then, if
    /// `child` is not ready, queues it and answers `Pending`; if heights had to be
    /// raised, answers `Pending` so that `ctx.node` runs again at its new height;
    /// otherwise records `ctx.node` as a clean parent of `child` and answers as
    /// `request_answer` says. With `necessary`, and `ctx.node` observed or necessary,
    /// `child` becomes a necessary child of `ctx.node` (except on the second answer).
    #[verifier::spinoff_prover]
    #[verifier::rlimit(40)]
    pub fn request(&mut self, ctx: &mut EngineContextMut, child: NodeKey, necessary: bool) -> (r: Result<Poll, EngineError>)
        requires
            old(self).wf(),
            old(self).graph().valid(old(ctx).node),
        ensures
            final(self).graph().wf(),
            r != Err::<Poll, EngineError>(EngineError::Graph(GraphError::LoopDetected)) && r != Err::<Poll, EngineError>(
                EngineError::Graph(GraphError::HeightOverflow),
            ) ==> final(self).wf(),
            final(self).generation() == old(self).generation(),
            final(self).graph().graph_token() == old(self).graph().graph_token(),
            final(self).graph().num_heights() == old(self).graph().num_heights(),
            final(self).graph().len() == old(self).graph().len(),
            final(self).graph().free_list() == old(self).graph().free_list(),
            final(ctx).node == old(ctx).node,
            r == Err::<Poll, EngineError>(EngineError::UnknownNode) <==> !old(self).key_valid(child),
            !old(self).key_valid(child) ==> r == Err::<Poll, EngineError>(EngineError::UnknownNode) && final(self).graph()
                == old(self).graph() && *final(ctx) == *old(ctx),
            r is Err ==> r == Err::<Poll, EngineError>(EngineError::UnknownNode) || r == Err::<Poll, EngineError>(
                EngineError::Graph(GraphError::LoopDetected),
            ) || r == Err::<Poll, EngineError>(EngineError::Graph(GraphError::HeightOverflow)) || r == Err::<
                Poll,
                EngineError,
            >(EngineError::Graph(GraphError::NodeFreed)) || r == Err::<Poll, EngineError>(
                EngineError::Graph(GraphError::TooLargeHeight),
            ) || r == Err::<Poll, EngineError>(EngineError::Graph(GraphError::CountOverflow)),
            r == Err::<Poll, EngineError>(EngineError::Graph(GraphError::LoopDetected)) ==> graph2::reaches(
                old(self).graph().nodes(),
                old(ctx).node.index(),
                set![child.index() as int],
            ) || graph2::has_cycle(old(self).graph().nodes()),
            old(self).key_valid(child) && graph2::heights_consistent(old(self).graph().nodes())
                && old(self).graph().nodes()[child.index() as int].ptrs.height < usize::MAX - old(self).graph().len() ==> (r
                == Err::<Poll, EngineError>(EngineError::Graph(GraphError::LoopDetected)) <==> graph2::reaches(
                old(self).graph().nodes(),
                old(ctx).node.index(),
                set![child.index() as int],
            )),
            r == Err::<Poll, EngineError>(EngineError::Graph(GraphError::HeightOverflow)) ==> old(self).graph().nodes()[child.index() as int].ptrs.height
                >= old(self).graph().nodes()[old(ctx).node.index()].ptrs.height && old(self).graph().nodes()[child.index() as int].ptrs.height
                >= usize::MAX - old(self).graph().len(),
            r == Err::<Poll, EngineError>(EngineError::Graph(GraphError::NodeFreed)) ==> !old(self).graph().nodes()[child.index() as int].alive,
            r == Err::<Poll, EngineError>(EngineError::Graph(GraphError::TooLargeHeight)) ==> old(self).graph().nodes()[child.index() as int].ptrs.height
                >= old(self).graph().num_heights(),
            r == Err::<Poll, EngineError>(EngineError::Graph(GraphError::CountOverflow)) ==> old(self).graph().nodes()[child.index() as int].necessary_count
                == usize::MAX,
            r matches Ok(answer) ==> {
                let a = old(self).graph().nodes();
                let b = final(self).graph().nodes();
                let c = child.index() as int;
                let p = old(ctx).node.index();
                &&& old(self).key_valid(child)
                &&& answer == request_answer(a, c, p)
                &&& final(ctx).pending_on_anchor_get == (old(ctx).pending_on_anchor_get || answer == Poll::Pending)
                &&& c != p
                &&& forall|y: int| 0 <= y < a.len() ==> request_frame(a[y], #[trigger] b[y])
                &&& forall|y: int| 0 <= y < a.len() ==> a[y].ptrs.height <= (#[trigger] b[y]).ptrs.height
                &&& b[c].ptrs.height < b[p].ptrs.height
                &&& graph2::heights_consistent(a) ==> graph2::heights_consistent(b)
                &&& forall|y: int| 0 <= y < a.len() && y != c ==> (#[trigger] b[y]).ptrs.recalc_state == a[y].ptrs.recalc_state
                &&& b[c].ptrs.recalc_state == (if a[c].ptrs.recalc_state == RecalcState::Ready {
                    RecalcState::Ready
                } else {
                    RecalcState::Pending
                })
                &&& forall|y: int| 0 <= y < a.len() && y != c ==> parents_of(#[trigger] b[y]) == parents_of(a[y])
                &&& parents_of(b[c]) == (if request_links(a, c, p) {
                    parents_of(a[c]).push(p as usize)
                } else {
                    parents_of(a[c])
                })
                &&& forall|y: int|
                    0 <= y < a.len() && y != p ==> (#[trigger] b[y]).ptrs.necessary_children@ == a[y].ptrs.necessary_children@
                &&& b[p].ptrs.necessary_children@.to_set() == (if request_keeps(a, c, p, necessary) {
                    a[p].ptrs.necessary_children@.to_set().insert(c as usize)
                } else {
                    a[p].ptrs.necessary_children@.to_set()
                })
                &&& forall|y: int| 0 <= y < a.len() && y != c ==> (#[trigger] b[y]).necessary_count == a[y].necessary_count
                &&& b[c].necessary_count == a[c].necessary_count + (if request_keeps(a, c, p, necessary)
                    && !a[p].ptrs.necessary_children@.contains(c as usize) {
                    1int
                } else {
                    0int
                })
            },
    {
        let node = ctx.node;
        let c = self.lookup(child)?;
        let ghost a = self.graph.nodes();
        let raised = graph2::ensure_height_increases(&mut self.graph, c, node);
        let height_already_increased = match raised {
            Ok(v) => v,
            Err(e) => {
                return Err(EngineError::Graph(e));
            },
        };
        let ghost m = self.graph.nodes();
        proof {
            assert(m[c.index()] == Node {
                visited: m[c.index()].visited,
                ptrs: NodePtrs { height: m[c.index()].ptrs.height, ..a[c.index()].ptrs },
                ..a[c.index()]
            });
            assert(m[node.index()] == Node {
                visited: m[node.index()].visited,
                ptrs: NodePtrs { height: m[node.index()].ptrs.height, ..a[node.index()].ptrs },
                ..a[node.index()]
            });
            assert(c.index() != node.index());
            assert forall|y: int| 0 <= y < a.len() implies request_frame(a[y], #[trigger] m[y]) && m[y].ptrs.recalc_state
                == a[y].ptrs.recalc_state && parents_of(m[y]) == parents_of(a[y]) && m[y].ptrs.necessary_children@
                == a[y].ptrs.necessary_children@ && m[y].necessary_count == a[y].necessary_count by {
                assert(m[y] == Node {
                    visited: m[y].visited,
                    ptrs: NodePtrs { height: m[y].ptrs.height, ..a[y].ptrs },
                    ..a[y]
                });
            }
        }
        let keep = necessary && node_observed_state(&self.graph, node) != ObservedState::Unnecessary;
        if graph2::recalc_state(&self.graph, c) != RecalcState::Ready {
            ctx.pending_on_anchor_get = true;
            self.request_queue(c, node, keep)?;
            proof {
                let b = self.graph.nodes();
                assert forall|y: int| 0 <= y < a.len() implies request_frame(a[y], #[trigger] b[y]) && a[y].ptrs.height
                    <= b[y].ptrs.height by {
                    assert(request_frame(a[y], m[y]));
                }
            }
            Ok(Poll::Pending)
        } else if !height_already_increased {
            ctx.pending_on_anchor_get = true;
            proof {
                assert(m[node.index()].ptrs.necessary_children@.to_set() == a[node.index()].ptrs.necessary_children@.to_set());
            }
            Ok(Poll::Pending)
        } else {
            self.request_link(c, node, keep)?;
            let lu = self.graph.node_ref(c).last_update;
            let lr = self.graph.node_ref(node).last_ready;
            let answer = match (lu, lr) {
                (Some(u), Some(l)) => {
                    if u.no_later_than(&l) {
                        Poll::Unchanged
                    } else {
                        Poll::Updated
                    }
                },
                _ => Poll::Updated,
            };
            proof {
                let b = self.graph.nodes();
                assert(request_frame(a[c.index()], b[c.index()]));
                assert(request_frame(a[node.index()], b[node.index()]));
            }
            Ok(answer)
        }
    }

    /// Tells the engine that the computation of `ctx.node` no longer cares about
    /// `child`: `ctx.node` stops being a clean parent of `child`, so that it no longer
    /// hears of changes of `child`, and stops keeping `child` necessary; if `child`
    /// is left unnecessary, it drops its own necessary children in turn, and so on.
    pub fn unrequest(&mut self, ctx: &EngineContextMut, child: NodeKey) -> (r: Result<(), EngineError>)
        requires
            old(self).wf(),
            old(self).graph().valid(ctx.node),
        ensures
            final(self).wf(),
            final(self).generation() == old(self).generation(),
            final(self).graph().same_lists(old(self).graph()),
            final(self).graph().len() == old(self).graph().len(),
            r == Err::<(), EngineError>(EngineError::UnknownNode) <==> !old(self).key_valid(child),
            old(self).key_valid(child) && counts_cover(old(self).graph().nodes()) ==> r is Ok,
            r is Ok && counts_cover(old(self).graph().nodes()) ==> counts_cover(final(self).graph().nodes()),
            !old(self).key_valid(child) ==> r == Err::<(), EngineError>(EngineError::UnknownNode) && final(self).graph()
                == old(self).graph(),
            r is Err ==> r == Err::<(), EngineError>(EngineError::UnknownNode) || r == Err::<(), EngineError>(
                EngineError::Graph(GraphError::CountUnderflow),
            ),
            r is Ok ==> old(self).key_valid(child) && parents_of(final(self).graph().nodes()[child.index() as int])
                == parents_of(old(self).graph().nodes()[child.index() as int]).filter(
                |q: usize| q != ctx.node.index() as usize,
            ),
            r is Ok ==> exists|a1: Seq<Node>, m: Seq<Node>|
                #![trigger parent_removed(old(self).graph().nodes(), a1, child.index() as int, ctx.node.index()), edge_removed(a1, m, ctx.node.index(), child.index() as int)]
                parent_removed(old(self).graph().nodes(), a1, child.index() as int, ctx.node.index())
                    && edge_removed(a1, m, ctx.node.index(), child.index() as int) && necessity_cascade(
                    m,
                    final(self).graph().nodes(),
                ) && (forall|y: int|
                    0 <= y < m.len() && (y == child.index() || final(self).graph().nodes()[y].necessary_count
                        < m[y].necessary_count) && observed_state(#[trigger] final(self).graph().nodes()[y])
                        == ObservedState::Unnecessary ==> final(self).graph().nodes()[y].ptrs.necessary_children@.len()
                        == 0) && (forall|y: int|
                    0 <= y < m.len() && #[trigger] emptied(m[y], final(self).graph().nodes()[y]) ==> y == child.index()
                        || final(self).graph().nodes()[y].necessary_count < m[y].necessary_count),
    {
        let c = self.lookup(child)?;
        let ghost a = self.graph.nodes();
        c.remove_clean_parent(&mut self.graph, ctx.node);
        let ghost a1 = self.graph.nodes();
        proof {
            assert(parent_removed(a, a1, c.index(), ctx.node.index()));
            if counts_cover(a) {
                assert forall|y: int| 0 <= y < a.len() implies (#[trigger] a1[y]).ptrs.necessary_children@
                    == a[y].ptrs.necessary_children@ && a1[y].necessary_count == a[y].necessary_count by {
                    if y == c.index() {
                        assert(graph2::node_data_eq(a1[y], Node {
                            ptrs: NodePtrs { clean_parent0: a1[y].ptrs.clean_parent0, clean_parents: a1[y].ptrs.clean_parents, ..a[y].ptrs },
                            ..a[y]
                        }));
                    }
                }
                lemma_cover_same(a, a1);
                if a1[ctx.node.index()].ptrs.necessary_children@.contains(c.index() as usize) {
                    lemma_listers_pos(a1, c.index() as usize, ctx.node.index(), a1.len() as int);
                    assert(a1[c.index()].necessary_count >= listers(a1, c.index() as int as usize, a1.len() as int));
                }
            }
        }
        match ctx.node.remove_necessary_child(&mut self.graph, c) {
            Ok(()) => {},
            Err(e) => {
                proof {
                    assert forall|i: int| 0 <= i < self.graph.len() implies !(#[trigger] self.graph.nodes()[i]).visited by {
                        assert(!a[i].visited);
                        if i == c.index() {
                            assert(graph2::node_data_eq(a1[i], Node {
                                ptrs: NodePtrs { clean_parent0: a1[i].ptrs.clean_parent0, clean_parents: a1[i].ptrs.clean_parents, ..a[i].ptrs },
                                ..a[i]
                            }));
                        }
                    }
                }
                return Err(EngineError::Graph(e));
            },
        }
        let ghost m = self.graph.nodes();
        proof {
            let p = ctx.node.index();
            let ci = c.index();
            assert forall|i: int| 0 <= i < self.graph.len() implies !(#[trigger] self.graph.nodes()[i]).visited by {
                assert(!a[i].visited);
                if i == ci {
                    assert(graph2::node_data_eq(a1[i], Node {
                        ptrs: NodePtrs { clean_parent0: a1[i].ptrs.clean_parent0, clean_parents: a1[i].ptrs.clean_parents, ..a[i].ptrs },
                        ..a[i]
                    }));
                }
            }
            assert(edge_removed(a1, m, p, ci));
            if counts_cover(a) {
                lemma_cover_edge_removed(a1, m, p, ci);
            }
        }
        let res = self.update_necessary_children(c);
        proof {
            let b = self.graph.nodes();
            let ci = c.index();
            if res is Ok && counts_cover(a) {
                lemma_cover_cascade(m, b);
            }
            if res is Ok {
                assert(b[ci] == Node {
                    necessary_count: b[ci].necessary_count,
                    ptrs: NodePtrs { necessary_children: b[ci].ptrs.necessary_children, ..m[ci].ptrs },
                    ..m[ci]
                });
                assert(parents_of(b[ci]) == parents_of(m[ci]));
                assert(parents_of(m[ci]) == parents_of(a1[ci]));
            }
        }
        res
    }

    /// The handle with which the computation of `ctx.node` marks itself dirty.
    pub fn dirty_handle(&self, ctx: &EngineContextMut) -> (h: DirtyHandle)
        ensures
            h.key().index() == ctx.node.index(),
            h.key().graph_token() == self.graph().graph_token(),
    {
        DirtyHandle { num: self.graph.key(ctx.node) }
    }

    /// Checks that the output of the node of `key` may be read: the node must be
    /// ready, that is requested and brought up to date beforehand.
    pub fn output_ready(&self, key: NodeKey) -> (r: Result<(), EngineError>)
        requires
            self.key_valid(key),
        ensures
            r is Ok <==> self.graph().nodes()[key.index() as int].ptrs.recalc_state == RecalcState::Ready,
            r is Err ==> r == Err::<(), EngineError>(EngineError::NotRequested),
    {
        let node = self.lookup(key)?;
        if graph2::recalc_state(&self.graph, node) != RecalcState::Ready {
            return Err(EngineError::NotRequested);
        }
        Ok(())
    }

    /// Between the two stabilizations of a read: queues the node of `key` unless it
    /// is ready, and answers whether it was not ready (so that the caller must
    /// stabilize once more before reading).
    pub fn prepare_get(&mut self, key: NodeKey) -> (r: Result<bool, EngineError>)
        requires
            old(self).wf(),
            old(self).key_valid(key),
        ensures
            final(self).wf(),
            final(self).generation() == old(self).generation(),
            final(self).graph().graph_token() == old(self).graph().graph_token(),
            final(self).graph().num_heights() == old(self).graph().num_heights(),
            final(self).graph().free_list() == old(self).graph().free_list(),
            data_unchanged(old(self).graph().nodes(), final(self).graph().nodes()),
            old(self).key_valid(key) ==> {
                let a = old(self).graph().nodes();
                let b = final(self).graph().nodes();
                let x = key.index() as int;
                &&& states_unchanged_except(a, b, x)
                &&& a[x].ptrs.recalc_state == RecalcState::Ready ==> r == Ok::<bool, EngineError>(false) && b == a
                &&& a[x].ptrs.recalc_state == RecalcState::Pending ==> r == Ok::<bool, EngineError>(true) && b == a
                &&& a[x].ptrs.recalc_state == RecalcState::Needed ==> {
                    &&& !a[x].alive ==> r == Err::<bool, EngineError>(EngineError::Graph(GraphError::NodeFreed))
                    &&& a[x].alive && a[x].ptrs.height >= old(self).graph().num_heights() ==> r == Err::<bool, EngineError>(
                        EngineError::Graph(GraphError::TooLargeHeight),
                    )
                    &&& a[x].alive && a[x].ptrs.height < old(self).graph().num_heights() ==> r == Ok::<bool, EngineError>(
                        true,
                    ) && b[x].ptrs.recalc_state == RecalcState::Pending
                }
            },
    {
        let node = self.lookup(key)?;
        if graph2::recalc_state(&self.graph, node) == RecalcState::Ready {
            return Ok(false);
        }
        let ghost g0 = self.graph;
        let res = self.graph.try_queue_recalc(node);
        proof {
            lemma_unvisited_kept(g0, self.graph);
        }
        match res {
            Ok(()) => Ok(true),
            Err(e) => Err(EngineError::Graph(e)),
        }
    }

    /// A description of the state of the recomputation graph; empty for now.
    pub fn debug_state(&self) -> (s: String)
        ensures
            s@ == Seq::<char>::empty(),
    {
        String::new()
    }

    /// Counts one more handle on the node of `key`.
    pub fn handle_clone(&mut self, key: NodeKey) -> (r: Result<(), EngineError>)
        requires
            old(self).wf(),
        ensures
            final(self).wf(),
            final(self).generation() == old(self).generation(),
            final(self).graph().same_lists(old(self).graph()),
            final(self).graph().len() == old(self).graph().len(),
            !old(self).key_valid(key) ==> r == Err::<(), EngineError>(EngineError::UnknownNode) && final(self).graph()
                == old(self).graph(),
            old(self).key_valid(key) ==> {
                let n = old(self).graph().nodes()[key.index() as int];
                if !n.alive {
                    r == Err::<(), EngineError>(EngineError::Graph(GraphError::NodeFreed)) && final(self).graph().nodes()
                        == old(self).graph().nodes()
                } else if n.ptrs.handle_count == usize::MAX {
                    r == Err::<(), EngineError>(EngineError::Graph(GraphError::CountOverflow))
                        && final(self).graph().nodes() == old(self).graph().nodes()
                } else {
                    r is Ok && final(self).graph().nodes() == old(self).graph().nodes().update(
                        key.index() as int,
                        Node { ptrs: NodePtrs { handle_count: (n.ptrs.handle_count + 1) as usize, ..n.ptrs }, ..n },
                    )
                }
            },
    {
        let node = self.lookup(key)?;
        let ghost a = self.graph.nodes();
        let res = self.graph.handle_clone(node);
        proof {
            assert forall|i: int| 0 <= i < self.graph.len() implies !(#[trigger] self.graph.nodes()[i]).visited by {
                assert(!a[i].visited);
            }
        }
        match res {
            Ok(()) => Ok(()),
            Err(e) => Err(EngineError::Graph(e)),
        }
    }

    /// Gives up one handle on the node of `key`; with its last handle the node is
    /// freed and its slot waits to be handed out again. Answers whether it was freed.
    pub fn handle_drop(&mut self, key: NodeKey) -> (r: Result<bool, EngineError>)
        requires
            old(self).wf(),
        ensures
            final(self).wf(),
            final(self).generation() == old(self).generation(),
            final(self).graph().graph_token() == old(self).graph().graph_token(),
            final(self).graph().num_heights() == old(self).graph().num_heights(),
            final(self).graph().len() == old(self).graph().len(),
            !old(self).key_valid(key) ==> r == Err::<bool, EngineError>(EngineError::UnknownNode) && final(self).graph()
                == old(self).graph(),
            old(self).key_valid(key) ==> {
                let x = key.index() as int;
                let n = old(self).graph().nodes()[x];
                &&& n.ptrs.handle_count == 0 ==> r == Err::<bool, EngineError>(EngineError::Graph(GraphError::CountUnderflow))
                &&& n.ptrs.handle_count > 1 ==> r == Ok::<bool, EngineError>(false) && final(self).graph().same_lists(
                    old(self).graph(),
                ) && final(self).graph().nodes() == old(self).graph().nodes().update(
                    x,
                    Node { ptrs: NodePtrs { handle_count: (n.ptrs.handle_count - 1) as usize, ..n.ptrs }, ..n },
                )
                &&& n.ptrs.handle_count == 1 ==> (r is Ok <==> forall|i: int|
                    0 <= i < n.ptrs.necessary_children@.len()
                        ==> old(self).graph().nodes()[#[trigger] n.ptrs.necessary_children@[i] as int].necessary_count >= 1)
                &&& r is Err ==> r == Err::<bool, EngineError>(EngineError::Graph(GraphError::CountUnderflow))
                &&& n.ptrs.handle_count == 1 && counts_cover(old(self).graph().nodes()) ==> r == Ok::<bool, EngineError>(true)
                &&& n.ptrs.handle_count == 1 && r is Ok ==> {
                    &&& r == Ok::<bool, EngineError>(true)
                    &&& graph2::queues_without(old(self).graph().queues(), final(self).graph().queues(), x as usize)
                    &&& final(self).graph().free_list() == seq![x as usize] + old(self).graph().free_list()
                    &&& !final(self).graph().nodes()[x].alive
                    &&& final(self).graph().nodes()[x].ptrs.necessary_children@.len() == 0
                    &&& parents_of(final(self).graph().nodes()[x]).len() == 0
                    &&& !queued(final(self).graph(), x)
                    &&& graph2::freed_frame(old(self).graph().nodes(), final(self).graph().nodes(), x)
                }
            },
    {
        let node = self.lookup(key)?;
        let ghost a = self.graph.nodes();
        proof {
            if counts_cover(a) {
                self.graph.lemma_edges_in();
                let own = a[node.index()].ptrs.necessary_children@;
                assert(graph2::edges_in(a[node.index()], a.len()));
                assert forall|i: int| 0 <= i < own.len() implies a[#[trigger] own[i] as int].necessary_count >= 1 by {
                    lemma_listers_pos(a, own[i], node.index(), a.len() as int);
                    assert(a[own[i] as int].necessary_count >= listers(a, own[i] as int as usize, a.len() as int));
                }
            }
        }
        let res = self.graph.handle_drop(node);
        proof {
            self.graph.lemma_queued();
            assert forall|i: int| 0 <= i < self.graph.len() implies !(#[trigger] self.graph.nodes()[i]).visited by {
                assert(!a[i].visited);
            }
        }
        match res {
            Ok(b) => Ok(b),
            Err(e) => Err(EngineError::Graph(e)),
        }
    }

    /// Begins a stabilization: reads the dirty marks, then moves to the next
    /// generation. The caller then runs the nodes `stabilize_next` hands out.
    pub fn stabilize_begin(&mut self, marks: &Vec<NodeKey>) -> (r: Result<Vec<(NodeGuard, NodeKey)>, EngineError>)
        requires
            old(self).wf(),
        ensures
            final(self).wf(),
            final(self).graph().graph_token() == old(self).graph().graph_token(),
            final(self).graph().num_heights() == old(self).graph().num_heights(),
            final(self).graph().len() == old(self).graph().len(),
            r is Ok ==> final(self).generation().value() == old(self).generation().value() + 1,
            r == Err::<Vec<(NodeGuard, NodeKey)>, EngineError>(EngineError::GenerationOverflow) ==> old(self).generation().value()
                == u64::MAX,
            r matches Ok(notes) ==> ({
                let a = old(self).graph().nodes();
                let b = final(self).graph().nodes();
                &&& forall|k: int| 0 <= k < marks@.len() ==> old(self).key_valid(#[trigger] marks@[k])
                &&& dirty_cascade(a, b)
                &&& notes_sound(a, b, notes@, old(self).graph().graph_token())
                &&& notes_complete(a, b, notes@)
                &&& forall|k: int| 0 <= k < marks@.len() ==> dirtied(b[(#[trigger] marks@[k]).index() as int])
                &&& changes_reached_from_marks(a, b, marks@, marks@.len() as int)
                &&& forall|k: int, y: int|
                    0 <= k < marks@.len() && 0 <= y < a.len() && #[trigger] climbs_to(a, marks@[k].index() as int, y)
                        ==> dirtied(b[y])
                &&& forall|y: int, j: int|
                    0 <= y < a.len() && a[y].ptrs.recalc_state == RecalcState::Ready && b[y].ptrs.recalc_state
                        == RecalcState::Needed && 0 <= j < parents_of(a[y]).len() ==> dirtied(
                        b[#[trigger] parents_of(a[y])[j] as int],
                    )
            }),
            old(self).generation().value() == u64::MAX && r is Ok ==> false,
            schedulable(old(self).graph().nodes(), old(self).graph().num_heights()) && (forall|k: int|
                0 <= k < marks@.len() ==> old(self).key_valid(#[trigger] marks@[k]) && old(self).graph().nodes()[marks@[k].index() as int].alive)
                && old(self).generation().value() < u64::MAX ==> r is Ok,
    {
        let notes = self.update_dirty_marks(marks)?;
        if self.generation.get() == u64::MAX {
            return Err(EngineError::GenerationOverflow);
        }
        self.generation.increment();
        Ok(notes)
    }
}

} // verus!
