//! The recomputation graph: an arena of nodes, the clean-parent and
//! necessary-child edges between them, and one recalculation queue per height.
use vstd::prelude::*;

use super::generation::Generation;

verus! {

/// Where a node stands in the recalculation schedule.
#[derive(Clone, Copy, PartialEq, Eq, Structural, Hash, Debug)]
pub enum RecalcState {
    Needed,
    Pending,
    Ready,
}

impl Default for RecalcState {
    fn default() -> (s: Self)
        ensures
            s == RecalcState::Needed,
    {
        RecalcState::Needed
    }
}

/// What the graph refuses to do, each where the engine would otherwise panic.
#[derive(Clone, Copy, PartialEq, Eq, Structural, Debug)]
pub enum GraphError {
    /// A node was queued at a height that has no queue ("too large height error").
    TooLargeHeight,
    /// Raising heights met a node already being raised: the edge would close a cycle.
    LoopDetected,
    /// A freed node was asked to take part in a recalculation.
    NodeFreed,
    /// A necessary count or a handle count would go below zero.
    CountUnderflow,
    /// A necessary count or a handle count would go past `usize::MAX`.
    CountOverflow,
    /// A node waiting first in its queue heads no queue; a sound graph never answers this.
    QueueMismatch,
    /// Raising heights would go past `usize::MAX`.
    HeightOverflow,
}

/// The identity of a node: its slot in the arena and the token of its graph.
#[derive(Clone, Copy, PartialEq, Eq, Structural, Hash, Debug)]
pub struct NodeKey {
    ptr: usize,
    token: u32,
}

impl NodeKey {
    pub closed spec fn index(self) -> nat {
        self.ptr as nat
    }

    pub closed spec fn graph_token(self) -> u32 {
        self.token
    }

    /// A slot always fits in a `usize`.
    pub broadcast proof fn lemma_key_range(self)
        ensures
            #[trigger] self.index() <= usize::MAX,
    {
    }

    /// Two keys with the same slot and the same graph token are the same key.
    pub proof fn lemma_key_eq(self, other: NodeKey)
        requires
            self.index() == other.index(),
            self.graph_token() == other.graph_token(),
        ensures
            self == other,
    {
    }

    /// The arena slot this key names.
    pub fn ptr(&self) -> (p: usize)
        ensures
            p == self.index(),
    {
        self.ptr
    }

    /// The token of the graph this key belongs to.
    pub fn token(&self) -> (t: u32)
        ensures
            t == self.graph_token(),
    {
        self.token
    }
}

/// A node of the graph, named by its arena slot.
#[derive(Clone, Copy, PartialEq, Eq, Structural, Debug)]
pub struct NodeGuard(usize);

impl NodeGuard {
    pub closed spec fn index(self) -> int {
        self.0 as int
    }

    /// Two guards on the same slot are the same guard.
    pub proof fn lemma_guard_eq(self, other: NodeGuard)
        requires
            self.index() == other.index(),
        ensures
            self == other,
    {
    }

    /// A slot always fits in a `usize`.
    pub broadcast proof fn lemma_index_range(self)
        ensures
            0 <= #[trigger] self.index() <= usize::MAX,
    {
    }

    /// The arena slot of this node.
    pub fn slot(&self) -> (i: usize)
        ensures
            i == self.index(),
    {
        self.0
    }
}

/// The links of a node: its edges, its place in a queue or in the free list,
/// its height and how many handles name it.
pub struct NodePtrs {
    /// First clean parent, then the remaining ones; unsorted, duplicates may exist.
    pub clean_parent0: Option<usize>,
    pub clean_parents: Vec<usize>,
    /// Next node in the recalculation queue of this node, or in the free list.
    pub next: Option<usize>,
    /// Previous node in the recalculation queue of this node, or in the free list.
    pub prev: Option<usize>,
    pub recalc_state: RecalcState,
    /// Sorted in slot order, without duplicates.
    pub necessary_children: Vec<usize>,
    pub height: usize,
    pub handle_count: usize,
}

/// One node of the recomputation graph.
pub struct Node {
    pub observed: bool,
    /// Used while raising heights to detect loops.
    pub visited: bool,
    /// Number of nodes that list this node as a necessary child.
    pub necessary_count: usize,
    pub token: u32,
    /// Generation when this node last polled as Updated or Unchanged.
    pub last_ready: Option<Generation>,
    /// Generation when this node last polled as Updated.
    pub last_update: Option<Generation>,
    /// True while the node holds a live computation; false once freed.
    pub alive: bool,
    pub ptrs: NodePtrs,
}

/// The clean parents of a node, first one first.
pub open spec fn parents_of(n: Node) -> Seq<usize> {
    match n.ptrs.clean_parent0 {
        Some(p) => seq![p] + n.ptrs.clean_parents@,
        None => n.ptrs.clean_parents@,
    }
}

/// All fields of two nodes agree, except their queue links and recalculation state.
pub open spec fn node_data_eq(a: Node, b: Node) -> bool {
    &&& a.observed == b.observed
    &&& a.visited == b.visited
    &&& a.necessary_count == b.necessary_count
    &&& a.token == b.token
    &&& a.last_ready == b.last_ready
    &&& a.last_update == b.last_update
    &&& a.alive == b.alive
    &&& a.ptrs.clean_parent0 == b.ptrs.clean_parent0
    &&& a.ptrs.clean_parents@ == b.ptrs.clean_parents@
    &&& a.ptrs.necessary_children@ == b.ptrs.necessary_children@
    &&& a.ptrs.height == b.ptrs.height
    &&& a.ptrs.handle_count == b.ptrs.handle_count
}

/// Every node but `x` keeps its data and its recalculation state; only queue and
/// free-list links may differ.
#[verifier::opaque]
pub open spec fn data_kept_except(a: Seq<Node>, b: Seq<Node>, x: int) -> bool {
    forall|y: int|
        0 <= y < a.len() && y != x ==> node_data_eq(#[trigger] b[y], a[y]) && b[y].ptrs.recalc_state == a[y].ptrs.recalc_state
}

/// Freeing node `x` left every other node as it was, but for queue and free-list
/// links and one necessary parent less for each necessary child of `x`.
pub open spec fn freed_frame(a: Seq<Node>, b: Seq<Node>, x: int) -> bool {
    forall|y: int|
        0 <= y < a.len() && y != x ==> node_data_eq(
            #[trigger] b[y],
            Node {
                necessary_count: (a[y].necessary_count - (if a[x].ptrs.necessary_children@.contains(y as usize) {
                    1int
                } else {
                    0int
                })) as usize,
                ..a[y]
            },
        ) && b[y].ptrs.recalc_state == a[y].ptrs.recalc_state
}

/// Queue lists `b` are `a` with node `x` taken out where it waited: the queue
/// that held `x` keeps its other nodes in their order, every other queue is as it was.
#[verifier::opaque]
pub open spec fn queues_without(a: Seq<Seq<usize>>, b: Seq<Seq<usize>>, x: usize) -> bool {
    &&& b.len() == a.len()
    &&& forall|h: int|
        0 <= h < a.len() ==> if (#[trigger] a[h]).contains(x) {
            exists|k: int| 0 <= k < a[h].len() && a[h][k] == x && b[h] == a[h].remove(k)
        } else {
            b[h] == a[h]
        }
}

/// Two arenas agree on everything but queue links and recalculation states.
pub open spec fn data_unchanged(a: Seq<Node>, b: Seq<Node>) -> bool {
    &&& a.len() == b.len()
    &&& forall|i: int| 0 <= i < a.len() ==> node_data_eq(#[trigger] a[i], b[i])
}

/// The recalculation states of two arenas agree everywhere except perhaps at `x`.
pub open spec fn states_unchanged_except(a: Seq<Node>, b: Seq<Node>, x: int) -> bool {
    forall|i: int| 0 <= i < a.len() && i != x ==> (#[trigger] a[i]).ptrs.recalc_state == b[i].ptrs.recalc_state
}

/// Two versions of a node agree on everything the queues and the free list rely on.
pub open spec fn same_links(a: Node, b: Node) -> bool {
    &&& a.ptrs.next == b.ptrs.next
    &&& a.ptrs.prev == b.ptrs.prev
    &&& a.alive == b.alive
    &&& a.token == b.token
    &&& (a.ptrs.recalc_state == RecalcState::Pending) == (b.ptrs.recalc_state == RecalcState::Pending)
    &&& (a.ptrs.handle_count >= 1) == (b.ptrs.handle_count >= 1)
    &&& a.ptrs.height >= b.ptrs.height
}

/// The slots named by a list of guards.
pub open spec fn guard_slots(v: Seq<NodeGuard>) -> Seq<usize> {
    v.map_values(|g: NodeGuard| g.index() as usize)
}

/// A node fresh out of `insert`.
pub open spec fn is_fresh(n: Node, token: u32) -> bool {
    &&& !n.observed
    &&& !n.visited
    &&& n.necessary_count == 0
    &&& n.token == token
    &&& n.last_ready is None
    &&& n.last_update is None
    &&& n.alive
    &&& n.ptrs.clean_parent0 is None
    &&& n.ptrs.clean_parents@.len() == 0
    &&& n.ptrs.next is None
    &&& n.ptrs.prev is None
    &&& n.ptrs.recalc_state == RecalcState::Needed
    &&& n.ptrs.necessary_children@.len() == 0
    &&& n.ptrs.height == 0
    &&& n.ptrs.handle_count == 1
}

/// `s` is the doubly linked list that starts at `head` and follows `next`.
pub open spec fn linked(nodes: Seq<Node>, head: Option<usize>, s: Seq<usize>) -> bool {
    &&& head == (if s.len() == 0 { None } else { Some(s[0]) })
    &&& forall|i: int| 0 <= i < s.len() ==> (#[trigger] s[i]) < nodes.len()
    &&& forall|i: int, j: int| 0 <= i < j < s.len() ==> s[i] != s[j]
    &&& forall|i: int|
        0 <= i < s.len() ==> nodes[#[trigger] s[i] as int].ptrs.next == (if i + 1 < s.len() {
            Some(s[i + 1])
        } else {
            None
        })
    &&& forall|i: int|
        0 <= i < s.len() ==> nodes[#[trigger] s[i] as int].ptrs.prev == (if i > 0 {
            Some(s[i - 1])
        } else {
            None
        })
}

/// The edges of a node stay inside an arena of `n` nodes, and its necessary
/// children are strictly sorted.
pub open spec fn edges_in(node: Node, n: nat) -> bool {
    &&& (node.ptrs.clean_parent0 matches Some(p) ==> p < n)
    &&& (node.ptrs.clean_parent0 is None ==> node.ptrs.clean_parents@.len() == 0)
    &&& forall|i: int| 0 <= i < node.ptrs.clean_parents@.len() ==> #[trigger] node.ptrs.clean_parents@[i] < n
    &&& forall|i: int|
        0 <= i < node.ptrs.necessary_children@.len() ==> #[trigger] node.ptrs.necessary_children@[i] < n
    &&& forall|i: int, j: int|
        0 <= i < j < node.ptrs.necessary_children@.len() ==> node.ptrs.necessary_children@[i]
            < node.ptrs.necessary_children@[j]
}

pub proof fn lemma_linked_frame(a: Seq<Node>, b: Seq<Node>, head: Option<usize>, s: Seq<usize>)
    requires
        linked(a, head, s),
        a.len() <= b.len(),
        forall|i: int|
            0 <= i < s.len() ==> (#[trigger] b[s[i] as int]).ptrs.next == a[s[i] as int].ptrs.next
                && b[s[i] as int].ptrs.prev == a[s[i] as int].ptrs.prev,
    ensures
        linked(b, head, s),
{
    assert forall|i: int| 0 <= i < s.len() implies b[#[trigger] s[i] as int].ptrs.next == (if i + 1
        < s.len() {
        Some(s[i + 1])
    } else {
        None
    }) by {
        assert(b[s[i] as int].ptrs.next == a[s[i] as int].ptrs.next);
    }
    assert forall|i: int| 0 <= i < s.len() implies b[#[trigger] s[i] as int].ptrs.prev == (if i
        > 0 {
        Some(s[i - 1])
    } else {
        None
    }) by {
        assert(b[s[i] as int].ptrs.prev == a[s[i] as int].ptrs.prev);
    }
}


/// Pushing `x` in front of a list: `x` links to the old head and the old head back to `x`.
pub proof fn lemma_linked_push_front(a: Seq<Node>, b: Seq<Node>, s: Seq<usize>, x: usize)
    requires
        linked(a, if s.len() == 0 { None } else { Some(s[0]) }, s),
        a.len() == b.len(),
        x < a.len(),
        !s.contains(x),
        b[x as int].ptrs.next == (if s.len() == 0 { None } else { Some(s[0]) }),
        b[x as int].ptrs.prev is None,
        s.len() > 0 ==> b[s[0] as int].ptrs.prev == Some(x) && b[s[0] as int].ptrs.next == a[s[0] as int].ptrs.next,
        forall|i: int|
            1 <= i < s.len() ==> (#[trigger] b[s[i] as int]).ptrs.next == a[s[i] as int].ptrs.next
                && b[s[i] as int].ptrs.prev == a[s[i] as int].ptrs.prev,
    ensures
        linked(b, Some(x), seq![x] + s),
{
    let t = seq![x] + s;
    assert forall|i: int| 0 <= i < t.len() implies b[#[trigger] t[i] as int].ptrs.next == (if i + 1
        < t.len() {
        Some(t[i + 1])
    } else {
        None
    }) by {
        if i > 0 {
            assert(t[i] == s[i - 1]);
        }
    }
    assert forall|i: int| 0 <= i < t.len() implies b[#[trigger] t[i] as int].ptrs.prev == (if i
        > 0 {
        Some(t[i - 1])
    } else {
        None
    }) by {
        if i > 1 {
            assert(t[i] == s[i - 1]);
        }
    }
    assert forall|i: int, j: int| 0 <= i < j < t.len() implies t[i] != t[j] by {
        if i == 0 {
            assert(t[j] == s[j - 1]);
        }
    }
}

/// Popping the head of a list: the new head has no predecessor.
pub proof fn lemma_linked_pop_front(a: Seq<Node>, b: Seq<Node>, head: Option<usize>, s: Seq<usize>)
    requires
        linked(a, head, s),
        s.len() > 0,
        a.len() == b.len(),
        s.len() > 1 ==> b[s[1] as int].ptrs.prev is None && b[s[1] as int].ptrs.next == a[s[1] as int].ptrs.next,
        forall|i: int|
            2 <= i < s.len() ==> (#[trigger] b[s[i] as int]).ptrs.next == a[s[i] as int].ptrs.next
                && b[s[i] as int].ptrs.prev == a[s[i] as int].ptrs.prev,
    ensures
        linked(b, a[s[0] as int].ptrs.next, s.drop_first()),
{
    let t = s.drop_first();
    assert forall|i: int| 0 <= i < t.len() implies b[#[trigger] t[i] as int].ptrs.next == (if i + 1
        < t.len() {
        Some(t[i + 1])
    } else {
        None
    }) by {
        assert(t[i] == s[i + 1]);
    }
    assert forall|i: int| 0 <= i < t.len() implies b[#[trigger] t[i] as int].ptrs.prev == (if i
        > 0 {
        Some(t[i - 1])
    } else {
        None
    }) by {
        assert(t[i] == s[i + 1]);
    }
}

/// Strictly increasing.
pub open spec fn strictly_sorted(s: Seq<usize>) -> bool {
    forall|i: int, j: int| 0 <= i < j < s.len() ==> s[i] < s[j]
}

/// Binary search in a strictly sorted vector: `Ok` with the index of `x`, or
/// `Err` with the index where `x` would be inserted to keep the order.
pub fn binary_search(v: &Vec<usize>, x: usize) -> (r: Result<usize, usize>)
    requires
        strictly_sorted(v@),
    ensures
        r matches Ok(i) ==> i < v@.len() && v@[i as int] == x,
        r matches Err(i) ==> {
            &&& i <= v@.len()
            &&& forall|j: int| 0 <= j < i ==> #[trigger] v@[j] < x
            &&& forall|j: int| i <= j < v@.len() ==> #[trigger] v@[j] > x
        },
        r is Err <==> !v@.contains(x),
{
    let mut lo: usize = 0;
    let mut hi: usize = v.len();
    while lo < hi
        invariant
            lo <= hi <= v@.len(),
            strictly_sorted(v@),
            forall|j: int| 0 <= j < lo ==> #[trigger] v@[j] < x,
            forall|j: int| hi <= j < v@.len() ==> #[trigger] v@[j] > x,
        decreases hi - lo,
    {
        let mid = lo + (hi - lo) / 2;
        if v[mid] == x {
            return Ok(mid);
        } else if v[mid] < x {
            lo = mid + 1;
        } else {
            hi = mid;
        }
    }
    proof {
        if v@.contains(x) {
            let k = choose|k: int| 0 <= k < v@.len() && v@[k] == x;
            assert(v@[k] == x);
        }
    }
    Err(lo)
}

/// Guards for a list of slots.
fn to_guards(v: &Vec<usize>) -> (r: Vec<NodeGuard>)
    ensures
        guard_slots(r@) == v@,
{
    let mut out: Vec<NodeGuard> = Vec::new();
    let mut i: usize = 0;
    while i < v.len()
        invariant
            i <= v@.len(),
            out@.len() == i,
            forall|k: int| 0 <= k < i ==> (#[trigger] out@[k]).index() == v@[k],
        decreases v@.len() - i,
    {
        out.push(NodeGuard(v[i]));
        i = i + 1;
    }
    assert(guard_slots(out@) =~= v@);
    out
}

/// Unlinking the node at position `k` of a list: its neighbours are linked to each other.
#[verifier::rlimit(40)]
#[verifier::spinoff_prover]
pub proof fn lemma_linked_remove(a: Seq<Node>, b: Seq<Node>, head: Option<usize>, s: Seq<usize>, k: int)
    requires
        linked(a, head, s),
        0 <= k < s.len(),
        a.len() == b.len(),
        k > 0 ==> b[s[k - 1] as int].ptrs.next == (if k + 1 < s.len() { Some(s[k + 1]) } else { None })
            && b[s[k - 1] as int].ptrs.prev == a[s[k - 1] as int].ptrs.prev,
        k + 1 < s.len() ==> b[s[k + 1] as int].ptrs.prev == (if k > 0 { Some(s[k - 1]) } else { None })
            && b[s[k + 1] as int].ptrs.next == a[s[k + 1] as int].ptrs.next,
        forall|i: int|
            0 <= i < s.len() && i != k - 1 && i != k && i != k + 1 ==> (#[trigger] b[s[i] as int]).ptrs.next
                == a[s[i] as int].ptrs.next && b[s[i] as int].ptrs.prev == a[s[i] as int].ptrs.prev,
    ensures
        linked(b, if k == 0 { a[s[0] as int].ptrs.next } else { head }, s.remove(k)),
{
    let t = s.remove(k);
    s.remove_ensures(k);
    assert forall|i: int| 0 <= i < t.len() implies #[trigger] t[i] == (if i < k { s[i] } else { s[i + 1] }) by {}
    assert forall|i: int| 0 <= i < t.len() implies b[#[trigger] t[i] as int].ptrs.next == (if i + 1
        < t.len() {
        Some(t[i + 1])
    } else {
        None
    }) by {
        if i < k {
            assert(t[i] == s[i]);
            if i + 1 < t.len() {
                assert(t[i + 1] == (if i + 1 < k { s[i + 1] } else { s[i + 2] }));
            }
        } else {
            assert(t[i] == s[i + 1]);
            if i + 1 < t.len() {
                assert(t[i + 1] == s[i + 2]);
            }
        }
    }
    assert forall|i: int| 0 <= i < t.len() implies b[#[trigger] t[i] as int].ptrs.prev == (if i
        > 0 {
        Some(t[i - 1])
    } else {
        None
    }) by {
        if i < k {
            assert(t[i] == s[i]);
            if i > 0 {
                assert(t[i - 1] == s[i - 1]);
            }
        } else {
            assert(t[i] == s[i + 1]);
            if i > 0 {
                assert(t[i - 1] == (if i - 1 < k { s[i - 1] } else { s[i] }));
            }
        }
    }
    assert forall|i: int, j: int| 0 <= i < j < t.len() implies t[i] != t[j] by {
        assert(t[i] == (if i < k { s[i] } else { s[i + 1] }));
        assert(t[j] == (if j < k { s[j] } else { s[j + 1] }));
    }
    if k == 0 && s.len() > 1 {
        assert(t[0] == s[1]);
    }
}

/// One step of a path: `s[i + 1]` is a clean parent of `s[i]`.
pub open spec fn path_step(nodes: Seq<Node>, s: Seq<int>, i: int) -> bool {
    parents_of(nodes[s[i]]).contains(s[i + 1] as usize)
}

/// `s` walks from a node to one of its clean parents, to one of that one's, and so on.
pub open spec fn is_path(nodes: Seq<Node>, s: Seq<int>) -> bool {
    &&& s.len() >= 1
    &&& forall|i: int| 0 <= i < s.len() ==> 0 <= #[trigger] s[i] < nodes.len()
    &&& forall|i: int| 0 <= i < s.len() - 1 ==> #[trigger] path_step(nodes, s, i)
}

/// Following clean parents from `z` one reaches a node of `t`.
pub open spec fn reaches(nodes: Seq<Node>, z: int, t: Set<int>) -> bool {
    exists|s: Seq<int>| #[trigger] is_path(nodes, s) && s[0] == z && t.contains(s.last())
}

/// Following clean parents one can come back to where one started.
pub open spec fn has_cycle(nodes: Seq<Node>) -> bool {
    exists|s: Seq<int>| #[trigger] is_path(nodes, s) && s.len() >= 2 && s[0] == s.last()
}

/// The slots of the visited nodes.
pub open spec fn visited_set(nodes: Seq<Node>) -> Set<int> {
    Set::new(|i: int| 0 <= i < nodes.len() && nodes[i].visited)
}

/// Every clean parent sits higher than its child.
pub open spec fn heights_consistent(nodes: Seq<Node>) -> bool {
    forall|x: int, j: int|
        0 <= x < nodes.len() && 0 <= j < parents_of(nodes[x]).len() ==> nodes[x].ptrs.height
            < nodes[#[trigger] parents_of(nodes[x])[j] as int].ptrs.height
}

/// The two arenas differ at most in heights and visited marks.
pub open spec fn only_heights_visited_changed(a: Seq<Node>, b: Seq<Node>) -> bool {
    &&& a.len() == b.len()
    &&& forall|i: int|
        0 <= i < a.len() ==> (#[trigger] b[i]) == (Node {
            visited: b[i].visited,
            ptrs: NodePtrs { height: b[i].ptrs.height, ..a[i].ptrs },
            ..a[i]
        })
}

/// Number of nodes not marked visited.
pub open spec fn count_unvisited(nodes: Seq<Node>) -> nat
    decreases nodes.len(),
{
    if nodes.len() == 0 {
        0
    } else {
        count_unvisited(nodes.drop_last()) + if nodes.last().visited {
            0nat
        } else {
            1nat
        }
    }
}

/// Marking more nodes visited never raises the count of unvisited ones, and
/// marking a new one lowers it.
pub proof fn lemma_count_unvisited(a: Seq<Node>, b: Seq<Node>, x: int)
    requires
        a.len() == b.len(),
        forall|i: int| 0 <= i < a.len() && a[i].visited ==> #[trigger] b[i].visited,
    ensures
        count_unvisited(b) <= count_unvisited(a),
        0 <= x < a.len() && !a[x].visited && b[x].visited ==> count_unvisited(b) < count_unvisited(a),
    decreases a.len(),
{
    if a.len() > 0 {
        let a2 = a.drop_last();
        let b2 = b.drop_last();
        assert forall|i: int| 0 <= i < a2.len() && a2[i].visited implies #[trigger] b2[i].visited by {
            assert(a2[i] == a[i] && b2[i] == b[i]);
        }
        lemma_count_unvisited(a2, b2, x);
        if x < a.len() - 1 && 0 <= x {
            assert(a2[x] == a[x] && b2[x] == b[x]);
        }
    }
}

/// The unvisited count never exceeds the number of nodes.
pub proof fn lemma_count_unvisited_bound(a: Seq<Node>)
    ensures
        count_unvisited(a) <= a.len(),
    decreases a.len(),
{
    if a.len() > 0 {
        lemma_count_unvisited_bound(a.drop_last());
    }
}

/// The clean parents of a node with sound edges stay inside the arena.
pub proof fn lemma_parents_in(node: Node, n: nat)
    requires
        edges_in(node, n),
    ensures
        forall|j: int| 0 <= j < parents_of(node).len() ==> #[trigger] parents_of(node)[j] < n,
{
    assert forall|j: int| 0 <= j < parents_of(node).len() implies #[trigger] parents_of(node)[j] < n by {
        if node.ptrs.clean_parent0 is Some {
            if j > 0 {
                assert(parents_of(node)[j] == node.ptrs.clean_parents@[j - 1]);
            }
        } else {
            assert(parents_of(node)[j] == node.ptrs.clean_parents@[j]);
        }
    }
}

/// Paths only depend on clean parents.
pub proof fn lemma_path_same_parents(a: Seq<Node>, b: Seq<Node>, s: Seq<int>)
    requires
        a.len() == b.len(),
        forall|i: int| 0 <= i < a.len() ==> parents_of(#[trigger] b[i]) == parents_of(a[i]),
        is_path(a, s),
    ensures
        is_path(b, s),
{
    assert forall|i: int| 0 <= i < s.len() - 1 implies #[trigger] path_step(b, s, i) by {
        assert(path_step(a, s, i));
        assert(parents_of(b[s[i]]) == parents_of(a[s[i]]));
    }
}

/// A step from `n` to its clean parent `p` in front of a path from `p`.
pub proof fn lemma_path_prepend(nodes: Seq<Node>, n: int, t: Seq<int>)
    requires
        is_path(nodes, t),
        0 <= n < nodes.len(),
        parents_of(nodes[n]).contains(t[0] as usize),
    ensures
        is_path(nodes, seq![n] + t),
        (seq![n] + t)[0] == n,
        (seq![n] + t).last() == t.last(),
        (seq![n] + t).len() == t.len() + 1,
{
    let s = seq![n] + t;
    assert forall|i: int| 0 <= i < s.len() implies 0 <= #[trigger] s[i] < nodes.len() by {
        if i > 0 {
            assert(s[i] == t[i - 1]);
        }
    }
    assert forall|i: int| 0 <= i < s.len() - 1 implies #[trigger] path_step(nodes, s, i) by {
        if i > 0 {
            assert(s[i] == t[i - 1] && s[i + 1] == t[i]);
            assert(path_step(nodes, t, i - 1));
        } else {
            assert(s[1] == t[0]);
        }
    }
}

/// Reaching a set, each of whose members reaches a second set, reaches the second set.
pub proof fn lemma_reaches_trans(nodes: Seq<Node>, z: int, t1: Set<int>, t2: Set<int>)
    requires
        reaches(nodes, z, t1),
        forall|w: int| #[trigger] t1.contains(w) ==> reaches(nodes, w, t2),
    ensures
        reaches(nodes, z, t2),
{
    let s = choose|s: Seq<int>| #[trigger] is_path(nodes, s) && s[0] == z && t1.contains(s.last());
    let w = s.last();
    assert(reaches(nodes, w, t2));
    let t = choose|t: Seq<int>| #[trigger] is_path(nodes, t) && t[0] == w && t2.contains(t.last());
    let u = s + t.skip(1);
    assert forall|i: int| 0 <= i < u.len() implies 0 <= #[trigger] u[i] < nodes.len() by {
        if i >= s.len() {
            assert(u[i] == t[i - s.len() + 1]);
        }
    }
    assert forall|i: int| 0 <= i < u.len() - 1 implies #[trigger] path_step(nodes, u, i) by {
        if i < s.len() - 1 {
            assert(u[i] == s[i] && u[i + 1] == s[i + 1]);
            assert(path_step(nodes, s, i));
        } else if i == s.len() - 1 {
            assert(u[i] == s[i]);
            assert(u[i + 1] == t[1]);
            assert(path_step(nodes, t, 0));
        } else {
            assert(u[i] == t[i - s.len() + 1] && u[i + 1] == t[i - s.len() + 2]);
            assert(path_step(nodes, t, i - s.len() + 1));
        }
    }
    if t.len() == 1 {
        assert(u =~= s);
    } else {
        assert(u.last() == t.last());
    }
    assert(is_path(nodes, u) && u[0] == z && t2.contains(u.last()));
}

/// Height climbs from the `i`-th node of `s` to the next.
pub open spec fn rise_step(nodes: Seq<Node>, s: Seq<int>, i: int) -> bool {
    nodes[s[i]].ptrs.height < nodes[s[i + 1]].ptrs.height
}

/// Heights climb strictly along `s`.
pub open spec fn rises_along(nodes: Seq<Node>, s: Seq<int>) -> bool {
    forall|i: int| 0 <= i < s.len() - 1 ==> #[trigger] rise_step(nodes, s, i)
}

/// Along a climbing sequence, each step adds at least one to the height.
pub proof fn lemma_rise_between(nodes: Seq<Node>, s: Seq<int>, i: int, j: int)
    requires
        rises_along(nodes, s),
        0 <= i <= j < s.len(),
    ensures
        nodes[s[i]].ptrs.height + (j - i) <= nodes[s[j]].ptrs.height,
    decreases j - i,
{
    if i < j {
        lemma_rise_between(nodes, s, i + 1, j);
        assert(rise_step(nodes, s, i));
    }
}

/// Where every clean parent sits higher than its child, heights climb along every path.
pub proof fn lemma_consistent_rises(nodes: Seq<Node>, s: Seq<int>)
    requires
        heights_consistent(nodes),
        is_path(nodes, s),
        nodes.len() <= usize::MAX,
    ensures
        rises_along(nodes, s),
{
    assert forall|i: int| 0 <= i < s.len() - 1 implies #[trigger] rise_step(nodes, s, i) by {
        assert(path_step(nodes, s, i));
        let ps = parents_of(nodes[s[i]]);
        let j = choose|j: int| 0 <= j < ps.len() && ps[j] == s[i + 1] as usize;
        assert(0 <= s[i] < nodes.len() && 0 <= s[i + 1] < nodes.len());
        assert(nodes[s[i]].ptrs.height < nodes[parents_of(nodes[s[i]])[j] as int].ptrs.height);
    }
}

/// Where every clean parent sits higher than its child, following clean parents
/// never leads back to where one started.
pub proof fn lemma_consistent_acyclic(nodes: Seq<Node>)
    requires
        heights_consistent(nodes),
        nodes.len() <= usize::MAX,
    ensures
        !has_cycle(nodes),
{
    if has_cycle(nodes) {
        let s = choose|s: Seq<int>| #[trigger] is_path(nodes, s) && s.len() >= 2 && s[0] == s.last();
        lemma_consistent_rises(nodes, s);
        lemma_rise_between(nodes, s, 0, s.len() - 1);
    }
}

/// A raise that keeps edges, lowers nothing, and puts every moved node below its
/// clean parents keeps heights climbing along a path.
pub proof fn lemma_rises_kept(a: Seq<Node>, b: Seq<Node>, s: Seq<int>)
    requires
        is_path(a, s),
        rises_along(a, s),
        a.len() == b.len(),
        a.len() <= usize::MAX,
        forall|x: int| 0 <= x < a.len() ==> parents_of(#[trigger] b[x]) == parents_of(a[x]),
        forall|x: int| 0 <= x < a.len() ==> a[x].ptrs.height <= #[trigger] b[x].ptrs.height,
        forall|x: int, j: int|
            0 <= x < a.len() && b[x].ptrs.height != a[x].ptrs.height && 0 <= j < parents_of(b[x]).len()
                ==> b[x].ptrs.height < b[#[trigger] parents_of(b[x])[j] as int].ptrs.height,
    ensures
        rises_along(b, s),
{
    assert forall|i: int| 0 <= i < s.len() - 1 implies #[trigger] rise_step(b, s, i) by {
        assert(rise_step(a, s, i));
        assert(path_step(a, s, i));
        let x = s[i];
        assert(0 <= x < a.len() && 0 <= s[i + 1] < a.len());
        if b[x].ptrs.height != a[x].ptrs.height {
            let ps = parents_of(a[x]);
            let j = choose|j: int| 0 <= j < ps.len() && ps[j] == s[i + 1] as usize;
            assert(parents_of(b[x]) == ps);
            assert(b[x].ptrs.height < b[parents_of(b[x])[j] as int].ptrs.height);
        } else {
            assert(a[s[i + 1]].ptrs.height <= b[s[i + 1]].ptrs.height);
        }
    }
}

/// `s` climbs from `node` to a node marked visited that sits lower than raising
/// `node` to `min_height`, and each node above it to one more, would need.
pub open spec fn blocked_climb(nodes: Seq<Node>, node: int, min_height: int, s: Seq<int>) -> bool {
    &&& is_path(nodes, s)
    &&& s[0] == node
    &&& nodes[s.last()].visited
    &&& rises_along(nodes, s)
    &&& nodes[s.last()].ptrs.height < min_height + s.len() - 1
}

/// A blocked climb from an unvisited node leaves it, never comes back to it, and
/// starts below `min_height`.
pub proof fn lemma_blocked_start(nodes: Seq<Node>, node: int, min_height: int, w: Seq<int>)
    requires
        blocked_climb(nodes, node, min_height, w),
        0 <= node < nodes.len(),
        !nodes[node].visited,
    ensures
        w.len() >= 2,
        nodes[node].ptrs.height < min_height,
        forall|m: int| 1 <= m < w.len() ==> #[trigger] w[m] != node,
{
    if w.len() == 1 {
        assert(w.last() == w[0]);
    }
    lemma_rise_between(nodes, w, 0, w.len() - 1);
    assert forall|m: int| 1 <= m < w.len() implies #[trigger] w[m] != node by {
        lemma_rise_between(nodes, w, 0, m);
    }
}

/// Changing only `node`, which a climb visits only at its start, keeps the rest
/// of the climb climbing.
pub proof fn lemma_blocked_rest(a: Seq<Node>, b: Seq<Node>, node: int, w: Seq<int>)
    requires
        rises_along(a, w),
        w.len() >= 2,
        forall|m: int| 1 <= m < w.len() ==> #[trigger] w[m] != node,
        a.len() == b.len(),
        forall|x: int| 0 <= x < a.len() && x != node ==> #[trigger] b[x] == a[x],
        is_path(a, w),
    ensures
        rises_along(b, w.drop_first()),
{
    let t = w.drop_first();
    assert forall|i: int| 0 <= i < t.len() - 1 implies #[trigger] rise_step(b, t, i) by {
        assert(rise_step(a, w, i + 1));
        assert(t[i] == w[i + 1] && t[i + 1] == w[i + 2]);
        assert(w[i + 1] != node && w[i + 2] != node);
        assert(b[w[i + 1]] == a[w[i + 1]] && b[w[i + 2]] == a[w[i + 2]]);
    }
}

/// A path without its first node is a path.
pub proof fn lemma_path_drop_first(nodes: Seq<Node>, s: Seq<int>)
    requires
        is_path(nodes, s),
        s.len() >= 2,
    ensures
        is_path(nodes, s.drop_first()),
{
    let t = s.drop_first();
    assert forall|i: int| 0 <= i < t.len() implies 0 <= #[trigger] t[i] < nodes.len() by {
        assert(t[i] == s[i + 1]);
    }
    assert forall|i: int| 0 <= i < t.len() - 1 implies #[trigger] path_step(nodes, t, i) by {
        assert(path_step(nodes, s, i + 1));
        assert(t[i] == s[i + 1] && t[i + 1] == s[i + 2]);
    }
}

/// Singlethread's handle on a node, the engine-specific part of an `Anchor`.
#[derive(Debug)]
pub struct AnchorHandle {
    num: NodeKey,
}

impl AnchorHandle {
    pub closed spec fn key(&self) -> NodeKey {
        self.num
    }

    /// The copyable, comparable, hashable identity of the node this handle names.
    pub fn token(&self) -> (k: NodeKey)
        ensures
            k == self.key(),
    {
        self.num
    }
}

/// The arena of nodes with one recalculation queue per height and a free list.
pub struct Graph2 {
    nodes: Vec<Node>,
    token: u32,
    /// height -> first node in that height's queue
    recalc_queues: Vec<Option<usize>>,
    recalc_min_height: usize,
    recalc_max_height: usize,
    /// head of the list of freed nodes
    free_head: Option<usize>,
    /// the queue of each height, from its head
    queues: Ghost<Seq<Seq<usize>>>,
    /// the free list, from its head
    free_list: Ghost<Seq<usize>>,
    /// where each node is: a queue's height, -1 for nowhere, -2 for the free list
    loc: Ghost<Seq<int>>,
}

impl Graph2 {
    pub closed spec fn nodes(&self) -> Seq<Node> {
        self.nodes@
    }

    pub closed spec fn queues(&self) -> Seq<Seq<usize>> {
        self.queues@
    }

    pub closed spec fn free_list(&self) -> Seq<usize> {
        self.free_list@
    }

    pub closed spec fn graph_token(&self) -> u32 {
        self.token
    }

    /// Number of heights that have a queue.
    pub closed spec fn num_heights(&self) -> nat {
        self.recalc_queues@.len()
    }

    /// Number of slots in the arena.
    pub open spec fn len(&self) -> nat {
        self.nodes().len()
    }

    /// A sound arena has at most `usize::MAX` slots.
    pub proof fn lemma_len_bound(&self)
        requires
            self.wf(),
        ensures
            self.len() <= usize::MAX,
    {
    }

    /// A queued node is a live node of the arena, waiting (Pending) at a height no
    /// greater than its own; a live Pending node is queued.
    pub proof fn lemma_queued(&self)
        requires
            self.wf(),
        ensures
            self.queues().len() == self.num_heights(),
            forall|h: int, i: int|
                0 <= h < self.queues().len() && 0 <= i < self.queues()[h].len() ==> {
                    let x = #[trigger] self.queues()[h][i] as int;
                    &&& 0 <= x < self.len()
                    &&& self.nodes()[x].alive
                    &&& self.nodes()[x].ptrs.recalc_state == RecalcState::Pending
                    &&& self.nodes()[x].ptrs.height >= h
                },
            forall|x: int|
                0 <= x < self.len() && (#[trigger] self.nodes()[x]).alive && self.nodes()[x].ptrs.recalc_state
                    == RecalcState::Pending ==> exists|h: int|
                    0 <= h < self.queues().len() && #[trigger] self.queues()[h].contains(x as usize),
    {
        reveal(Graph2::lists_wf);
        reveal(Graph2::loc_wf);
        assert forall|h: int, i: int| 0 <= h < self.queues().len() && 0 <= i < self.queues()[h].len() implies {
            let x = #[trigger] self.queues()[h][i] as int;
            &&& 0 <= x < self.len()
            &&& self.nodes()[x].alive
            &&& self.nodes()[x].ptrs.recalc_state == RecalcState::Pending
            &&& self.nodes()[x].ptrs.height >= h
        } by {
            let x = self.queues@[h][i] as int;
            assert(linked(self.nodes@, self.recalc_queues@[h], self.queues@[h]));
            assert(self.loc@[x] == h);
            assert(self.loc_ok(x));
        }
        assert forall|x: int|
            0 <= x < self.len() && (#[trigger] self.nodes()[x]).alive && self.nodes()[x].ptrs.recalc_state
                == RecalcState::Pending implies exists|h: int|
            0 <= h < self.queues().len() && #[trigger] self.queues()[h].contains(x as usize) by {
            assert(self.loc_ok(x));
        }
    }

    /// The edges of every node of a sound graph stay inside its arena.
    pub proof fn lemma_edges_in(&self)
        requires
            self.wf(),
        ensures
            forall|x: int| 0 <= x < self.len() ==> edges_in(#[trigger] self.nodes()[x], self.len()),
            forall|x: int, j: int|
                0 <= x < self.len() && 0 <= j < parents_of(self.nodes()[x]).len() ==> #[trigger] parents_of(
                    self.nodes()[x],
                )[j] < self.len(),
    {
        reveal(Graph2::nodes_wf);
        assert forall|x: int, j: int|
            0 <= x < self.len() && 0 <= j < parents_of(self.nodes()[x]).len() implies #[trigger] parents_of(
                self.nodes()[x],
            )[j] < self.len() by {
            lemma_parents_in(self.nodes()[x], self.len());
        }
    }

    pub open spec fn valid(&self, g: NodeGuard) -> bool {
        0 <= g.index() < self.len()
    }

    pub open spec fn node(&self, g: NodeGuard) -> Node {
        self.nodes()[g.index()]
    }

    /// True when no queue holds a node.
    pub open spec fn queues_empty(&self) -> bool {
        forall|h: int| 0 <= h < self.queues().len() ==> (#[trigger] self.queues()[h]).len() == 0
    }

    /// True when no node is marked visited.
    pub open spec fn none_visited(&self) -> bool {
        forall|i: int| 0 <= i < self.len() ==> !(#[trigger] self.nodes()[i]).visited
    }

    spec fn shape_wf(&self) -> bool {
        &&& self.queues@.len() == self.recalc_queues@.len()
        &&& self.loc@.len() == self.nodes@.len()
        &&& self.nodes@.len() <= usize::MAX
        &&& self.recalc_queues@.len() <= usize::MAX
        &&& self.recalc_min_height <= self.recalc_queues@.len()
        &&& (self.recalc_queues@.len() == 0 ==> self.recalc_max_height == 0)
        &&& (self.recalc_queues@.len() > 0 ==> self.recalc_max_height < self.recalc_queues@.len())
    }

    #[verifier::opaque]
    spec fn lists_wf(&self) -> bool {
        &&& forall|h: int|
            0 <= h < self.queues@.len() ==> linked(self.nodes@, self.recalc_queues@[h], #[trigger] self.queues@[h])
        &&& linked(self.nodes@, self.free_head, self.free_list@)
        &&& forall|h: int|
            0 <= h < self.queues@.len() && (#[trigger] self.queues@[h]).len() > 0
                ==> self.recalc_min_height <= h <= self.recalc_max_height
    }

    /// What the location of node `x` says of its state and links.
    spec fn loc_ok(&self, x: int) -> bool {
        let l = self.loc@[x];
        &&& l >= -2
        &&& (l >= 0 ==> l < self.queues@.len() && self.queues@[l].contains(x as usize))
        &&& (l == -2 ==> self.free_list@.contains(x as usize))
        &&& (l == -2 <==> !self.nodes@[x].alive)
        &&& (l >= 0 <==> (self.nodes@[x].alive && self.nodes@[x].ptrs.recalc_state == RecalcState::Pending))
        &&& (l == -1 ==> self.nodes@[x].ptrs.next is None && self.nodes@[x].ptrs.prev is None)
        &&& (self.nodes@[x].alive <==> self.nodes@[x].ptrs.handle_count >= 1)
        &&& (l >= 0 ==> self.nodes@[x].ptrs.height >= l)
    }

    #[verifier::opaque]
    spec fn loc_wf(&self) -> bool {
        &&& forall|h: int, i: int|
            0 <= h < self.queues@.len() && 0 <= i < self.queues@[h].len() ==> self.loc@[#[trigger] self.queues@[h][i] as int] == h
        &&& forall|i: int| 0 <= i < self.free_list@.len() ==> self.loc@[#[trigger] self.free_list@[i] as int] == -2
        &&& forall|x: int| 0 <= x < self.nodes@.len() ==> #[trigger] self.loc_ok(x)
    }

    #[verifier::opaque]
    spec fn nodes_wf(&self) -> bool {
        forall|x: int|
            0 <= x < self.nodes@.len() ==> edges_in(#[trigger] self.nodes@[x], self.nodes@.len())
                && self.nodes@[x].token == self.token
    }

    /// The structure of the graph is sound: queues and free list are well linked,
    /// every node is in at most one of them, and every edge stays in the arena.
    pub closed spec fn wf(&self) -> bool {
        &&& self.shape_wf()
        &&& self.lists_wf()
        &&& self.loc_wf()
        &&& self.nodes_wf()
    }

    /// Creates an empty graph with `max_height` queues; `token` names the graph in its keys.
    pub fn new(max_height: usize, token: u32) -> (g: Self)
        ensures
            g.wf(),
            g.len() == 0,
            g.num_heights() == max_height,
            g.queues() == Seq::new(max_height as nat, |h: int| Seq::<usize>::empty()),
            g.free_list() == Seq::<usize>::empty(),
            g.graph_token() == token,
    {
        proof {
            reveal(Graph2::lists_wf);
            reveal(Graph2::loc_wf);
            reveal(Graph2::nodes_wf);
        }
        let recalc_queues: Vec<Option<usize>> = vec![None; max_height];
        let g = Graph2 {
            nodes: Vec::new(),
            token,
            recalc_queues,
            recalc_min_height: max_height,
            recalc_max_height: 0,
            free_head: None,
            queues: Ghost(Seq::new(max_height as nat, |h: int| Seq::<usize>::empty())),
            free_list: Ghost(Seq::empty()),
            loc: Ghost(Seq::empty()),
        };
        assert(g.lists_wf());
        assert(g.loc_wf());
        g
    }

    /// The number of heights that have a queue.
    pub fn max_height(&self) -> (n: usize)
        ensures
            n == self.num_heights(),
    {
        self.recalc_queues.len()
    }

    /// Looks up the node a key names, if the key belongs to this graph.
    pub fn get(&self, key: NodeKey) -> (r: Option<NodeGuard>)
        ensures
            r matches Some(g) ==> g.index() == key.index() && self.valid(g),
            r is None <==> (key.graph_token() != self.graph_token() || key.index() >= self.len()),
    {
        proof {
            reveal(Graph2::lists_wf);
            reveal(Graph2::loc_wf);
            reveal(Graph2::nodes_wf);
        }
        if key.token != self.token || key.ptr >= self.nodes.len() {
            None
        } else {
            Some(NodeGuard(key.ptr))
        }
    }

    /// The node behind a guard.
    pub fn node_ref(&self, g: NodeGuard) -> (n: &Node)
        requires
            self.valid(g),
        ensures
            *n == self.node(g),
    {
        proof {
            reveal(Graph2::lists_wf);
            reveal(Graph2::loc_wf);
            reveal(Graph2::nodes_wf);
        }
        &self.nodes[g.0]
    }

    /// The key of a node.
    pub fn key(&self, g: NodeGuard) -> (k: NodeKey)
        ensures
            k.index() == g.index(),
            k.graph_token() == self.graph_token(),
    {
        proof {
            reveal(Graph2::lists_wf);
            reveal(Graph2::loc_wf);
            reveal(Graph2::nodes_wf);
        }
        NodeKey { ptr: g.0, token: self.token }
    }

    /// The queues stay well linked when the nodes in them keep their links.
    proof fn lemma_queues_frame(old_g: &Self, new_g: &Self)
        requires
            old_g.shape_wf(),
            old_g.lists_wf(),
            old_g.loc_wf(),
            new_g.queues@ == old_g.queues@,
            new_g.recalc_queues@ == old_g.recalc_queues@,
            new_g.nodes@.len() >= old_g.nodes@.len(),
            forall|x: int|
                0 <= x < old_g.nodes@.len() && old_g.loc@[x] >= 0 ==> (#[trigger] new_g.nodes@[x]).ptrs.next
                    == old_g.nodes@[x].ptrs.next && new_g.nodes@[x].ptrs.prev == old_g.nodes@[x].ptrs.prev,
        ensures
            forall|h: int|
                0 <= h < new_g.queues@.len() ==> linked(
                    new_g.nodes@,
                    new_g.recalc_queues@[h],
                    #[trigger] new_g.queues@[h],
                ),
    {
        reveal(Graph2::lists_wf);
        reveal(Graph2::loc_wf);
        reveal(Graph2::nodes_wf);
        assert forall|h: int| 0 <= h < new_g.queues@.len() implies linked(
            new_g.nodes@,
            new_g.recalc_queues@[h],
            #[trigger] new_g.queues@[h],
        ) by {
            let q = old_g.queues@[h];
            assert(linked(old_g.nodes@, old_g.recalc_queues@[h], q));
            assert forall|i: int| 0 <= i < q.len() implies (#[trigger] new_g.nodes@[q[i] as int]).ptrs.next
                == old_g.nodes@[q[i] as int].ptrs.next && new_g.nodes@[q[i] as int].ptrs.prev
                == old_g.nodes@[q[i] as int].ptrs.prev by {
                assert(old_g.loc@[q[i] as int] == h);
            }
            lemma_linked_frame(old_g.nodes@, new_g.nodes@, old_g.recalc_queues@[h], q);
        }
    }

    /// The free list stays well linked when the nodes in it keep their links.
    proof fn lemma_free_frame(old_g: &Self, new_g: &Self)
        requires
            old_g.lists_wf(),
            old_g.loc_wf(),
            new_g.free_list@ == old_g.free_list@,
            new_g.free_head == old_g.free_head,
            new_g.nodes@.len() >= old_g.nodes@.len(),
            forall|x: int|
                0 <= x < old_g.nodes@.len() && old_g.loc@[x] == -2 ==> (#[trigger] new_g.nodes@[x]).ptrs.next
                    == old_g.nodes@[x].ptrs.next && new_g.nodes@[x].ptrs.prev == old_g.nodes@[x].ptrs.prev,
        ensures
            linked(new_g.nodes@, new_g.free_head, new_g.free_list@),
    {
        reveal(Graph2::lists_wf);
        reveal(Graph2::loc_wf);
        reveal(Graph2::nodes_wf);
        let q = old_g.free_list@;
        assert forall|i: int| 0 <= i < q.len() implies (#[trigger] new_g.nodes@[q[i] as int]).ptrs.next
            == old_g.nodes@[q[i] as int].ptrs.next && new_g.nodes@[q[i] as int].ptrs.prev
            == old_g.nodes@[q[i] as int].ptrs.prev by {
            assert(old_g.loc@[q[i] as int] == -2);
        }
        lemma_linked_frame(old_g.nodes@, new_g.nodes@, old_g.free_head, q);
    }

    /// Edges and tokens stay sound when only nodes at `changed` are touched and
    /// these keep sound edges.
    proof fn lemma_nodes_frame(old_g: &Self, new_g: &Self)
        requires
            old_g.nodes_wf(),
            new_g.token == old_g.token,
            new_g.nodes@.len() >= old_g.nodes@.len(),
            forall|x: int|
                0 <= x < new_g.nodes@.len() ==> (x < old_g.nodes@.len() && (#[trigger] new_g.nodes@[x]).ptrs.clean_parent0
                    == old_g.nodes@[x].ptrs.clean_parent0 && new_g.nodes@[x].ptrs.clean_parents@
                    == old_g.nodes@[x].ptrs.clean_parents@ && new_g.nodes@[x].ptrs.necessary_children@
                    == old_g.nodes@[x].ptrs.necessary_children@ && new_g.nodes@[x].token == old_g.nodes@[x].token)
                    || (edges_in(new_g.nodes@[x], new_g.nodes@.len()) && new_g.nodes@[x].token == new_g.token),
        ensures
            new_g.nodes_wf(),
    {
        reveal(Graph2::lists_wf);
        reveal(Graph2::loc_wf);
        reveal(Graph2::nodes_wf);
        assert forall|x: int| 0 <= x < new_g.nodes@.len() implies edges_in(
            #[trigger] new_g.nodes@[x],
            new_g.nodes@.len(),
        ) && new_g.nodes@[x].token == new_g.token by {
            if x < old_g.nodes@.len() {
                assert(edges_in(old_g.nodes@[x], old_g.nodes@.len()));
            }
        }
    }

    /// Changing nodes in ways the lists do not rely on keeps the graph sound.
    proof fn lemma_local_change(old_g: &Self, new_g: &Self)
        requires
            old_g.wf(),
            new_g.token == old_g.token,
            new_g.recalc_queues@ == old_g.recalc_queues@,
            new_g.queues@ == old_g.queues@,
            new_g.free_list@ == old_g.free_list@,
            new_g.free_head == old_g.free_head,
            new_g.loc@ == old_g.loc@,
            new_g.recalc_min_height == old_g.recalc_min_height,
            new_g.recalc_max_height == old_g.recalc_max_height,
            new_g.nodes@.len() == old_g.nodes@.len(),
            forall|y: int|
                0 <= y < old_g.nodes@.len() ==> same_links(#[trigger] new_g.nodes@[y], old_g.nodes@[y])
                    && edges_in(new_g.nodes@[y], new_g.nodes@.len()),
        ensures
            new_g.wf(),
    {
        reveal(Graph2::lists_wf);
        reveal(Graph2::loc_wf);
        reveal(Graph2::nodes_wf);
        Self::lemma_queues_frame(old_g, new_g);
        Self::lemma_free_frame(old_g, new_g);
        assert(new_g.lists_wf());
        assert forall|y: int| 0 <= y < new_g.nodes@.len() implies #[trigger] new_g.loc_ok(y) by {
            assert(old_g.loc_ok(y));
            assert(same_links(new_g.nodes@[y], old_g.nodes@[y]));
        }
        assert(new_g.loc_wf());
    }

    #[verifier::rlimit(60)]
    #[verifier::spinoff_prover]
    /// Adds a node for a new computation, reusing the most recently freed slot
    /// if there is one, and returns the first handle on it.
    pub fn insert(&mut self) -> (h: AnchorHandle)
        requires
            old(self).wf(),
        ensures
            final(self).wf(),
            h.key().graph_token() == final(self).graph_token(),
            h.key().index() < final(self).len(),
            final(self).graph_token() == old(self).graph_token(),
            final(self).num_heights() == old(self).num_heights(),
            final(self).queues() == old(self).queues(),
            old(self).free_list().len() > 0 ==> {
                &&& h.key().index() == old(self).free_list()[0]
                &&& final(self).free_list() == old(self).free_list().drop_first()
                &&& final(self).len() == old(self).len()
            },
            old(self).free_list().len() == 0 ==> {
                &&& h.key().index() == old(self).len()
                &&& final(self).free_list() == old(self).free_list()
                &&& final(self).len() == old(self).len() + 1
            },
            is_fresh(final(self).nodes()[h.key().index() as int], final(self).graph_token()),
            forall|i: int|
                0 <= i < old(self).len() && i != h.key().index() ==> node_data_eq(
                    #[trigger] final(self).nodes()[i],
                    old(self).nodes()[i],
                ) && final(self).nodes()[i].ptrs.recalc_state == old(self).nodes()[i].ptrs.recalc_state,
    {
        proof {
            reveal(Graph2::lists_wf);
            reveal(Graph2::loc_wf);
            reveal(Graph2::nodes_wf);
        }
        let fresh = Node {
            observed: false,
            visited: false,
            necessary_count: 0,
            token: self.token,
            last_ready: None,
            last_update: None,
            alive: true,
            ptrs: NodePtrs {
                clean_parent0: None,
                clean_parents: Vec::new(),
                next: None,
                prev: None,
                recalc_state: RecalcState::Needed,
                necessary_children: Vec::new(),
                height: 0,
                handle_count: 1,
            },
        };
        let ghost old_g = *self;
        if let Some(f) = self.free_head {
            let ghost fl = self.free_list@;
            assert(fl[0] == f);
            let next = self.nodes[f].ptrs.next;
            self.free_head = next;
            if let Some(n2) = next {
                assert(fl[1] == n2);
                self.nodes[n2].ptrs.prev = None;
            }
            self.nodes[f] = fresh;
            proof {
                self.free_list@ = fl.drop_first();
                self.loc@ = self.loc@.update(f as int, -1);
                Self::lemma_queues_frame(&old_g, self);
                Self::lemma_nodes_frame(&old_g, self);
                assert(linked(self.nodes@, self.free_head, self.free_list@));
                assert(self.lists_wf());
                assert forall|x: int| 0 <= x < self.nodes@.len() implies #[trigger] self.loc_ok(x) by {
                    assert(old_g.loc_ok(x));
                    let l = self.loc@[x];
                    if x != f as int && l == -2 {
                        assert(fl.contains(x as usize));
                        let k = choose|k: int| 0 <= k < fl.len() && fl[k] == x as usize;
                        assert(k != 0);
                        assert(self.free_list@[k - 1] == x as usize);
                    }
                }
                assert(self.loc_wf());
            }
            AnchorHandle { num: NodeKey { ptr: f, token: self.token } }
        } else {
            let n = self.nodes.len();
            self.nodes.push(fresh);
            let _len = self.nodes.len();
            proof {
                self.loc@ = self.loc@.push(-1);
                Self::lemma_queues_frame(&old_g, self);
                Self::lemma_free_frame(&old_g, self);
                Self::lemma_nodes_frame(&old_g, self);
                assert(self.lists_wf());
                assert forall|x: int| 0 <= x < self.nodes@.len() implies #[trigger] self.loc_ok(x) by {
                    if x < n {
                        assert(old_g.loc_ok(x));
                    }
                }
                assert(self.loc_wf());
            }
            AnchorHandle { num: NodeKey { ptr: n, token: self.token } }
        }
    }

    /// Pushing node `x` (in no list) on the front of queue `h` keeps the graph sound.
    proof fn lemma_queue_push(old_g: &Self, new_g: &Self, x: usize, h: int)
        requires
            old_g.wf(),
            0 <= x < old_g.nodes@.len(),
            old_g.loc@[x as int] == -1,
            0 <= h < old_g.queues@.len(),
            old_g.nodes@[x as int].ptrs.height == h,
            new_g.token == old_g.token,
            new_g.nodes@.len() == old_g.nodes@.len(),
            new_g.recalc_queues@ == old_g.recalc_queues@.update(h, Some(x)),
            new_g.queues@ == old_g.queues@.update(h, seq![x] + old_g.queues@[h]),
            new_g.loc@ == old_g.loc@.update(x as int, h),
            new_g.free_list@ == old_g.free_list@,
            new_g.free_head == old_g.free_head,
            new_g.recalc_min_height <= old_g.recalc_min_height,
            new_g.recalc_max_height >= old_g.recalc_max_height,
            new_g.recalc_min_height <= h <= new_g.recalc_max_height,
            new_g.recalc_max_height < new_g.recalc_queues@.len(),
            forall|y: int|
                0 <= y < old_g.nodes@.len() && y != x && Some(y as usize) != old_g.recalc_queues@[h]
                    ==> #[trigger] new_g.nodes@[y] == old_g.nodes@[y],
            node_data_eq(new_g.nodes@[x as int], old_g.nodes@[x as int]),
            new_g.nodes@[x as int].ptrs.next == old_g.recalc_queues@[h],
            new_g.nodes@[x as int].ptrs.prev is None,
            new_g.nodes@[x as int].ptrs.recalc_state == RecalcState::Pending,
            old_g.recalc_queues@[h] matches Some(hd) ==> {
                &&& node_data_eq(new_g.nodes@[hd as int], old_g.nodes@[hd as int])
                &&& new_g.nodes@[hd as int].ptrs.next == old_g.nodes@[hd as int].ptrs.next
                &&& new_g.nodes@[hd as int].ptrs.prev == Some(x)
                &&& new_g.nodes@[hd as int].ptrs.recalc_state == old_g.nodes@[hd as int].ptrs.recalc_state
            },
        ensures
            new_g.wf(),
    {
        reveal(Graph2::lists_wf);
        reveal(Graph2::loc_wf);
        reveal(Graph2::nodes_wf);
        let q = old_g.queues@[h];
        assert(old_g.loc_ok(x as int));
        assert(linked(old_g.nodes@, old_g.recalc_queues@[h], q));
        if q.contains(x) {
            let k = choose|k: int| 0 <= k < q.len() && q[k] == x;
            assert(old_g.loc@[q[k] as int] == h);
        }
        assert forall|i: int| 1 <= i < q.len() implies (#[trigger] new_g.nodes@[q[i] as int]).ptrs.next
            == old_g.nodes@[q[i] as int].ptrs.next && new_g.nodes@[q[i] as int].ptrs.prev
            == old_g.nodes@[q[i] as int].ptrs.prev by {
            assert(q[i] != q[0]);
        }
        lemma_linked_push_front(old_g.nodes@, new_g.nodes@, q, x);
        assert forall|hh: int| 0 <= hh < new_g.queues@.len() implies linked(
            new_g.nodes@,
            new_g.recalc_queues@[hh],
            #[trigger] new_g.queues@[hh],
        ) by {
            if hh != h {
                let qq = old_g.queues@[hh];
                assert(linked(old_g.nodes@, old_g.recalc_queues@[hh], qq));
                assert forall|i: int| 0 <= i < qq.len() implies (#[trigger] new_g.nodes@[qq[i] as int]).ptrs.next
                    == old_g.nodes@[qq[i] as int].ptrs.next && new_g.nodes@[qq[i] as int].ptrs.prev
                    == old_g.nodes@[qq[i] as int].ptrs.prev by {
                    assert(old_g.loc@[qq[i] as int] == hh);
                    if q.len() > 0 {
                        assert(old_g.loc@[q[0] as int] == h);
                    }
                }
                lemma_linked_frame(old_g.nodes@, new_g.nodes@, old_g.recalc_queues@[hh], qq);
            }
        }
        assert forall|i: int| 0 <= i < old_g.free_list@.len() implies (#[trigger] new_g.nodes@[old_g.free_list@[i] as int])
            == old_g.nodes@[old_g.free_list@[i] as int] by {
            assert(old_g.loc@[old_g.free_list@[i] as int] == -2);
            if q.len() > 0 {
                assert(old_g.loc@[q[0] as int] == h);
            }
        }
        Self::lemma_free_frame(old_g, new_g);
        Self::lemma_nodes_frame(old_g, new_g);
        assert forall|hh: int|
            0 <= hh < new_g.queues@.len() && (#[trigger] new_g.queues@[hh]).len() > 0 implies new_g.recalc_min_height
            <= hh <= new_g.recalc_max_height by {
            if hh != h {
                assert(old_g.queues@[hh].len() > 0);
            }
        }
        assert(new_g.lists_wf());
        assert forall|hh: int, i: int|
            0 <= hh < new_g.queues@.len() && 0 <= i < new_g.queues@[hh].len() implies new_g.loc@[#[trigger] new_g.queues@[hh][i] as int] == hh by {
            if hh == h && i > 0 {
                assert(new_g.queues@[hh][i] == q[i - 1]);
            }
        }
        assert forall|y: int| 0 <= y < new_g.nodes@.len() implies #[trigger] new_g.loc_ok(y) by {
            assert(old_g.loc_ok(y));
            let l = new_g.loc@[y];
            if y != x as int && l == h {
                let k = choose|k: int| 0 <= k < q.len() && q[k] == y as usize;
                assert(new_g.queues@[l][k + 1] == y as usize);
            }
            if q.len() > 0 && y == q[0] as int {
                assert(old_g.loc@[q[0] as int] == h);
            }
        }
        assert(new_g.loc_wf());
    }

    /// Taking the head off queue `h` keeps the graph sound; the head ends up in no list.
    proof fn lemma_queue_pop(old_g: &Self, new_g: &Self, h: int)
        requires
            old_g.wf(),
            0 <= h < old_g.queues@.len(),
            old_g.queues@[h].len() > 0,
            new_g.token == old_g.token,
            new_g.nodes@.len() == old_g.nodes@.len(),
            new_g.recalc_queues@ == old_g.recalc_queues@.update(h, old_g.nodes@[old_g.queues@[h][0] as int].ptrs.next),
            new_g.queues@ == old_g.queues@.update(h, old_g.queues@[h].drop_first()),
            new_g.loc@ == old_g.loc@.update(old_g.queues@[h][0] as int, -1),
            new_g.free_list@ == old_g.free_list@,
            new_g.free_head == old_g.free_head,
            new_g.recalc_min_height == old_g.recalc_min_height,
            new_g.recalc_max_height == old_g.recalc_max_height,
            ({
                let x = old_g.queues@[h][0];
                let nx = old_g.nodes@[x as int].ptrs.next;
                &&& forall|y: int|
                    0 <= y < old_g.nodes@.len() && y != x && Some(y as usize) != nx ==> #[trigger] new_g.nodes@[y]
                        == old_g.nodes@[y]
                &&& node_data_eq(new_g.nodes@[x as int], old_g.nodes@[x as int])
                &&& new_g.nodes@[x as int].ptrs.next is None
                &&& new_g.nodes@[x as int].ptrs.prev is None
                &&& new_g.nodes@[x as int].ptrs.recalc_state == RecalcState::Ready
                &&& nx matches Some(n2) ==> {
                    &&& node_data_eq(new_g.nodes@[n2 as int], old_g.nodes@[n2 as int])
                    &&& new_g.nodes@[n2 as int].ptrs.next == old_g.nodes@[n2 as int].ptrs.next
                    &&& new_g.nodes@[n2 as int].ptrs.prev is None
                    &&& new_g.nodes@[n2 as int].ptrs.recalc_state == old_g.nodes@[n2 as int].ptrs.recalc_state
                }
            }),
        ensures
            new_g.wf(),
    {
        reveal(Graph2::lists_wf);
        reveal(Graph2::loc_wf);
        reveal(Graph2::nodes_wf);
        let q = old_g.queues@[h];
        let x = q[0];
        assert(linked(old_g.nodes@, old_g.recalc_queues@[h], q));
        assert forall|i: int| 2 <= i < q.len() implies (#[trigger] new_g.nodes@[q[i] as int]).ptrs.next
            == old_g.nodes@[q[i] as int].ptrs.next && new_g.nodes@[q[i] as int].ptrs.prev
            == old_g.nodes@[q[i] as int].ptrs.prev by {
            assert(q[i] != q[0] && q[i] != q[1]);
        }
        lemma_linked_pop_front(old_g.nodes@, new_g.nodes@, old_g.recalc_queues@[h], q);
        assert forall|hh: int| 0 <= hh < new_g.queues@.len() implies linked(
            new_g.nodes@,
            new_g.recalc_queues@[hh],
            #[trigger] new_g.queues@[hh],
        ) by {
            if hh != h {
                let qq = old_g.queues@[hh];
                assert(linked(old_g.nodes@, old_g.recalc_queues@[hh], qq));
                assert forall|i: int| 0 <= i < qq.len() implies (#[trigger] new_g.nodes@[qq[i] as int]).ptrs.next
                    == old_g.nodes@[qq[i] as int].ptrs.next && new_g.nodes@[qq[i] as int].ptrs.prev
                    == old_g.nodes@[qq[i] as int].ptrs.prev by {
                    assert(old_g.loc@[qq[i] as int] == hh);
                    assert(old_g.loc@[q[0] as int] == h);
                    if q.len() > 1 {
                        assert(old_g.loc@[q[1] as int] == h);
                    }
                }
                lemma_linked_frame(old_g.nodes@, new_g.nodes@, old_g.recalc_queues@[hh], qq);
            }
        }
        assert forall|i: int| 0 <= i < old_g.free_list@.len() implies (#[trigger] new_g.nodes@[old_g.free_list@[i] as int])
            == old_g.nodes@[old_g.free_list@[i] as int] by {
            assert(old_g.loc@[old_g.free_list@[i] as int] == -2);
            assert(old_g.loc@[q[0] as int] == h);
            if q.len() > 1 {
                assert(old_g.loc@[q[1] as int] == h);
            }
        }
        Self::lemma_free_frame(old_g, new_g);
        Self::lemma_nodes_frame(old_g, new_g);
        assert forall|hh: int|
            0 <= hh < new_g.queues@.len() && (#[trigger] new_g.queues@[hh]).len() > 0 implies new_g.recalc_min_height
            <= hh <= new_g.recalc_max_height by {
            assert(old_g.queues@[hh].len() > 0);
        }
        assert(new_g.lists_wf());
        assert forall|hh: int, i: int|
            0 <= hh < new_g.queues@.len() && 0 <= i < new_g.queues@[hh].len() implies new_g.loc@[#[trigger] new_g.queues@[hh][i] as int] == hh by {
            if hh == h {
                assert(new_g.queues@[hh][i] == q[i + 1]);
                assert(q[i + 1] != q[0]);
            }
        }
        assert forall|y: int| 0 <= y < new_g.nodes@.len() implies #[trigger] new_g.loc_ok(y) by {
            assert(old_g.loc_ok(y));
            let l = new_g.loc@[y];
            if y != x as int && l == h {
                let k = choose|k: int| 0 <= k < q.len() && q[k] == y as usize;
                assert(k != 0);
                assert(new_g.queues@[l][k - 1] == y as usize);
            }
            if q.len() > 1 && y == q[1] as int {
                assert(old_g.loc@[q[1] as int] == h);
            }
        }
        assert(new_g.loc_wf());
    }

    /// Like `queue_recalc`, but refuses a node to be queued at a height with no
    /// queue.
    pub(crate) fn try_queue_recalc(&mut self, node: NodeGuard) -> (r: Result<(), GraphError>)
        requires
            old(self).wf(),
            old(self).valid(node),
        ensures
            final(self).wf(),
            final(self).graph_token() == old(self).graph_token(),
            final(self).num_heights() == old(self).num_heights(),
            final(self).free_list() == old(self).free_list(),
            data_unchanged(old(self).nodes(), final(self).nodes()),
            states_unchanged_except(old(self).nodes(), final(self).nodes(), node.index()),
            ({
                let n = old(self).node(node);
                if n.ptrs.recalc_state == RecalcState::Pending {
                    r is Ok && final(self).nodes() == old(self).nodes() && final(self).queues() == old(self).queues()
                } else if !n.alive {
                    r == Err::<(), GraphError>(GraphError::NodeFreed) && final(self).nodes() == old(self).nodes()
                        && final(self).queues() == old(self).queues()
                } else if n.ptrs.height >= old(self).num_heights() {
                    r == Err::<(), GraphError>(GraphError::TooLargeHeight) && final(self).nodes() == old(self).nodes()
                        && final(self).queues() == old(self).queues()
                } else {
                    &&& r is Ok
                    &&& final(self).node(node).ptrs.recalc_state == RecalcState::Pending
                    &&& final(self).queues() == old(self).queues().update(
                        n.ptrs.height as int,
                        seq![node.index() as usize] + old(self).queues()[n.ptrs.height as int],
                    )
                }
            }),
    {
        let x = node.0;
        if self.nodes[x].ptrs.recalc_state != RecalcState::Pending && self.nodes[x].alive
            && self.nodes[x].ptrs.height >= self.recalc_queues.len() {
            return Err(GraphError::TooLargeHeight);
        }
        self.queue_recalc(node)
    }

    /// Puts a node in the queue of its height, unless it is already waiting there.
    /// A node to be queued must sit below the number of heights.
    pub fn queue_recalc(&mut self, node: NodeGuard) -> (r: Result<(), GraphError>)
        requires
            old(self).wf(),
            old(self).valid(node),
            old(self).node(node).ptrs.recalc_state != RecalcState::Pending && old(self).node(node).alive
                ==> old(self).node(node).ptrs.height < old(self).num_heights(),
        ensures
            final(self).wf(),
            final(self).graph_token() == old(self).graph_token(),
            final(self).num_heights() == old(self).num_heights(),
            final(self).free_list() == old(self).free_list(),
            data_unchanged(old(self).nodes(), final(self).nodes()),
            states_unchanged_except(old(self).nodes(), final(self).nodes(), node.index()),
            ({
                let n = old(self).node(node);
                if n.ptrs.recalc_state == RecalcState::Pending {
                    r is Ok && final(self).nodes() == old(self).nodes() && final(self).queues() == old(self).queues()
                } else if !n.alive {
                    r == Err::<(), GraphError>(GraphError::NodeFreed) && final(self).nodes() == old(self).nodes()
                        && final(self).queues() == old(self).queues()
                } else {
                    &&& r is Ok
                    &&& final(self).node(node).ptrs.recalc_state == RecalcState::Pending
                    &&& final(self).queues() == old(self).queues().update(
                        n.ptrs.height as int,
                        seq![node.index() as usize] + old(self).queues()[n.ptrs.height as int],
                    )
                }
            }),
    {
        proof {
            reveal(Graph2::lists_wf);
            reveal(Graph2::loc_wf);
            reveal(Graph2::nodes_wf);
        }
        let x = node.0;
        if self.nodes[x].ptrs.recalc_state == RecalcState::Pending {
            return Ok(());
        }
        if !self.nodes[x].alive {
            return Err(GraphError::NodeFreed);
        }
        let h = self.nodes[x].ptrs.height;
        let ghost old_g = *self;
        proof {
            assert(self.loc_ok(x as int));
            assert(linked(self.nodes@, self.recalc_queues@[h as int], self.queues@[h as int]));
        }
        self.nodes[x].ptrs.recalc_state = RecalcState::Pending;
        if let Some(old_head) = self.recalc_queues[h] {
            self.nodes[old_head].ptrs.prev = Some(x);
            self.nodes[x].ptrs.next = Some(old_head);
        } else {
            if self.recalc_min_height > h {
                self.recalc_min_height = h;
            }
            if self.recalc_max_height < h {
                self.recalc_max_height = h;
            }
        }
        self.recalc_queues[h] = Some(x);
        proof {
            let q = old_g.queues@[h as int];
            if q.len() > 0 {
                assert(old_g.recalc_min_height <= h <= old_g.recalc_max_height);
            }
            self.queues@ = self.queues@.update(h as int, seq![x] + q);
            self.loc@ = self.loc@.update(x as int, h as int);
            Self::lemma_queue_push(&old_g, self, x, h as int);
        }
        Ok(())
    }

    /// Takes the head of the lowest non-empty queue and marks it ready,
    /// returning it with the height of its queue.
    pub fn recalc_pop_next(&mut self) -> (r: Option<(usize, NodeGuard)>)
        requires
            old(self).wf(),
            old(self).num_heights() > 0,
        ensures
            final(self).wf(),
            final(self).graph_token() == old(self).graph_token(),
            final(self).num_heights() == old(self).num_heights(),
            final(self).free_list() == old(self).free_list(),
            data_unchanged(old(self).nodes(), final(self).nodes()),
            r is None <==> old(self).queues_empty(),
            r is None ==> final(self).nodes() == old(self).nodes() && final(self).queues() == old(self).queues(),
            r matches Some((h, g)) ==> {
                &&& h < old(self).num_heights()
                &&& old(self).queues()[h as int].len() > 0
                &&& forall|k: int| 0 <= k < h ==> (#[trigger] old(self).queues()[k]).len() == 0
                &&& g.index() == old(self).queues()[h as int][0]
                &&& final(self).valid(g)
                &&& final(self).node(g).ptrs.height >= h
                &&& final(self).queues() == old(self).queues().update(h as int, old(self).queues()[h as int].drop_first())
                &&& final(self).node(g).ptrs.recalc_state == RecalcState::Ready
                &&& final(self).node(g).ptrs.prev is None && final(self).node(g).ptrs.next is None
                &&& states_unchanged_except(old(self).nodes(), final(self).nodes(), g.index())
            },
    {
        proof {
            reveal(Graph2::lists_wf);
            reveal(Graph2::loc_wf);
            reveal(Graph2::nodes_wf);
        }
        while self.recalc_min_height <= self.recalc_max_height
            invariant
                self.wf(),
                self.nodes@ == old(self).nodes@,
                self.queues@ == old(self).queues@,
                self.free_list@ == old(self).free_list@,
                self.recalc_queues@ == old(self).recalc_queues@,
                self.token == old(self).token,
                self.recalc_queues@.len() > 0,
                self.recalc_max_height == old(self).recalc_max_height,
                forall|k: int| 0 <= k < self.recalc_min_height ==> (#[trigger] self.queues@[k]).len() == 0,
            decreases self.recalc_queues@.len() - self.recalc_min_height,
        {
            proof {
                reveal(Graph2::lists_wf);
                reveal(Graph2::loc_wf);
                reveal(Graph2::nodes_wf);
            }
            let h = self.recalc_min_height;
            assert(linked(self.nodes@, self.recalc_queues@[h as int], self.queues@[h as int]));
            if let Some(ptr) = self.recalc_queues[h] {
                let ghost old_g = *self;
                let ghost q = self.queues@[h as int];
                assert(q[0] == ptr);
                let next = self.nodes[ptr].ptrs.next;
                self.recalc_queues[h] = next;
                if let Some(n2) = next {
                    assert(q[1] == n2);
                    self.nodes[n2].ptrs.prev = None;
                }
                self.nodes[ptr].ptrs.prev = None;
                self.nodes[ptr].ptrs.next = None;
                self.nodes[ptr].ptrs.recalc_state = RecalcState::Ready;
                proof {
                    self.queues@ = self.queues@.update(h as int, q.drop_first());
                    self.loc@ = self.loc@.update(ptr as int, -1);
                    Self::lemma_queue_pop(&old_g, self, h as int);
                    assert(old(self).queues()[h as int].len() > 0);
                    assert(old_g.loc@[q[0] as int] == h as int);
                    assert(old_g.loc_ok(ptr as int));
                }
                return Some((h, NodeGuard(ptr)));
            } else {
                let ghost old_g = *self;
                self.recalc_min_height = h + 1;
                proof {
                    assert(self.lists_wf());
                    assert forall|y: int| 0 <= y < self.nodes@.len() implies #[trigger] self.loc_ok(y) by {
                        assert(old_g.loc_ok(y));
                    }
                }
            }
        }
        let ghost old_g = *self;
        self.recalc_max_height = 0;
        proof {
            assert forall|k: int| 0 <= k < self.queues@.len() implies (#[trigger] self.queues@[k]).len() == 0 by {
                if self.queues@[k].len() > 0 {
                    assert(self.recalc_min_height <= k <= old_g.recalc_max_height);
                }
            }
            assert(self.lists_wf());
            assert forall|y: int| 0 <= y < self.nodes@.len() implies #[trigger] self.loc_ok(y) by {
                assert(old_g.loc_ok(y));
            }
        }
        None
    }

    /// Marks a node as observed or not.
    pub fn set_observed(&mut self, node: NodeGuard, observed: bool)
        requires
            old(self).wf(),
            old(self).valid(node),
        ensures
            final(self).wf(),
            final(self).same_lists(*old(self)),
            final(self).nodes() == old(self).nodes().update(node.index(), Node { observed, ..old(self).node(node) }),
    {
        proof {
            reveal(Graph2::lists_wf);
            reveal(Graph2::loc_wf);
            reveal(Graph2::nodes_wf);
        }
        let ghost old_g = *self;
        self.nodes[node.0].observed = observed;
        proof {
            Self::lemma_local_change(&old_g, self);
        }
    }

    /// The queues, the free list and the token of the two graphs agree.
    pub open spec fn same_lists(&self, other: Self) -> bool {
        &&& self.graph_token() == other.graph_token()
        &&& self.num_heights() == other.num_heights()
        &&& self.queues() == other.queues()
        &&& self.free_list() == other.free_list()
    }

    /// Records the generations at which a node last became ready and last changed.
    pub fn set_generations(&mut self, node: NodeGuard, last_ready: Option<Generation>, last_update: Option<Generation>)
        requires
            old(self).wf(),
            old(self).valid(node),
        ensures
            final(self).wf(),
            final(self).same_lists(*old(self)),
            final(self).nodes() == old(self).nodes().update(
                node.index(),
                Node { last_ready, last_update, ..old(self).node(node) },
            ),
    {
        proof {
            reveal(Graph2::lists_wf);
            reveal(Graph2::loc_wf);
            reveal(Graph2::nodes_wf);
        }
        let ghost old_g = *self;
        self.nodes[node.0].last_ready = last_ready;
        self.nodes[node.0].last_update = last_update;
        proof {
            Self::lemma_local_change(&old_g, self);
        }
    }

    /// Adds a parent at the end of a node's clean parents.
    fn push_clean_parent(&mut self, child: usize, parent: usize)
        requires
            old(self).wf(),
            child < old(self).len(),
            parent < old(self).len(),
        ensures
            final(self).wf(),
            final(self).same_lists(*old(self)),
            final(self).len() == old(self).len(),
            parents_of(final(self).nodes()[child as int]) == parents_of(old(self).nodes()[child as int]).push(parent),
            final(self).nodes()[child as int].ptrs.next == old(self).nodes()[child as int].ptrs.next,
            forall|y: int| 0 <= y < old(self).len() && y != child ==> #[trigger] final(self).nodes()[y] == old(self).nodes()[y],
            node_data_eq(
                final(self).nodes()[child as int],
                Node {
                    ptrs: NodePtrs {
                        clean_parent0: final(self).nodes()[child as int].ptrs.clean_parent0,
                        clean_parents: final(self).nodes()[child as int].ptrs.clean_parents,
                        ..old(self).nodes()[child as int].ptrs
                    },
                    ..old(self).nodes()[child as int]
                },
            ),
            final(self).nodes()[child as int].ptrs.recalc_state == old(self).nodes()[child as int].ptrs.recalc_state,
    {
        proof {
            reveal(Graph2::lists_wf);
            reveal(Graph2::loc_wf);
            reveal(Graph2::nodes_wf);
        }
        let ghost old_g = *self;
        proof {
            assert(edges_in(self.nodes@[child as int], self.nodes@.len()));
        }
        if self.nodes[child].ptrs.clean_parent0.is_none() {
            self.nodes[child].ptrs.clean_parent0 = Some(parent);
        } else {
            self.nodes[child].ptrs.clean_parents.push(parent);
        }
        proof {
            let n = self.nodes@[child as int];
            let o = old_g.nodes@[child as int];
            if o.ptrs.clean_parent0 is Some {
                assert(parents_of(n) =~= parents_of(o).push(parent));
            } else {
                assert(parents_of(n) =~= parents_of(o).push(parent));
            }
            Self::lemma_local_change(&old_g, self);
        }
    }

    /// Empties a node's clean parents, returning them first one first.
    fn take_clean_parents(&mut self, child: usize) -> (r: Vec<usize>)
        requires
            old(self).wf(),
            child < old(self).len(),
        ensures
            final(self).wf(),
            final(self).same_lists(*old(self)),
            final(self).len() == old(self).len(),
            r@ == parents_of(old(self).nodes()[child as int]),
            parents_of(final(self).nodes()[child as int]).len() == 0,
            forall|i: int| 0 <= i < r@.len() ==> #[trigger] r@[i] < old(self).len(),
            forall|y: int| 0 <= y < old(self).len() && y != child ==> #[trigger] final(self).nodes()[y] == old(self).nodes()[y],
            node_data_eq(
                final(self).nodes()[child as int],
                Node {
                    ptrs: NodePtrs {
                        clean_parent0: final(self).nodes()[child as int].ptrs.clean_parent0,
                        clean_parents: final(self).nodes()[child as int].ptrs.clean_parents,
                        ..old(self).nodes()[child as int].ptrs
                    },
                    ..old(self).nodes()[child as int]
                },
            ),
            final(self).nodes()[child as int].ptrs.recalc_state == old(self).nodes()[child as int].ptrs.recalc_state,
    {
        proof {
            reveal(Graph2::lists_wf);
            reveal(Graph2::loc_wf);
            reveal(Graph2::nodes_wf);
        }
        let ghost old_g = *self;
        proof {
            assert(edges_in(self.nodes@[child as int], self.nodes@.len()));
        }
        let first = self.nodes[child].ptrs.clean_parent0;
        self.nodes[child].ptrs.clean_parent0 = None;
        let mut rest: Vec<usize> = Vec::new();
        std::mem::swap(&mut rest, &mut self.nodes[child].ptrs.clean_parents);
        let mut out: Vec<usize> = Vec::new();
        if let Some(p) = first {
            out.push(p);
        }
        let mut i: usize = 0;
        while i < rest.len()
            invariant
                i <= rest@.len(),
                out@ == (match first {
                    Some(p) => seq![p] + rest@.subrange(0, i as int),
                    None => rest@.subrange(0, i as int),
                }),
            decreases rest@.len() - i,
        {
            out.push(rest[i]);
            i = i + 1;
            proof {
                match first {
                    Some(p) => {
                        assert(seq![p] + rest@.subrange(0, i as int) =~= (seq![p] + rest@.subrange(0, i - 1)).push(rest@[i - 1]));
                    },
                    None => {
                        assert(rest@.subrange(0, i as int) =~= rest@.subrange(0, i - 1).push(rest@[i - 1]));
                    },
                }
            }
        }
        proof {
            assert(rest@.subrange(0, rest@.len() as int) =~= rest@);
            assert(out@ =~= parents_of(old_g.nodes@[child as int]));
            let o = old_g.nodes@[child as int];
            assert forall|k: int| 0 <= k < out@.len() implies #[trigger] out@[k] < old_g.nodes@.len() by {
                if o.ptrs.clean_parent0 is Some {
                    if k > 0 {
                        assert(out@[k] == o.ptrs.clean_parents@[k - 1]);
                    }
                }
                else {
                    assert(out@[k] == o.ptrs.clean_parents@[k]);
                }
            }
            Self::lemma_local_change(&old_g, self);
        }
        out
    }

    /// Adds `child` to the necessary children of `parent`, counting the new edge
    /// on `child`; nothing changes if the edge is already there.
    fn add_necessary_edge(&mut self, parent: usize, child: usize) -> (r: Result<(), GraphError>)
        requires
            old(self).wf(),
            parent < old(self).len(),
            child < old(self).len(),
        ensures
            final(self).wf(),
            final(self).same_lists(*old(self)),
            ({
                let old_list = old(self).nodes()[parent as int].ptrs.necessary_children@;
                let old_count = old(self).nodes()[child as int].necessary_count;
                if old_list.contains(child) {
                    r is Ok && final(self).nodes() == old(self).nodes()
                } else if old_count == usize::MAX {
                    r == Err::<(), GraphError>(GraphError::CountOverflow) && final(self).nodes() == old(self).nodes()
                } else {
                    &&& r is Ok
                    &&& final(self).len() == old(self).len()
                    &&& final(self).nodes()[parent as int].ptrs.necessary_children@.to_set() == old_list.to_set().insert(child)
                    &&& final(self).nodes()[parent as int].ptrs.necessary_children@.len() == old_list.len() + 1
                    &&& final(self).nodes()[child as int].necessary_count == old_count + 1
                    &&& forall|y: int|
                        0 <= y < old(self).len() && y != parent && y != child ==> #[trigger] final(self).nodes()[y]
                            == old(self).nodes()[y]
                    &&& parent != child ==> final(self).nodes()[parent as int] == Node {
                        ptrs: NodePtrs {
                            necessary_children: final(self).nodes()[parent as int].ptrs.necessary_children,
                            ..old(self).nodes()[parent as int].ptrs
                        },
                        ..old(self).nodes()[parent as int]
                    }
                    &&& parent != child ==> final(self).nodes()[child as int] == Node {
                        necessary_count: (old_count + 1) as usize,
                        ..old(self).nodes()[child as int]
                    }
                    &&& parent == child ==> final(self).nodes()[child as int] == Node {
                        necessary_count: final(self).nodes()[child as int].necessary_count,
                        ptrs: NodePtrs {
                            necessary_children: final(self).nodes()[child as int].ptrs.necessary_children,
                            ..old(self).nodes()[child as int].ptrs
                        },
                        ..old(self).nodes()[child as int]
                    }
                }
            }),
    {
        proof {
            reveal(Graph2::lists_wf);
            reveal(Graph2::loc_wf);
            reveal(Graph2::nodes_wf);
        }
        let ghost old_g = *self;
        proof {
            assert(edges_in(self.nodes@[parent as int], self.nodes@.len()));
        }
        match binary_search(&self.nodes[parent].ptrs.necessary_children, child) {
            Ok(_) => Ok(()),
            Err(i) => {
                if self.nodes[child].necessary_count == usize::MAX {
                    return Err(GraphError::CountOverflow);
                }
                self.nodes[parent].ptrs.necessary_children.insert(i, child);
                self.nodes[child].necessary_count = self.nodes[child].necessary_count + 1;
                proof {
                    let old_list = old_g.nodes@[parent as int].ptrs.necessary_children@;
                    let new_list = self.nodes@[parent as int].ptrs.necessary_children@;
                    assert(new_list == old_list.insert(i as int, child));
                    assert forall|a: int, b: int| 0 <= a < b < new_list.len() implies new_list[a] < new_list[b] by {
                        if b < i {
                        } else if a < i && b == i {
                        } else if a < i {
                            assert(new_list[b] == old_list[b - 1]);
                        } else if a == i {
                            assert(new_list[b] == old_list[b - 1]);
                        } else {
                            assert(new_list[a] == old_list[a - 1]);
                            assert(new_list[b] == old_list[b - 1]);
                        }
                    }
                    assert forall|k: int| 0 <= k < new_list.len() implies #[trigger] new_list[k] < self.nodes@.len() by {
                        if k > i {
                            assert(new_list[k] == old_list[k - 1]);
                        }
                    }
                    assert(new_list.to_set() =~= old_list.to_set().insert(child)) by {
                        assert forall|e: usize| new_list.to_set().contains(e) implies old_list.to_set().insert(child).contains(e) by {
                            let k = choose|k: int| 0 <= k < new_list.len() && new_list[k] == e;
                            if k < i {
                                assert(old_list[k] == e);
                            } else if k > i {
                                assert(old_list[k - 1] == e);
                            }
                        }
                        assert forall|e: usize| old_list.to_set().insert(child).contains(e) implies new_list.to_set().contains(e) by {
                            if e == child {
                                assert(new_list[i as int] == child);
                            } else {
                                let k = choose|k: int| 0 <= k < old_list.len() && old_list[k] == e;
                                if k < i {
                                    assert(new_list[k] == e);
                                } else {
                                    assert(new_list[k + 1] == e);
                                }
                            }
                        }
                    }
                    assert forall|y: int| 0 <= y < old_g.nodes@.len() implies same_links(
                        #[trigger] self.nodes@[y],
                        old_g.nodes@[y],
                    ) && edges_in(self.nodes@[y], self.nodes@.len()) by {
                        assert(edges_in(old_g.nodes@[y], old_g.nodes@.len()));
                    }
                    Self::lemma_local_change(&old_g, self);
                }
                Ok(())
            },
        }
    }

    /// Removes `child` from the necessary children of `parent`, uncounting the
    /// edge on `child`; nothing changes if there is no such edge.
    fn remove_necessary_edge(&mut self, parent: usize, child: usize) -> (r: Result<(), GraphError>)
        requires
            old(self).wf(),
            parent < old(self).len(),
            child < old(self).len(),
        ensures
            final(self).wf(),
            final(self).same_lists(*old(self)),
            ({
                let old_list = old(self).nodes()[parent as int].ptrs.necessary_children@;
                let old_count = old(self).nodes()[child as int].necessary_count;
                if !old_list.contains(child) {
                    r is Ok && final(self).nodes() == old(self).nodes()
                } else if old_count == 0 {
                    r == Err::<(), GraphError>(GraphError::CountUnderflow) && final(self).nodes() == old(self).nodes()
                } else {
                    &&& r is Ok
                    &&& final(self).len() == old(self).len()
                    &&& final(self).nodes()[parent as int].ptrs.necessary_children@.to_set() == old_list.to_set().remove(child)
                    &&& final(self).nodes()[parent as int].ptrs.necessary_children@.len() == old_list.len() - 1
                    &&& final(self).nodes()[child as int].necessary_count == old_count - 1
                    &&& forall|y: int|
                        0 <= y < old(self).len() && y != parent && y != child ==> #[trigger] final(self).nodes()[y]
                            == old(self).nodes()[y]
                    &&& parent != child ==> final(self).nodes()[parent as int] == Node {
                        ptrs: NodePtrs {
                            necessary_children: final(self).nodes()[parent as int].ptrs.necessary_children,
                            ..old(self).nodes()[parent as int].ptrs
                        },
                        ..old(self).nodes()[parent as int]
                    }
                    &&& parent != child ==> final(self).nodes()[child as int] == Node {
                        necessary_count: (old_count - 1) as usize,
                        ..old(self).nodes()[child as int]
                    }
                    &&& parent == child ==> final(self).nodes()[child as int] == Node {
                        necessary_count: final(self).nodes()[child as int].necessary_count,
                        ptrs: NodePtrs {
                            necessary_children: final(self).nodes()[child as int].ptrs.necessary_children,
                            ..old(self).nodes()[child as int].ptrs
                        },
                        ..old(self).nodes()[child as int]
                    }
                }
            }),
    {
        proof {
            reveal(Graph2::lists_wf);
            reveal(Graph2::loc_wf);
            reveal(Graph2::nodes_wf);
        }
        let ghost old_g = *self;
        proof {
            assert(edges_in(self.nodes@[parent as int], self.nodes@.len()));
        }
        match binary_search(&self.nodes[parent].ptrs.necessary_children, child) {
            Ok(i) => {
                if self.nodes[child].necessary_count == 0 {
                    return Err(GraphError::CountUnderflow);
                }
                self.nodes[parent].ptrs.necessary_children.remove(i);
                self.nodes[child].necessary_count = self.nodes[child].necessary_count - 1;
                proof {
                    let old_list = old_g.nodes@[parent as int].ptrs.necessary_children@;
                    let new_list = self.nodes@[parent as int].ptrs.necessary_children@;
                    assert(new_list == old_list.remove(i as int));
                    assert(new_list.to_set() =~= old_list.to_set().remove(child)) by {
                        assert forall|e: usize| new_list.to_set().contains(e) implies old_list.to_set().remove(child).contains(e) by {
                            let k = choose|k: int| 0 <= k < new_list.len() && new_list[k] == e;
                            if k < i {
                                assert(old_list[k] == e);
                                assert(old_list[k] < old_list[i as int]);
                            } else {
                                assert(old_list[k + 1] == e);
                                assert(old_list[i as int] < old_list[k + 1]);
                            }
                        }
                        assert forall|e: usize| old_list.to_set().remove(child).contains(e) implies new_list.to_set().contains(e) by {
                            let k = choose|k: int| 0 <= k < old_list.len() && old_list[k] == e;
                            assert(k != i);
                            if k < i {
                                assert(new_list[k] == e);
                            } else {
                                assert(new_list[k - 1] == e);
                            }
                        }
                    }
                    assert forall|a: int, b: int| 0 <= a < b < new_list.len() implies new_list[a] < new_list[b] by {
                        if a >= i {
                            assert(new_list[a] == old_list[a + 1]);
                        }
                        if b >= i {
                            assert(new_list[b] == old_list[b + 1]);
                        }
                    }
                    assert forall|k: int| 0 <= k < new_list.len() implies #[trigger] new_list[k] < self.nodes@.len() by {
                        if k >= i {
                            assert(new_list[k] == old_list[k + 1]);
                        }
                    }
                    assert forall|y: int| 0 <= y < old_g.nodes@.len() implies same_links(
                        #[trigger] self.nodes@[y],
                        old_g.nodes@[y],
                    ) && edges_in(self.nodes@[y], self.nodes@.len()) by {
                        assert(edges_in(old_g.nodes@[y], old_g.nodes@.len()));
                    }
                    Self::lemma_local_change(&old_g, self);
                }
                Ok(())
            },
            Err(_) => Ok(()),
        }
    }

    /// Taking node `x` out of the queue that holds it, at its place `k`, leaves
    /// every queue as it was but for `x`.
    proof fn lemma_queues_without(old_g: &Self, new_g: &Self, x: usize, k: int)
        requires
            old_g.wf(),
            0 <= x < old_g.nodes@.len(),
            ({
                let l = old_g.loc@[x as int];
                if l >= 0 {
                    let q = old_g.queues@[l];
                    &&& 0 <= k < q.len()
                    &&& q[k] == x
                    &&& new_g.queues@ == old_g.queues@.update(l, q.remove(k))
                } else {
                    new_g.queues@ == old_g.queues@
                }
            }),
        ensures
            queues_without(old_g.queues@, new_g.queues@, x),
    {
        reveal(queues_without);
        reveal(Graph2::loc_wf);
        let a = old_g.queues@;
        let l = old_g.loc@[x as int];
        assert(old_g.loc_ok(x as int));
        assert forall|h: int| 0 <= h < a.len() implies if (#[trigger] a[h]).contains(x) {
            exists|j: int| 0 <= j < a[h].len() && a[h][j] == x && new_g.queues@[h] == a[h].remove(j)
        } else {
            new_g.queues@[h] == a[h]
        } by {
            if a[h].contains(x) {
                let j = choose|j: int| 0 <= j < a[h].len() && a[h][j] == x;
                assert(old_g.loc@[a[h][j] as int] == h);
                assert(new_g.queues@[h] == a[h].remove(k));
            }
        }
    }

    /// Unlinking node `x` from the queue it waits in (if any) and pushing it on
    /// the front of the free list, as a dead node, keeps the graph sound.
    #[verifier::rlimit(60)]
    #[verifier::spinoff_prover]
    proof fn lemma_free_node(old_g: &Self, new_g: &Self, x: usize, k: int)
        requires
            old_g.wf(),
            0 <= x < old_g.nodes@.len(),
            old_g.nodes@[x as int].alive,
            new_g.token == old_g.token,
            new_g.nodes@.len() == old_g.nodes@.len(),
            new_g.recalc_min_height == old_g.recalc_min_height,
            new_g.recalc_max_height == old_g.recalc_max_height,
            new_g.loc@ == old_g.loc@.update(x as int, -2),
            new_g.free_list@ == seq![x] + old_g.free_list@,
            new_g.free_head == Some(x),
            ({
                let l = old_g.loc@[x as int];
                if l >= 0 {
                    let q = old_g.queues@[l];
                    &&& 0 <= k < q.len()
                    &&& q[k] == x
                    &&& new_g.queues@ == old_g.queues@.update(l, q.remove(k))
                    &&& new_g.recalc_queues@ == (if k == 0 {
                        old_g.recalc_queues@.update(l, old_g.nodes@[x as int].ptrs.next)
                    } else {
                        old_g.recalc_queues@
                    })
                    &&& (k > 0 ==> {
                        let p = q[k - 1];
                        &&& node_data_eq(new_g.nodes@[p as int], old_g.nodes@[p as int])
                        &&& new_g.nodes@[p as int].ptrs.recalc_state == old_g.nodes@[p as int].ptrs.recalc_state
                        &&& new_g.nodes@[p as int].ptrs.prev == old_g.nodes@[p as int].ptrs.prev
                        &&& new_g.nodes@[p as int].ptrs.next == (if k + 1 < q.len() { Some(q[k + 1]) } else { None })
                    })
                    &&& (k + 1 < q.len() ==> {
                        let n = q[k + 1];
                        &&& node_data_eq(new_g.nodes@[n as int], old_g.nodes@[n as int])
                        &&& new_g.nodes@[n as int].ptrs.recalc_state == old_g.nodes@[n as int].ptrs.recalc_state
                        &&& new_g.nodes@[n as int].ptrs.next == old_g.nodes@[n as int].ptrs.next
                        &&& new_g.nodes@[n as int].ptrs.prev == (if k > 0 { Some(q[k - 1]) } else { None })
                    })
                    &&& forall|y: int|
                        0 <= y < old_g.nodes@.len() && y != x && (k == 0 || y != q[k - 1]) && (k + 1 >= q.len() || y
                            != q[k + 1]) && Some(y as usize) != old_g.free_head ==> #[trigger] new_g.nodes@[y] == old_g.nodes@[y]
                } else {
                    &&& new_g.queues@ == old_g.queues@
                    &&& new_g.recalc_queues@ == old_g.recalc_queues@
                    &&& forall|y: int|
                        0 <= y < old_g.nodes@.len() && y != x && Some(y as usize) != old_g.free_head
                            ==> #[trigger] new_g.nodes@[y] == old_g.nodes@[y]
                }
            }),
            old_g.free_head matches Some(f) ==> {
                &&& node_data_eq(new_g.nodes@[f as int], old_g.nodes@[f as int])
                &&& new_g.nodes@[f as int].ptrs.recalc_state == old_g.nodes@[f as int].ptrs.recalc_state
                &&& new_g.nodes@[f as int].ptrs.next == old_g.nodes@[f as int].ptrs.next
                &&& new_g.nodes@[f as int].ptrs.prev == Some(x)
            },
            new_g.nodes@[x as int] == (Node {
                alive: false,
                ptrs: NodePtrs {
                    next: old_g.free_head,
                    prev: None,
                    handle_count: 0,
                    ..old_g.nodes@[x as int].ptrs
                },
                ..old_g.nodes@[x as int]
            }),
        ensures
            new_g.wf(),
            data_kept_except(old_g.nodes@, new_g.nodes@, x as int),
    {
        reveal(data_kept_except);
        assert forall|y: int| 0 <= y < old_g.nodes@.len() && y != x implies node_data_eq(
            #[trigger] new_g.nodes@[y],
            old_g.nodes@[y],
        ) && new_g.nodes@[y].ptrs.recalc_state == old_g.nodes@[y].ptrs.recalc_state by {
            if Some(y as usize) == old_g.free_head {
            } else if old_g.loc@[x as int] >= 0 {
                let q = old_g.queues@[old_g.loc@[x as int]];
                if k > 0 && y == q[k - 1] {
                } else if k + 1 < q.len() && y == q[k + 1] {
                } else {
                    assert(new_g.nodes@[y] == old_g.nodes@[y]);
                }
            } else {
                assert(new_g.nodes@[y] == old_g.nodes@[y]);
            }
        }
        reveal(Graph2::lists_wf);
        reveal(Graph2::loc_wf);
        reveal(Graph2::nodes_wf);
        let l = old_g.loc@[x as int];
        assert(old_g.loc_ok(x as int));
        let fl = old_g.free_list@;
        assert(linked(old_g.nodes@, old_g.free_head, fl));
        if fl.contains(x) {
            let j = choose|j: int| 0 <= j < fl.len() && fl[j] == x;
            assert(old_g.loc@[fl[j] as int] == -2);
        }
        if fl.len() > 0 {
            assert(old_g.loc@[fl[0] as int] == -2);
        }
        if l >= 0 {
            let q = old_g.queues@[l];
            assert(linked(old_g.nodes@, old_g.recalc_queues@[l], q));
            if k > 0 {
                assert(old_g.loc@[q[k - 1] as int] == l);
            }
            if k + 1 < q.len() {
                assert(old_g.loc@[q[k + 1] as int] == l);
            }
            assert forall|i: int|
                0 <= i < q.len() && i != k - 1 && i != k && i != k + 1 implies (#[trigger] new_g.nodes@[q[i] as int]).ptrs.next
                == old_g.nodes@[q[i] as int].ptrs.next && new_g.nodes@[q[i] as int].ptrs.prev
                == old_g.nodes@[q[i] as int].ptrs.prev by {
                assert(old_g.loc@[q[i] as int] == l);
                assert(q[i] != q[k]);
                if k > 0 {
                    assert(q[i] != q[k - 1]);
                }
                if k + 1 < q.len() {
                    assert(q[i] != q[k + 1]);
                }
            }
            lemma_linked_remove(old_g.nodes@, new_g.nodes@, old_g.recalc_queues@[l], q, k);
            assert forall|hh: int| 0 <= hh < new_g.queues@.len() implies linked(
                new_g.nodes@,
                new_g.recalc_queues@[hh],
                #[trigger] new_g.queues@[hh],
            ) by {
                if hh != l {
                    let qq = old_g.queues@[hh];
                    assert(linked(old_g.nodes@, old_g.recalc_queues@[hh], qq));
                    assert forall|i: int| 0 <= i < qq.len() implies (#[trigger] new_g.nodes@[qq[i] as int]).ptrs.next
                        == old_g.nodes@[qq[i] as int].ptrs.next && new_g.nodes@[qq[i] as int].ptrs.prev
                        == old_g.nodes@[qq[i] as int].ptrs.prev by {
                        assert(old_g.loc@[qq[i] as int] == hh);
                    }
                    lemma_linked_frame(old_g.nodes@, new_g.nodes@, old_g.recalc_queues@[hh], qq);
                }
            }
            assert forall|i: int| 1 <= i < fl.len() implies (#[trigger] new_g.nodes@[fl[i] as int]).ptrs.next
                == old_g.nodes@[fl[i] as int].ptrs.next && new_g.nodes@[fl[i] as int].ptrs.prev
                == old_g.nodes@[fl[i] as int].ptrs.prev by {
                assert(old_g.loc@[fl[i] as int] == -2);
                assert(fl[i] != fl[0]);
            }
        } else {
            assert forall|hh: int| 0 <= hh < new_g.queues@.len() implies linked(
                new_g.nodes@,
                new_g.recalc_queues@[hh],
                #[trigger] new_g.queues@[hh],
            ) by {
                let qq = old_g.queues@[hh];
                assert(linked(old_g.nodes@, old_g.recalc_queues@[hh], qq));
                assert forall|i: int| 0 <= i < qq.len() implies (#[trigger] new_g.nodes@[qq[i] as int]).ptrs.next
                    == old_g.nodes@[qq[i] as int].ptrs.next && new_g.nodes@[qq[i] as int].ptrs.prev
                    == old_g.nodes@[qq[i] as int].ptrs.prev by {
                    assert(old_g.loc@[qq[i] as int] == hh);
                }
                lemma_linked_frame(old_g.nodes@, new_g.nodes@, old_g.recalc_queues@[hh], qq);
            }
            assert forall|i: int| 1 <= i < fl.len() implies (#[trigger] new_g.nodes@[fl[i] as int]).ptrs.next
                == old_g.nodes@[fl[i] as int].ptrs.next && new_g.nodes@[fl[i] as int].ptrs.prev
                == old_g.nodes@[fl[i] as int].ptrs.prev by {
                assert(old_g.loc@[fl[i] as int] == -2);
                assert(fl[i] != fl[0]);
            }
        }
        lemma_linked_push_front(old_g.nodes@, new_g.nodes@, fl, x);
        Self::lemma_nodes_frame(old_g, new_g);
        assert forall|hh: int|
            0 <= hh < new_g.queues@.len() && (#[trigger] new_g.queues@[hh]).len() > 0 implies new_g.recalc_min_height
            <= hh <= new_g.recalc_max_height by {
            assert(old_g.queues@[hh].len() > 0);
        }
        assert(new_g.lists_wf());
        assert forall|hh: int, i: int|
            0 <= hh < new_g.queues@.len() && 0 <= i < new_g.queues@[hh].len() implies new_g.loc@[#[trigger] new_g.queues@[hh][i] as int] == hh by {
            if l >= 0 && hh == l {
                let q = old_g.queues@[l];
                q.remove_ensures(k);
                let ii = if i < k { i } else { i + 1 };
                assert(new_g.queues@[hh][i] == q[ii]);
                assert(q[ii] != q[k]);
            }
        }
        assert forall|i: int| 0 <= i < new_g.free_list@.len() implies new_g.loc@[#[trigger] new_g.free_list@[i] as int] == -2 by {
            if i > 0 {
                assert(new_g.free_list@[i] == fl[i - 1]);
            }
        }
        assert forall|y: int| 0 <= y < new_g.nodes@.len() implies #[trigger] new_g.loc_ok(y) by {
            assert(old_g.loc_ok(y));
            let ly = new_g.loc@[y];
            if y != x as int {
                if ly >= 0 {
                    let qy = old_g.queues@[ly];
                    let j = choose|j: int| 0 <= j < qy.len() && qy[j] == y as usize;
                    if l >= 0 && ly == l {
                        qy.remove_ensures(k);
                        assert(j != k);
                        if j < k {
                            assert(new_g.queues@[ly][j] == y as usize);
                        } else {
                            assert(new_g.queues@[ly][j - 1] == y as usize);
                        }
                    } else {
                        assert(new_g.queues@[ly] == qy);
                    }
                }
                if ly == -2 {
                    let j = choose|j: int| 0 <= j < fl.len() && fl[j] == y as usize;
                    assert(new_g.free_list@[j + 1] == y as usize);
                }
            } else {
                assert(new_g.free_list@[0] == x);
            }
        }
        assert(new_g.loc_wf());
    }

    /// Empties the necessary children of `parent`, uncounting each edge on its
    /// child, and returns them in slot order.
    fn take_necessary_children(&mut self, parent: usize) -> (r: Result<Vec<usize>, GraphError>)
        requires
            old(self).wf(),
            parent < old(self).len(),
        ensures
            final(self).wf(),
            final(self).same_lists(*old(self)),
            final(self).len() == old(self).len(),
            forall|y: int|
                0 <= y < old(self).len() ==> (#[trigger] final(self).nodes()[y]) == (Node {
                    necessary_count: final(self).nodes()[y].necessary_count,
                    ptrs: NodePtrs { necessary_children: final(self).nodes()[y].ptrs.necessary_children, ..old(self).nodes()[y].ptrs },
                    ..old(self).nodes()[y]
                }),
            ({
                let list = old(self).nodes()[parent as int].ptrs.necessary_children@;
                &&& r is Ok <==> forall|i: int| 0 <= i < list.len() ==> old(self).nodes()[#[trigger] list[i] as int].necessary_count >= 1
                &&& r matches Ok(v) ==> {
                    &&& v@ == list
                    &&& final(self).nodes()[parent as int].ptrs.necessary_children@.len() == 0
                    &&& forall|y: int|
                        0 <= y < old(self).len() ==> (#[trigger] final(self).nodes()[y]) == (Node {
                            necessary_count: (old(self).nodes()[y].necessary_count - (if list.contains(y as usize) {
                                1int
                            } else {
                                0int
                            })) as usize,
                            ptrs: NodePtrs {
                                necessary_children: final(self).nodes()[y].ptrs.necessary_children,
                                ..old(self).nodes()[y].ptrs
                            },
                            ..old(self).nodes()[y]
                        })
                    &&& forall|y: int|
                        0 <= y < old(self).len() && y != parent ==> (#[trigger] final(self).nodes()[y]).ptrs.necessary_children@
                            == old(self).nodes()[y].ptrs.necessary_children@
                }
            }),
    {
        proof {
            reveal(Graph2::lists_wf);
            reveal(Graph2::loc_wf);
            reveal(Graph2::nodes_wf);
        }
        let ghost old_g = *self;
        proof {
            assert(edges_in(self.nodes@[parent as int], self.nodes@.len()));
        }
        let mut list: Vec<usize> = Vec::new();
        std::mem::swap(&mut list, &mut self.nodes[parent].ptrs.necessary_children);
        proof {
            assert forall|y: int| 0 <= y < old_g.nodes@.len() implies same_links(
                #[trigger] self.nodes@[y],
                old_g.nodes@[y],
            ) && edges_in(self.nodes@[y], self.nodes@.len()) by {
                assert(edges_in(old_g.nodes@[y], old_g.nodes@.len()));
            }
            Self::lemma_local_change(&old_g, self);
        }
        let ghost mid_g = *self;
        proof {
            assert forall|y: int| 0 <= y < old_g.nodes@.len() implies (#[trigger] mid_g.nodes@[y]) == (Node {
                ptrs: NodePtrs { necessary_children: mid_g.nodes@[y].ptrs.necessary_children, ..old_g.nodes@[y].ptrs },
                ..old_g.nodes@[y]
            }) by {}
        }
        let mut i: usize = 0;
        while i < list.len()
            invariant
                mid_g.nodes@.len() == old_g.nodes@.len(),
                forall|y: int| 0 <= y < old_g.nodes@.len() ==> (#[trigger] mid_g.nodes@[y]) == (Node {
                    ptrs: NodePtrs { necessary_children: mid_g.nodes@[y].ptrs.necessary_children, ..old_g.nodes@[y].ptrs },
                    ..old_g.nodes@[y]
                }),
                self.wf(),
                self.same_lists(*old(self)),
                self.nodes@.len() == old(self).nodes@.len(),
                old_g == *old(self),
                i <= list@.len(),
                list@ == old_g.nodes@[parent as int].ptrs.necessary_children@,
                strictly_sorted(list@),
                forall|k: int| 0 <= k < list@.len() ==> #[trigger] list@[k] < old_g.nodes@.len(),
                forall|k: int| 0 <= k < i ==> old_g.nodes@[#[trigger] list@[k] as int].necessary_count >= 1,
                forall|y: int|
                    0 <= y < old_g.nodes@.len() ==> (#[trigger] self.nodes@[y]) == (Node {
                        necessary_count: (old_g.nodes@[y].necessary_count - (if list@.subrange(0, i as int).contains(
                            y as usize,
                        ) {
                            1int
                        } else {
                            0int
                        })) as usize,
                        ..mid_g.nodes@[y]
                    }),
            decreases list@.len() - i,
        {
            proof {
                reveal(Graph2::lists_wf);
                reveal(Graph2::loc_wf);
                reveal(Graph2::nodes_wf);
            }
            let c = list[i];
            proof {
                assert(!list@.subrange(0, i as int).contains(c)) by {
                    if list@.subrange(0, i as int).contains(c) {
                        let s0 = list@.subrange(0, i as int);
                        let k = choose|k: int| 0 <= k < s0.len() && s0[k] == c;
                        assert(list@[k] < list@[i as int]);
                    }
                }
                assert(self.nodes@[c as int].necessary_count == old_g.nodes@[c as int].necessary_count);
            }
            if self.nodes[c].necessary_count == 0 {
                proof {
                    assert forall|y: int| 0 <= y < old_g.nodes@.len() implies (#[trigger] self.nodes@[y]) == (Node {
                        necessary_count: self.nodes@[y].necessary_count,
                        ptrs: NodePtrs { necessary_children: self.nodes@[y].ptrs.necessary_children, ..old_g.nodes@[y].ptrs },
                        ..old_g.nodes@[y]
                    }) by {
                        assert(mid_g.nodes@[y] == (Node {
                            ptrs: NodePtrs { necessary_children: mid_g.nodes@[y].ptrs.necessary_children, ..old_g.nodes@[y].ptrs },
                            ..old_g.nodes@[y]
                        }));
                    }
                    assert(!(forall|k: int| 0 <= k < list@.len() ==> old_g.nodes@[#[trigger] list@[k] as int].necessary_count >= 1)) by {
                        assert(old_g.nodes@[list@[i as int] as int].necessary_count == 0);
                    }
                }
                return Err(GraphError::CountUnderflow);
            }
            let ghost before = *self;
            self.nodes[c].necessary_count = self.nodes[c].necessary_count - 1;
            proof {
                assert forall|y: int| 0 <= y < before.nodes@.len() implies same_links(
                    #[trigger] self.nodes@[y],
                    before.nodes@[y],
                ) && edges_in(self.nodes@[y], self.nodes@.len()) by {
                    assert(edges_in(before.nodes@[y], before.nodes@.len()));
                }
                Self::lemma_local_change(&before, self);
                let s1 = list@.subrange(0, i + 1);
                let s0 = list@.subrange(0, i as int);
                assert forall|y: usize| #[trigger] s1.contains(y) == (s0.contains(y) || y == c) by {
                    if s1.contains(y) {
                        let k = choose|k: int| 0 <= k < s1.len() && s1[k] == y;
                        if k < i {
                            assert(s0[k] == y);
                        }
                    }
                    if s0.contains(y) {
                        let k = choose|k: int| 0 <= k < s0.len() && s0[k] == y;
                        assert(s1[k] == y);
                    }
                    if y == c {
                        assert(s1[i as int] == y);
                    }
                }
            }
            i = i + 1;
        }
        proof {
            assert(list@.subrange(0, list@.len() as int) =~= list@);
            assert forall|y: int| 0 <= y < old_g.nodes@.len() && y != parent implies (#[trigger] self.nodes@[y]).ptrs.necessary_children@
                == old_g.nodes@[y].ptrs.necessary_children@ by {
                assert(mid_g.nodes@[y] == old_g.nodes@[y]);
            }
        }
        Ok(list)
    }

    /// Counts one more handle on a live node.
    pub fn handle_clone(&mut self, node: NodeGuard) -> (r: Result<(), GraphError>)
        requires
            old(self).wf(),
            old(self).valid(node),
        ensures
            final(self).wf(),
            final(self).same_lists(*old(self)),
            ({
                let n = old(self).node(node);
                if !n.alive {
                    r == Err::<(), GraphError>(GraphError::NodeFreed) && final(self).nodes() == old(self).nodes()
                } else if n.ptrs.handle_count == usize::MAX {
                    r == Err::<(), GraphError>(GraphError::CountOverflow) && final(self).nodes() == old(self).nodes()
                } else {
                    r is Ok && final(self).nodes() == old(self).nodes().update(
                        node.index(),
                        Node { ptrs: NodePtrs { handle_count: (n.ptrs.handle_count + 1) as usize, ..n.ptrs }, ..n },
                    )
                }
            }),
    {
        proof {
            reveal(Graph2::lists_wf);
            reveal(Graph2::loc_wf);
            reveal(Graph2::nodes_wf);
        }
        let x = node.0;
        if !self.nodes[x].alive {
            return Err(GraphError::NodeFreed);
        }
        if self.nodes[x].ptrs.handle_count == usize::MAX {
            return Err(GraphError::CountOverflow);
        }
        let ghost old_g = *self;
        proof {
            assert(self.loc_ok(x as int));
        }
        self.nodes[x].ptrs.handle_count = self.nodes[x].ptrs.handle_count + 1;
        proof {
            assert forall|y: int| 0 <= y < old_g.nodes@.len() implies same_links(
                #[trigger] self.nodes@[y],
                old_g.nodes@[y],
            ) && edges_in(self.nodes@[y], self.nodes@.len()) by {
                assert(edges_in(old_g.nodes@[y], old_g.nodes@.len()));
            }
            Self::lemma_local_change(&old_g, self);
        }
        Ok(())
    }

    /// Frees a live node: its necessary children are uncounted, its clean parents
    /// forgotten, it leaves the queue it waits in, and its slot goes on the front
    /// of the free list.
    fn free(&mut self, x: usize) -> (r: Result<(), GraphError>)
        requires
            old(self).wf(),
            x < old(self).len(),
            old(self).nodes()[x as int].alive,
        ensures
            final(self).wf(),
            final(self).graph_token() == old(self).graph_token(),
            final(self).num_heights() == old(self).num_heights(),
            final(self).len() == old(self).len(),
            forall|y: int| 0 <= y < old(self).len() ==> (#[trigger] final(self).nodes()[y]).visited == old(self).nodes()[y].visited,
            r is Ok <==> forall|i: int|
                0 <= i < old(self).nodes()[x as int].ptrs.necessary_children@.len() ==> old(self).nodes()[#[trigger] old(self).nodes()[x as int].ptrs.necessary_children@[i] as int].necessary_count
                    >= 1,
            r is Err ==> r == Err::<(), GraphError>(GraphError::CountUnderflow),
            r is Ok ==> {
                &&& final(self).free_list() == seq![x] + old(self).free_list()
                &&& !final(self).nodes()[x as int].alive
                &&& final(self).nodes()[x as int].ptrs.handle_count == 0
                &&& final(self).nodes()[x as int].ptrs.necessary_children@.len() == 0
                &&& parents_of(final(self).nodes()[x as int]).len() == 0
                &&& forall|h: int| 0 <= h < final(self).num_heights() ==> !(#[trigger] final(self).queues()[h]).contains(x)
                &&& queues_without(old(self).queues(), final(self).queues(), x)
                &&& freed_frame(old(self).nodes(), final(self).nodes(), x as int)
            },
    {
        proof {
            reveal(Graph2::lists_wf);
            reveal(Graph2::loc_wf);
            reveal(Graph2::nodes_wf);
        }
        let ghost a = self.nodes@;
        let taken = self.take_necessary_children(x);
        if taken.is_err() {
            return Err(GraphError::CountUnderflow);
        }
        let ghost m1 = self.nodes@;
        let _parents = self.take_clean_parents(x);
        let ghost m2 = self.nodes@;
        proof {
            assert(self.nodes@[x as int].alive);
        }
        let res = self.release(x);
        proof {
            if res is Ok {
                reveal(data_kept_except);
                let b = self.nodes@;
                let list = a[x as int].ptrs.necessary_children@;
                assert forall|y: int| 0 <= y < a.len() && y != x implies node_data_eq(
                    #[trigger] b[y],
                    Node {
                        necessary_count: (a[y].necessary_count - (if list.contains(y as usize) { 1int } else { 0int })) as usize,
                        ..a[y]
                    },
                ) && b[y].ptrs.recalc_state == a[y].ptrs.recalc_state by {
                    assert(m2[y] == m1[y]);
                    assert(node_data_eq(b[y], m2[y]));
                }
                assert(freed_frame(a, b, x as int));
            }
        }
        res
    }

    /// The height whose queue starts with node `x`, if any.
    fn queue_headed_by(&self, x: usize) -> (r: Option<usize>)
        ensures
            r matches Some(h) ==> h < self.recalc_queues@.len() && self.recalc_queues@[h as int] == Some(x),
            r is None ==> forall|h: int| 0 <= h < self.recalc_queues@.len() ==> self.recalc_queues@[h] != Some(x),
    {
        let mut i: usize = 0;
        while i < self.recalc_queues.len()
            invariant
                i <= self.recalc_queues@.len(),
                forall|h: int| 0 <= h < i ==> self.recalc_queues@[h] != Some(x),
            decreases self.recalc_queues@.len() - i,
        {
            if let Some(head) = self.recalc_queues[i] {
                if head == x {
                    return Some(i);
                }
            }
            i = i + 1;
        }
        None
    }

    /// Takes a live node out of the queue it waits in and pushes it, dead, on
    /// the front of the free list.
    #[verifier::rlimit(100)]
    #[verifier::spinoff_prover]
    fn release(&mut self, x: usize) -> (r: Result<(), GraphError>)
        requires
            old(self).wf(),
            x < old(self).len(),
            old(self).nodes()[x as int].alive,
        ensures
            final(self).wf(),
            final(self).graph_token() == old(self).graph_token(),
            final(self).num_heights() == old(self).num_heights(),
            final(self).len() == old(self).len(),
            forall|y: int| 0 <= y < old(self).len() ==> (#[trigger] final(self).nodes()[y]).visited == old(self).nodes()[y].visited,
            r is Ok,
            r is Ok ==> data_kept_except(old(self).nodes(), final(self).nodes(), x as int),
            r is Ok ==> queues_without(old(self).queues(), final(self).queues(), x),
            r is Ok ==> {
                &&& final(self).free_list() == seq![x] + old(self).free_list()
                &&& final(self).nodes()[x as int] == (Node {
                    alive: false,
                    ptrs: NodePtrs {
                        next: final(self).nodes()[x as int].ptrs.next,
                        prev: None,
                        handle_count: 0,
                        ..old(self).nodes()[x as int].ptrs
                    },
                    ..old(self).nodes()[x as int]
                })
                &&& forall|h: int| 0 <= h < final(self).num_heights() ==> !(#[trigger] final(self).queues()[h]).contains(x)
            },
    {
        proof {
            reveal(Graph2::lists_wf);
            reveal(Graph2::loc_wf);
        }
        let ghost old_g = *self;
        let ghost l = self.loc@[x as int];
        proof {
            assert(self.loc_ok(x as int));
        }
        let ghost mut k: int = 0;
        if self.nodes[x].ptrs.recalc_state == RecalcState::Pending {
            let ghost q = self.queues@[l];
            proof {
                k = choose|k: int| 0 <= k < q.len() && q[k] == x;
                assert(linked(self.nodes@, self.recalc_queues@[l], q));
            }
            let prev = self.nodes[x].ptrs.prev;
            let next = self.nodes[x].ptrs.next;
            if let Some(p) = prev {
                assert(p == q[k - 1]);
                self.nodes[p].ptrs.next = next;
            } else {
                assert(k == 0 && self.recalc_queues@[l] == Some(x) && 0 <= l < self.recalc_queues@.len()) by {
                    if k > 0 {
                        assert(self.nodes@[q[k] as int].ptrs.prev == Some(q[k - 1]));
                    }
                }
                let h = match self.queue_headed_by(x) {
                    Some(h) => h,
                    None => {
                        proof {
                            assert(self.recalc_queues@[l] != Some(x));
                        }
                        return Err(GraphError::QueueMismatch);
                    },
                };
                proof {
                    assert(linked(self.nodes@, self.recalc_queues@[h as int], self.queues@[h as int]));
                    assert(self.queues@[h as int][0] == x);
                    assert(self.loc@[self.queues@[h as int][0] as int] == h);
                }
                self.recalc_queues[h] = next;
            }
            if let Some(n) = next {
                assert(n == q[k + 1]);
                self.nodes[n].ptrs.prev = prev;
            }
            self.nodes[x].ptrs.prev = None;
            self.nodes[x].ptrs.next = None;
            proof {
                self.queues@ = self.queues@.update(l, q.remove(k));
            }
        }
        let old_free = self.free_head;
        proof {
            assert(linked(old_g.nodes@, old_g.free_head, old_g.free_list@));
            if let Some(f) = old_free {
                assert(old_g.loc@[old_g.free_list@[0] as int] == -2);
            }
        }
        if let Some(f) = old_free {
            self.nodes[f].ptrs.prev = Some(x);
        }
        self.nodes[x].ptrs.next = old_free;
        self.free_head = Some(x);
        self.nodes[x].alive = false;
        self.nodes[x].ptrs.handle_count = 0;
        proof {
            self.free_list@ = seq![x] + old_g.free_list@;
            self.loc@ = old_g.loc@.update(x as int, -2);
            Self::lemma_free_node(&old_g, self, x, k);
            Self::lemma_queues_without(&old_g, self, x, k);
            assert forall|h: int| 0 <= h < self.queues@.len() implies !(#[trigger] self.queues@[h]).contains(x) by {
                if self.queues@[h].contains(x) {
                    let j = choose|j: int| 0 <= j < self.queues@[h].len() && self.queues@[h][j] == x;
                    assert(self.loc@[self.queues@[h][j] as int] == h);
                }
            }
        }
        Ok(())
    }

    /// Counts one handle less on a node, freeing it when none is left; returns
    /// whether the node was freed.
    pub fn handle_drop(&mut self, node: NodeGuard) -> (r: Result<bool, GraphError>)
        requires
            old(self).wf(),
            old(self).valid(node),
        ensures
            final(self).wf(),
            final(self).graph_token() == old(self).graph_token(),
            final(self).num_heights() == old(self).num_heights(),
            final(self).len() == old(self).len(),
            forall|y: int| 0 <= y < old(self).len() ==> (#[trigger] final(self).nodes()[y]).visited == old(self).nodes()[y].visited,
            old(self).node(node).ptrs.handle_count == 0 ==> r == Err::<bool, GraphError>(GraphError::CountUnderflow),
            old(self).node(node).ptrs.handle_count > 1 ==> {
                &&& r == Ok::<bool, GraphError>(false)
                &&& final(self).same_lists(*old(self))
                &&& final(self).nodes() == old(self).nodes().update(
                    node.index(),
                    Node {
                        ptrs: NodePtrs { handle_count: (old(self).node(node).ptrs.handle_count - 1) as usize, ..old(self).node(node).ptrs },
                        ..old(self).node(node)
                    },
                )
            },
            old(self).node(node).ptrs.handle_count == 1 ==> (r is Ok <==> forall|i: int|
                0 <= i < old(self).node(node).ptrs.necessary_children@.len()
                    ==> old(self).nodes()[#[trigger] old(self).node(node).ptrs.necessary_children@[i] as int].necessary_count >= 1),
            r is Err ==> r == Err::<bool, GraphError>(GraphError::CountUnderflow),
            old(self).node(node).ptrs.handle_count == 1 && r is Ok ==> {
                &&& r == Ok::<bool, GraphError>(true)
                &&& queues_without(old(self).queues(), final(self).queues(), node.index() as usize)
                &&& final(self).free_list() == seq![node.index() as usize] + old(self).free_list()
                &&& !final(self).node(node).alive
                &&& final(self).node(node).ptrs.handle_count == 0
                &&& final(self).node(node).ptrs.necessary_children@.len() == 0
                &&& parents_of(final(self).node(node)).len() == 0
                &&& forall|h: int| 0 <= h < final(self).num_heights() ==> !(#[trigger] final(self).queues()[h]).contains(node.index() as usize)
                &&& freed_frame(old(self).nodes(), final(self).nodes(), node.index())
            },
    {
        proof {
            reveal(Graph2::lists_wf);
            reveal(Graph2::loc_wf);
            reveal(Graph2::nodes_wf);
        }
        let x = node.0;
        let count = self.nodes[x].ptrs.handle_count;
        if count == 0 {
            return Err(GraphError::CountUnderflow);
        }
        if count > 1 {
            let ghost old_g = *self;
            self.nodes[x].ptrs.handle_count = count - 1;
            proof {
                assert forall|y: int| 0 <= y < old_g.nodes@.len() implies same_links(
                    #[trigger] self.nodes@[y],
                    old_g.nodes@[y],
                ) && edges_in(self.nodes@[y], self.nodes@.len()) by {
                    assert(edges_in(old_g.nodes@[y], old_g.nodes@.len()));
                }
                Self::lemma_local_change(&old_g, self);
            }
            return Ok(false);
        }
        proof {
            assert(self.loc_ok(x as int));
        }
        match self.free(x) {
            Ok(()) => Ok(true),
            Err(e) => Err(e),
        }
    }

    /// Sets a node's visited mark.
    fn set_visited(&mut self, x: usize, v: bool)
        requires
            old(self).wf(),
            x < old(self).len(),
        ensures
            final(self).wf(),
            final(self).same_lists(*old(self)),
            final(self).nodes() == old(self).nodes().update(x as int, Node { visited: v, ..old(self).nodes()[x as int] }),
    {
        proof {
            reveal(Graph2::lists_wf);
            reveal(Graph2::loc_wf);
            reveal(Graph2::nodes_wf);
        }
        let ghost old_g = *self;
        self.nodes[x].visited = v;
        proof {
            assert forall|y: int| 0 <= y < old_g.nodes@.len() implies same_links(
                #[trigger] self.nodes@[y],
                old_g.nodes@[y],
            ) && edges_in(self.nodes@[y], self.nodes@.len()) by {
                assert(edges_in(old_g.nodes@[y], old_g.nodes@.len()));
            }
            Self::lemma_local_change(&old_g, self);
        }
    }

    /// Raises a node's height.
    fn set_height(&mut self, x: usize, h: usize)
        requires
            old(self).wf(),
            x < old(self).len(),
            h >= old(self).nodes()[x as int].ptrs.height,
        ensures
            final(self).wf(),
            final(self).same_lists(*old(self)),
            final(self).nodes() == old(self).nodes().update(
                x as int,
                Node { ptrs: NodePtrs { height: h, ..old(self).nodes()[x as int].ptrs }, ..old(self).nodes()[x as int] },
            ),
    {
        proof {
            reveal(Graph2::lists_wf);
            reveal(Graph2::loc_wf);
            reveal(Graph2::nodes_wf);
        }
        let ghost old_g = *self;
        self.nodes[x].ptrs.height = h;
        proof {
            assert forall|y: int| 0 <= y < old_g.nodes@.len() implies same_links(
                #[trigger] self.nodes@[y],
                old_g.nodes@[y],
            ) && edges_in(self.nodes@[y], self.nodes@.len()) by {
                assert(edges_in(old_g.nodes@[y], old_g.nodes@.len()));
            }
            Self::lemma_local_change(&old_g, self);
        }
    }

    /// The clean parents of a node, first one first.
    fn parents_vec(&self, x: usize) -> (r: Vec<usize>)
        requires
            self.wf(),
            x < self.len(),
        ensures
            r@ == parents_of(self.nodes()[x as int]),
            forall|i: int| 0 <= i < r@.len() ==> #[trigger] r@[i] < self.len(),
    {
        proof {
            reveal(Graph2::nodes_wf);
            assert(edges_in(self.nodes@[x as int], self.nodes@.len()));
        }
        let mut out: Vec<usize> = Vec::new();
        if let Some(p) = self.nodes[x].ptrs.clean_parent0 {
            out.push(p);
        }
        let ghost pre = out@;
        let mut i: usize = 0;
        while i < self.nodes[x].ptrs.clean_parents.len()
            invariant
                i <= self.nodes@[x as int].ptrs.clean_parents@.len(),
                x < self.nodes@.len(),
                out@ == pre + self.nodes@[x as int].ptrs.clean_parents@.subrange(0, i as int),
            decreases self.nodes@[x as int].ptrs.clean_parents@.len() - i,
        {
            out.push(self.nodes[x].ptrs.clean_parents[i]);
            i = i + 1;
            proof {
                let cp = self.nodes@[x as int].ptrs.clean_parents@;
                assert(pre + cp.subrange(0, i as int) =~= (pre + cp.subrange(0, i - 1)).push(cp[i - 1]));
            }
        }
        proof {
            let n = self.nodes@[x as int];
            assert(n.ptrs.clean_parents@.subrange(0, n.ptrs.clean_parents@.len() as int) =~= n.ptrs.clean_parents@);
            assert(out@ =~= parents_of(n));
            assert forall|k: int| 0 <= k < out@.len() implies #[trigger] out@[k] < self.nodes@.len() by {
                if n.ptrs.clean_parent0 is Some {
                    if k > 0 {
                        assert(out@[k] == n.ptrs.clean_parents@[k - 1]);
                    }
                } else {
                    assert(out@[k] == n.ptrs.clean_parents@[k]);
                }
            }
        }
        out
    }

    /// `set_min_height` from a state where no node is visited.
    fn raise_to(&mut self, node: usize, min_height: usize) -> (r: Result<(), GraphError>)
        requires
            old(self).wf(),
            node < old(self).len(),
            old(self).none_visited(),
        ensures
            final(self).wf(),
            final(self).same_lists(*old(self)),
            only_heights_visited_changed(old(self).nodes(), final(self).nodes()),
            forall|x: int| 0 <= x < old(self).len() ==> old(self).nodes()[x].ptrs.height <= #[trigger] final(self).nodes()[x].ptrs.height,
            min_height >= usize::MAX - old(self).len() ==> r == Err::<(), GraphError>(GraphError::HeightOverflow)
                && final(self).nodes() == old(self).nodes(),
            r is Err ==> r == Err::<(), GraphError>(GraphError::HeightOverflow) || (r == Err::<(), GraphError>(
                GraphError::LoopDetected,
            ) && has_cycle(old(self).nodes())),
            r == Err::<(), GraphError>(GraphError::HeightOverflow) ==> min_height >= usize::MAX - old(self).len(),
            r is Ok ==> {
                &&& final(self).none_visited()
                &&& final(self).nodes()[node as int].ptrs.height >= min_height
                &&& final(self).nodes()[node as int].ptrs.height == (if old(self).nodes()[node as int].ptrs.height < min_height {
                    min_height
                } else {
                    old(self).nodes()[node as int].ptrs.height
                })
                &&& heights_consistent(old(self).nodes()) ==> heights_consistent(final(self).nodes())
            },
            forall|x: int|
                0 <= x < old(self).len() && #[trigger] final(self).nodes()[x].ptrs.height != old(self).nodes()[x].ptrs.height
                    ==> exists|s: Seq<int>|
                    #[trigger] is_path(old(self).nodes(), s) && s[0] == node && s.last() == x
                        && final(self).nodes()[x].ptrs.height == min_height + s.len() - 1,
    {
        proof {
            reveal(Graph2::lists_wf);
            reveal(Graph2::loc_wf);
            reveal(Graph2::nodes_wf);
            lemma_count_unvisited_bound(self.nodes@);
        }
        if min_height >= usize::MAX - self.nodes.len() {
            return Err(GraphError::HeightOverflow);
        }
        let ghost a = self.nodes@;
        proof {
            assert(visited_set(a) =~= Set::<int>::empty());
        }
        let res = self.set_min_height(node, min_height);
        proof {
            let b = self.nodes@;
            if res is Err {
                if reaches(a, node as int, visited_set(a)) {
                    let s = choose|s: Seq<int>| #[trigger] is_path(a, s) && s[0] == node as int && visited_set(a).contains(s.last());
                    assert(visited_set(a).contains(s.last()));
                }
            } else {
                assert forall|i: int| 0 <= i < b.len() implies !(#[trigger] b[i]).visited by {
                    assert(!a[i].visited);
                }
                if heights_consistent(a) {
                    assert forall|x: int, j: int|
                        0 <= x < b.len() && 0 <= j < parents_of(b[x]).len() implies b[x].ptrs.height
                        < b[#[trigger] parents_of(b[x])[j] as int].ptrs.height by {
                        assert(b[x] == Node { visited: b[x].visited, ptrs: NodePtrs { height: b[x].ptrs.height, ..a[x].ptrs }, ..a[x] });
                        assert(parents_of(b[x]) == parents_of(a[x]));
                        assert(edges_in(a[x], a.len()));
                        lemma_parents_in(a[x], a.len());
                        if b[x].ptrs.height == a[x].ptrs.height {
                            let q = parents_of(a[x])[j] as int;
                            assert(a[q].ptrs.height <= b[q].ptrs.height);
                        }
                    }
                }
            }
        }
        res
    }

    /// Raises `node` to at least `min_height` and, if it had to move, each of its
    /// clean parents to at least one more, recursively. Meeting a node already
    /// marked visited is an error: on the way up there is a loop, or a node that
    /// was marked before the call.
    #[verifier::rlimit(100)]
    #[verifier::spinoff_prover]
    fn set_min_height(&mut self, node: usize, min_height: usize) -> (r: Result<(), GraphError>)
        requires
            old(self).wf(),
            node < old(self).len(),
            min_height + count_unvisited(old(self).nodes()) <= usize::MAX,
        ensures
            final(self).wf(),
            final(self).same_lists(*old(self)),
            only_heights_visited_changed(old(self).nodes(), final(self).nodes()),
            forall|x: int| 0 <= x < old(self).len() ==> old(self).nodes()[x].ptrs.height <= #[trigger] final(self).nodes()[x].ptrs.height,
            forall|x: int| 0 <= x < old(self).len() && #[trigger] old(self).nodes()[x].visited ==> final(self).nodes()[x].visited
                && final(self).nodes()[x].ptrs.height == old(self).nodes()[x].ptrs.height,
            forall|x: int|
                0 <= x < old(self).len() && #[trigger] final(self).nodes()[x].visited ==> reaches(old(self).nodes(), x, visited_set(old(self).nodes()))
                    || has_cycle(old(self).nodes()),
            r is Err ==> r == Err::<(), GraphError>(GraphError::LoopDetected) && (reaches(old(self).nodes(), node as int, visited_set(old(self).nodes()))
                || has_cycle(old(self).nodes())),
            r is Ok ==> {
                &&& forall|x: int| 0 <= x < old(self).len() ==> (#[trigger] final(self).nodes()[x]).visited == old(self).nodes()[x].visited
                &&& final(self).nodes()[node as int].ptrs.height >= min_height
                &&& final(self).nodes()[node as int].ptrs.height == (if old(self).nodes()[node as int].ptrs.height < min_height {
                    min_height
                } else {
                    old(self).nodes()[node as int].ptrs.height
                })
                &&& forall|x: int, j: int|
                    0 <= x < old(self).len() && final(self).nodes()[x].ptrs.height != old(self).nodes()[x].ptrs.height
                        && 0 <= j < parents_of(final(self).nodes()[x]).len() ==> final(self).nodes()[x].ptrs.height
                        < final(self).nodes()[#[trigger] parents_of(final(self).nodes()[x])[j] as int].ptrs.height
            },
            forall|x: int|
                0 <= x < old(self).len() && #[trigger] final(self).nodes()[x].ptrs.height != old(self).nodes()[x].ptrs.height
                    ==> exists|s: Seq<int>|
                    #[trigger] is_path(old(self).nodes(), s) && s[0] == node && s.last() == x
                        && final(self).nodes()[x].ptrs.height == min_height + s.len() - 1,
            (exists|s: Seq<int>| #[trigger] blocked_climb(old(self).nodes(), node as int, min_height as int, s)) ==> r is Err,
        decreases count_unvisited(self.nodes()),
    {
        let ghost p0 = self.nodes@;
        let ghost v0 = visited_set(p0);
        let ghost has_w = exists|s: Seq<int>| #[trigger] blocked_climb(p0, node as int, min_height as int, s);
        let ghost w = choose|s: Seq<int>| #[trigger] blocked_climb(p0, node as int, min_height as int, s);
        proof {
            assert forall|x: int| #[trigger] v0.contains(x) implies reaches(p0, x, v0) by {
                let s = seq![x];
                assert(is_path(p0, s) && s[0] == x && v0.contains(s.last()));
            }
        }
        if self.nodes[node].visited {
            proof {
                assert(v0.contains(node as int));
                assert(only_heights_visited_changed(p0, self.nodes@));
                assert forall|x: int| 0 <= x < p0.len() && #[trigger] p0[x].visited implies reaches(p0, x, v0) || has_cycle(p0) by {
                    assert(v0.contains(x));
                }
            }
            return Err(GraphError::LoopDetected);
        }
        self.set_visited(node, true);
        let ghost p1 = self.nodes@;
        let ghost v1 = v0.insert(node as int);
        proof {
            lemma_count_unvisited(p0, p1, node as int);
            assert(visited_set(p1) =~= v1);
            if has_w {
                lemma_blocked_start(p0, node as int, min_height as int, w);
            }
        }
        if self.nodes[node].ptrs.height < min_height {
            self.set_height(node, min_height);
            proof {
                let p2 = self.nodes@;
                lemma_count_unvisited(p1, p2, node as int);
                let s0 = seq![node as int];
                assert(is_path(p0, s0) && s0[0] == node && s0.last() == node as int);
                assert forall|x: int| 0 <= x < p0.len() && #[trigger] p2[x].visited implies reaches(p0, x, v1) || has_cycle(p0) by {
                    assert(v1.contains(x));
                    let s = seq![x];
                    assert(is_path(p0, s) && s[0] == x && v1.contains(s.last()));
                }
            }
            let parents = self.parents_vec(node);
            let ghost p2 = self.nodes@;
            let ghost k: int = if has_w {
                choose|j: int| 0 <= j < parents@.len() && parents@[j] == w[1] as usize
            } else {
                0
            };
            proof {
                if has_w {
                    assert(path_step(p0, w, 0));
                    assert(parents@ == parents_of(p0[node as int]));
                    lemma_blocked_rest(p0, p2, node as int, w);
                }
            }
            let mut did_err = false;
            let mut i: usize = 0;
            while i < parents.len()
                invariant
                    has_w ==> blocked_climb(p0, node as int, min_height as int, w) && w.len() >= 2 && 0 <= k < parents@.len()
                        && parents@[k] == w[1] as usize && !p0[node as int].visited,
                    has_w && !did_err ==> rises_along(self.nodes@, w.drop_first()),
                    has_w && i > k ==> did_err,
                    self.wf(),
                    self.same_lists(*old(self)),
                    p0 == old(self).nodes@,
                    v0 == visited_set(p0),
                    v1 == v0.insert(node as int),
                    node < p0.len(),
                    self.nodes@.len() == p0.len(),
                    forall|x: int| 0 <= x < p0.len() && #[trigger] p0[x].visited ==> self.nodes@[x].visited,
                    i <= parents@.len(),
                    parents@ == parents_of(p0[node as int]),
                    forall|k: int| 0 <= k < parents@.len() ==> #[trigger] parents@[k] < p0.len(),
                    only_heights_visited_changed(p0, self.nodes@),
                    forall|x: int| 0 <= x < p0.len() ==> p0[x].ptrs.height <= #[trigger] self.nodes@[x].ptrs.height,
                    forall|x: int| 0 <= x < p0.len() && #[trigger] v1.contains(x) ==> self.nodes@[x].visited,
                    forall|x: int| 0 <= x < p0.len() && x != node && #[trigger] p0[x].visited ==> self.nodes@[x].ptrs.height == p0[x].ptrs.height,
                    self.nodes@[node as int].ptrs.height == min_height,
                    count_unvisited(self.nodes@) < count_unvisited(p0),
                    min_height + count_unvisited(p0) <= usize::MAX,
                    forall|x: int| 0 <= x < p0.len() && #[trigger] self.nodes@[x].visited ==> reaches(p0, x, v1) || has_cycle(p0),
                    did_err ==> reaches(p0, node as int, v0) || has_cycle(p0),
                    !did_err ==> forall|x: int| 0 <= x < p0.len() ==> (#[trigger] self.nodes@[x]).visited == v1.contains(x),
                    !did_err ==> forall|k: int| 0 <= k < i ==> self.nodes@[#[trigger] parents@[k] as int].ptrs.height > min_height,
                    self.nodes@[node as int].visited,
                    !did_err ==> forall|x: int, j: int|
                        0 <= x < p0.len() && x != node && self.nodes@[x].ptrs.height != p0[x].ptrs.height
                            && 0 <= j < parents_of(self.nodes@[x]).len() ==> self.nodes@[x].ptrs.height
                            < self.nodes@[#[trigger] parents_of(self.nodes@[x])[j] as int].ptrs.height,
                    forall|x: int|
                        0 <= x < p0.len() && #[trigger] self.nodes@[x].ptrs.height != p0[x].ptrs.height
                            ==> exists|s: Seq<int>|
                            #[trigger] is_path(p0, s) && s[0] == node && s.last() == x
                                && self.nodes@[x].ptrs.height == min_height + s.len() - 1,
                decreases parents@.len() - i,
            {
                let p = parents[i];
                let ghost pc = self.nodes@;
                proof {
                    lemma_count_unvisited_bound(p0);
                }
                let res = self.set_min_height(p, min_height + 1);
                proof {
                    let pn = self.nodes@;
                    assert forall|x: int| 0 <= x < p0.len() implies parents_of(#[trigger] pc[x]) == parents_of(p0[x]) by {
                        assert(pc[x] == (Node { visited: pc[x].visited, ptrs: NodePtrs { height: pc[x].ptrs.height, ..p0[x].ptrs }, ..p0[x] }));
                    }
                    assert forall|x: int| 0 <= x < p0.len() implies parents_of(#[trigger] pn[x]) == parents_of(p0[x]) by {
                        assert(pn[x] == (Node { visited: pn[x].visited, ptrs: NodePtrs { height: pn[x].ptrs.height, ..pc[x].ptrs }, ..pc[x] }));
                        assert(parents_of(pc[x]) == parents_of(p0[x]));
                    }
                    if has_w && !did_err {
                        let t = w.drop_first();
                        lemma_path_drop_first(p0, w);
                        lemma_path_same_parents(p0, pc, t);
                        if i as int == k {
                            assert(t.last() == w.last());
                            assert(w.last() != node as int);
                            assert(pc[t.last()].visited);
                            assert(pc[t.last()].ptrs.height == p0[w.last()].ptrs.height);
                            assert(blocked_climb(pc, p as int, min_height + 1, t));
                            assert(res is Err);
                        } else if res is Ok {
                            assert forall|x: int| 0 <= x < pc.len() implies parents_of(#[trigger] pn[x]) == parents_of(pc[x]) by {
                                assert(parents_of(pn[x]) == parents_of(p0[x]));
                                assert(parents_of(pc[x]) == parents_of(p0[x]));
                            }
                            lemma_rises_kept(pc, pn, t);
                        }
                    }
                    assert(only_heights_visited_changed(p0, pn)) by {
                        assert forall|x: int| 0 <= x < p0.len() implies (#[trigger] pn[x]) == (Node {
                            visited: pn[x].visited,
                            ptrs: NodePtrs { height: pn[x].ptrs.height, ..p0[x].ptrs },
                            ..p0[x]
                        }) by {
                            assert(pn[x] == (Node { visited: pn[x].visited, ptrs: NodePtrs { height: pn[x].ptrs.height, ..pc[x].ptrs }, ..pc[x] }));
                            assert(pc[x] == (Node { visited: pc[x].visited, ptrs: NodePtrs { height: pc[x].ptrs.height, ..p0[x].ptrs }, ..p0[x] }));
                        }
                    }
                    // paths over the current arena are paths over the entry arena
                    assert forall|s: Seq<int>| is_path(pc, s) implies #[trigger] is_path(p0, s) by {
                        lemma_path_same_parents(pc, p0, s);
                    }
                    let vc = visited_set(pc);
                    // every node marked visited at the sub-call's entry reaches v1 or there is a cycle
                    assert forall|w: int| #[trigger] vc.contains(w) implies reaches(p0, w, v1) || has_cycle(p0) by {
                    }
                    assert(has_cycle(pc) ==> has_cycle(p0)) by {
                        if has_cycle(pc) {
                            let s = choose|s: Seq<int>| #[trigger] is_path(pc, s) && s.len() >= 2 && s[0] == s.last();
                            assert(is_path(p0, s));
                        }
                    }
                    assert forall|z: int| reaches(pc, z, vc) implies #[trigger] reaches(p0, z, vc) by {
                        let s = choose|s: Seq<int>| #[trigger] is_path(pc, s) && s[0] == z && vc.contains(s.last());
                        assert(is_path(p0, s));
                    }
                    // leftover marks reach v1, or there is a cycle
                    assert forall|x: int| 0 <= x < p0.len() && #[trigger] pn[x].visited implies reaches(p0, x, v1) || has_cycle(p0) by {
                        if !has_cycle(p0) {
                            assert(reaches(pc, x, vc));
                            assert(reaches(p0, x, vc));
                            assert forall|w: int| #[trigger] vc.contains(w) implies reaches(p0, w, v1) by {}
                            lemma_reaches_trans(p0, x, vc, v1);
                        }
                    }
                    if res is Err {
                        if !has_cycle(p0) {
                            assert(reaches(p0, p as int, vc));
                            assert forall|w: int| #[trigger] vc.contains(w) implies reaches(p0, w, v1) by {}
                            lemma_reaches_trans(p0, p as int, vc, v1);
                            let t = choose|t: Seq<int>| #[trigger] is_path(p0, t) && t[0] == p as int && v1.contains(t.last());
                            assert(parents_of(p0[node as int]).contains(p)) by {
                                assert(parents@[i as int] == p);
                            }
                            lemma_path_prepend(p0, node as int, t);
                            let u = seq![node as int] + t;
                            if t.last() == node as int {
                                assert(is_path(p0, u) && u.len() >= 2 && u[0] == u.last());
                            } else {
                                assert(v1.contains(t.last()));
                                assert(v0.contains(t.last()));
                                assert(is_path(p0, u) && u[0] == node as int && v0.contains(u.last()));
                            }
                        }
                    }
                    // heights raised by the sub-call come with a path through `p`
                    assert forall|x: int|
                        0 <= x < p0.len() && #[trigger] pn[x].ptrs.height != p0[x].ptrs.height implies exists|s: Seq<int>|
                        #[trigger] is_path(p0, s) && s[0] == node && s.last() == x
                            && pn[x].ptrs.height == min_height + s.len() - 1 by {
                        if pn[x].ptrs.height != pc[x].ptrs.height {
                            let t = choose|t: Seq<int>|
                                #[trigger] is_path(pc, t) && t[0] == p && t.last() == x && pn[x].ptrs.height == min_height + 1 + t.len() - 1;
                            assert(is_path(p0, t));
                            assert(parents_of(p0[node as int]).contains(p)) by {
                                assert(parents@[i as int] == p);
                            }
                            lemma_path_prepend(p0, node as int, t);
                            let u = seq![node as int] + t;
                            assert(is_path(p0, u) && u[0] == node && u.last() == x && pn[x].ptrs.height == min_height + u.len() - 1);
                        }
                    }
                    if res is Ok && !did_err {
                        assert forall|x: int, j: int|
                            0 <= x < p0.len() && x != node && pn[x].ptrs.height != p0[x].ptrs.height
                                && 0 <= j < parents_of(pn[x]).len() implies pn[x].ptrs.height
                            < pn[#[trigger] parents_of(pn[x])[j] as int].ptrs.height by {
                            let q = parents_of(pn[x])[j];
                            assert(parents_of(pn[x]) == parents_of(pc[x]));
                            assert(parents_of(pc[x]) == parents_of(p0[x]));
                            reveal(Graph2::nodes_wf);
                            assert(edges_in(old(self).nodes@[x], p0.len()));
                            lemma_parents_in(p0[x], p0.len());
                            assert(pc[q as int].ptrs.height <= pn[q as int].ptrs.height);
                            if pn[x].ptrs.height == pc[x].ptrs.height {
                                assert(pc[x].ptrs.height < pc[parents_of(pc[x])[j] as int].ptrs.height);
                            }
                        }
                        assert forall|k: int| 0 <= k < i + 1 implies pn[#[trigger] parents@[k] as int].ptrs.height > min_height by {
                            if k < i {
                                assert(pc[parents@[k] as int].ptrs.height > min_height);
                                assert(pc[parents@[k] as int].ptrs.height <= pn[parents@[k] as int].ptrs.height);
                            }
                        }
                    }
                    lemma_count_unvisited(pc, pn, node as int);
                }
                if res.is_err() {
                    did_err = true;
                }
                i = i + 1;
            }
            if did_err {
                proof {
                    assert forall|x: int| 0 <= x < p0.len() && #[trigger] self.nodes@[x].visited implies reaches(p0, x, v0) || has_cycle(p0) by {
                        if !has_cycle(p0) {
                            assert(reaches(p0, x, v1));
                            assert forall|w: int| #[trigger] v1.contains(w) implies reaches(p0, w, v0) by {
                                if w != node as int {
                                    let s = seq![w];
                                    assert(is_path(p0, s) && s[0] == w && v0.contains(s.last()));
                                }
                            }
                            lemma_reaches_trans(p0, x, v1, v0);
                        }
                    }
                }
                return Err(GraphError::LoopDetected);
            }
        }
        let ghost pb = self.nodes@;
        self.set_visited(node, false);
        proof {
            let pf = self.nodes@;
            assert forall|x: int, j: int|
                0 <= x < p0.len() && pf[x].ptrs.height != p0[x].ptrs.height
                    && 0 <= j < parents_of(pf[x]).len() implies pf[x].ptrs.height
                < pf[#[trigger] parents_of(pf[x])[j] as int].ptrs.height by {
                assert(pf[x].ptrs.height == pb[x].ptrs.height);
                assert(parents_of(pf[x]) == parents_of(pb[x]));
                assert(parents_of(pb[x]) == parents_of(p0[x]));
                reveal(Graph2::nodes_wf);
                assert(edges_in(old(self).nodes@[x], p0.len()));
                lemma_parents_in(p0[x], p0.len());
                let q = parents_of(pf[x])[j];
                assert(q < p0.len());
                assert(pf[q as int].ptrs.height == pb[q as int].ptrs.height);
            }
            assert forall|x: int| 0 <= x < p0.len() implies (#[trigger] pf[x]).visited == p0[x].visited by {
                if x != node as int {
                    assert(v1.contains(x) == v0.contains(x));
                }
            }
            assert forall|x: int| 0 <= x < p0.len() && #[trigger] pf[x].visited implies reaches(p0, x, v0) || has_cycle(p0) by {
                assert(v0.contains(x));
            }
            assert(only_heights_visited_changed(p0, pf));
        }
        Ok(())
    }

    /// Makes sure `child` sits below `parent`, raising `parent` and its clean
    /// ancestors if needed. `Ok(true)` when it already did, `Ok(false)` when heights
    /// were raised, and an error when `child` is itself among the ancestors of
    /// `parent` (the edge would close a loop) or heights would overflow.
    #[verifier::rlimit(60)]
    #[verifier::spinoff_prover]
    pub fn raise_for_edge(&mut self, child: NodeGuard, parent: NodeGuard) -> (r: Result<bool, GraphError>)
        requires
            old(self).wf(),
            old(self).valid(child),
            old(self).valid(parent),
            old(self).none_visited(),
        ensures
            final(self).wf(),
            final(self).same_lists(*old(self)),
            only_heights_visited_changed(old(self).nodes(), final(self).nodes()),
            forall|x: int| 0 <= x < old(self).len() ==> old(self).nodes()[x].ptrs.height <= #[trigger] final(self).nodes()[x].ptrs.height,
            (r == Ok::<bool, GraphError>(true)) <==> old(self).node(child).ptrs.height < old(self).node(parent).ptrs.height,
            r == Ok::<bool, GraphError>(true) ==> final(self).nodes() == old(self).nodes(),
            old(self).node(child).ptrs.height >= old(self).node(parent).ptrs.height && old(self).node(child).ptrs.height
                >= usize::MAX - old(self).len() ==> r == Err::<bool, GraphError>(GraphError::HeightOverflow)
                && final(self).nodes() == old(self).nodes(),
            r is Err ==> r == Err::<bool, GraphError>(GraphError::HeightOverflow) || r == Err::<bool, GraphError>(
                GraphError::LoopDetected,
            ),
            heights_consistent(old(self).nodes()) && reaches(old(self).nodes(), parent.index(), set![child.index()])
            && old(self).node(child).ptrs.height < usize::MAX - old(self).len() ==> r == Err::<bool, GraphError>(GraphError::LoopDetected),
        r == Err::<bool, GraphError>(GraphError::HeightOverflow) ==> old(self).node(child).ptrs.height >= old(self).node(parent).ptrs.height
            && old(self).node(child).ptrs.height >= usize::MAX - old(self).len(),
        r == Err::<bool, GraphError>(GraphError::LoopDetected) ==> reaches(old(self).nodes(), parent.index(), set![child.index()])
                || has_cycle(old(self).nodes()),
            r is Ok ==> {
                &&& final(self).none_visited()
                &&& final(self).node(child).ptrs.height < final(self).node(parent).ptrs.height
                &&& final(self).node(child).ptrs.height == old(self).node(child).ptrs.height
                &&& heights_consistent(old(self).nodes()) ==> heights_consistent(final(self).nodes())
            },
            r == Ok::<bool, GraphError>(false) ==> forall|x: int|
                0 <= x < old(self).len() && #[trigger] final(self).nodes()[x].ptrs.height != old(self).nodes()[x].ptrs.height
                    ==> exists|s: Seq<int>|
                    #[trigger] is_path(old(self).nodes(), s) && s[0] == parent.index() && s.last() == x
                        && final(self).nodes()[x].ptrs.height == old(self).node(child).ptrs.height + s.len(),
    {
        let c = child.0;
        let p = parent.0;
        let ghost has_loop = heights_consistent(self.nodes@) && reaches(self.nodes@, p as int, set![c as int]);
        let ghost w = choose|s: Seq<int>| #[trigger] is_path(self.nodes@, s) && s[0] == p as int && set![c as int].contains(s.last());
        proof {
            if has_loop {
                lemma_consistent_rises(self.nodes@, w);
                lemma_rise_between(self.nodes@, w, 0, w.len() - 1);
            }
        }
        let hc = self.nodes[c].ptrs.height;
        let hp = self.nodes[p].ptrs.height;
        if hc < hp {
            return Ok(true);
        }
        if hc >= usize::MAX - self.nodes.len() {
            return Err(GraphError::HeightOverflow);
        }
        let ghost p0 = self.nodes@;
        self.set_visited(c, true);
        let ghost p1 = self.nodes@;
        proof {
            lemma_count_unvisited_bound(p1);
            assert(visited_set(p1) =~= set![c as int]);
            if has_loop {
                assert forall|x: int| 0 <= x < p0.len() implies parents_of(#[trigger] p1[x]) == parents_of(p0[x]) by {}
                lemma_path_same_parents(p0, p1, w);
                assert forall|i: int| 0 <= i < w.len() - 1 implies #[trigger] rise_step(p1, w, i) by {
                    assert(rise_step(p0, w, i));
                }
                assert(blocked_climb(p1, p as int, hc + 1, w));
            }
        }
        let res = self.set_min_height(p, hc + 1);
        let ghost p2 = self.nodes@;
        self.set_visited(c, false);
        proof {
            let pf = self.nodes@;
            assert forall|x: int| 0 <= x < p0.len() implies parents_of(#[trigger] p1[x]) == parents_of(p0[x]) by {}
            assert forall|x: int| 0 <= x < p0.len() implies parents_of(#[trigger] pf[x]) == parents_of(p0[x]) by {
                assert(parents_of(p2[x]) == parents_of(p1[x]));
            }
            assert forall|s: Seq<int>| is_path(p1, s) implies #[trigger] is_path(p0, s) by {
                lemma_path_same_parents(p1, p0, s);
            }
            assert(only_heights_visited_changed(p0, pf)) by {
                assert forall|x: int| 0 <= x < p0.len() implies (#[trigger] pf[x]) == (Node {
                    visited: pf[x].visited,
                    ptrs: NodePtrs { height: pf[x].ptrs.height, ..p0[x].ptrs },
                    ..p0[x]
                }) by {
                    assert(p2[x] == (Node { visited: p2[x].visited, ptrs: NodePtrs { height: p2[x].ptrs.height, ..p1[x].ptrs }, ..p1[x] }));
                }
            }
            assert(p1[c as int].visited);
            if res is Err {
                if !has_cycle(p1) {
                    let s = choose|s: Seq<int>| #[trigger] is_path(p1, s) && s[0] == p as int && visited_set(p1).contains(s.last());
                    assert(is_path(p0, s));
                    assert(reaches(p0, p as int, set![c as int]));
                } else {
                    let s = choose|s: Seq<int>| #[trigger] is_path(p1, s) && s.len() >= 2 && s[0] == s.last();
                    assert(is_path(p0, s));
                }
            } else {
                assert forall|i: int| 0 <= i < pf.len() implies !(#[trigger] pf[i]).visited by {
                    assert(p2[i].visited == p1[i].visited);
                }
                if heights_consistent(p0) {
                    assert forall|x: int, j: int|
                        0 <= x < pf.len() && 0 <= j < parents_of(pf[x]).len() implies pf[x].ptrs.height
                        < pf[#[trigger] parents_of(pf[x])[j] as int].ptrs.height by {
                        let q = parents_of(pf[x])[j];
                        reveal(Graph2::nodes_wf);
                        assert(edges_in(p0[x], p0.len()));
                        lemma_parents_in(p0[x], p0.len());
                        assert(parents_of(pf[x]) == parents_of(p0[x]));
                        assert(parents_of(p2[x]) == parents_of(p0[x]));
                        if p2[x].ptrs.height == p1[x].ptrs.height {
                            assert(p0[x].ptrs.height < p0[q as int].ptrs.height);
                            assert(p1[q as int].ptrs.height <= p2[q as int].ptrs.height);
                        }
                    }
                }
                assert forall|x: int|
                    0 <= x < p0.len() && #[trigger] pf[x].ptrs.height != p0[x].ptrs.height implies exists|s: Seq<int>|
                    #[trigger] is_path(p0, s) && s[0] == p as int && s.last() == x
                        && pf[x].ptrs.height == hc + s.len() by {
                    assert(p2[x].ptrs.height != p1[x].ptrs.height);
                    let s = choose|s: Seq<int>|
                        #[trigger] is_path(p1, s) && s[0] == p as int && s.last() == x && p2[x].ptrs.height == hc + 1 + s.len() - 1;
                    assert(is_path(p0, s));
                }
            }
        }
        match res {
            Ok(()) => Ok(false),
            Err(e) => Err(e),
        }
    }
    /// Moves a ready node to needing a recalculation.
    fn mark_needed(&mut self, node: NodeGuard)
        requires
            old(self).wf(),
            old(self).valid(node),
        ensures
            final(self).wf(),
            final(self).same_lists(*old(self)),
            final(self).nodes() == (if old(self).node(node).ptrs.recalc_state == RecalcState::Ready {
                old(self).nodes().update(
                    node.index(),
                    Node {
                        ptrs: NodePtrs { recalc_state: RecalcState::Needed, ..old(self).node(node).ptrs },
                        ..old(self).node(node)
                    },
                )
            } else {
                old(self).nodes()
            }),
    {
        proof {
            reveal(Graph2::nodes_wf);
        }
        if self.nodes[node.0].ptrs.recalc_state != RecalcState::Ready {
            return;
        }
        let ghost old_g = *self;
        self.nodes[node.0].ptrs.recalc_state = RecalcState::Needed;
        proof {
            assert forall|y: int| 0 <= y < old_g.nodes@.len() implies same_links(
                #[trigger] self.nodes@[y],
                old_g.nodes@[y],
            ) && edges_in(self.nodes@[y], self.nodes@.len()) by {
                assert(edges_in(old_g.nodes@[y], old_g.nodes@.len()));
            }
            Self::lemma_local_change(&old_g, self);
        }
    }

    /// Inserts a node as `insert` does, for tests that drive the graph directly.
    pub fn insert_testing(&mut self) -> (h: AnchorHandle)
        requires
            old(self).wf(),
        ensures
            final(self).wf(),
            h.key().graph_token() == final(self).graph_token(),
            h.key().index() < final(self).len(),
            final(self).graph_token() == old(self).graph_token(),
            final(self).num_heights() == old(self).num_heights(),
            final(self).queues() == old(self).queues(),
            old(self).free_list().len() > 0 ==> {
                &&& h.key().index() == old(self).free_list()[0]
                &&& final(self).free_list() == old(self).free_list().drop_first()
                &&& final(self).len() == old(self).len()
            },
            old(self).free_list().len() == 0 ==> {
                &&& h.key().index() == old(self).len()
                &&& final(self).free_list() == old(self).free_list()
                &&& final(self).len() == old(self).len() + 1
            },
            is_fresh(final(self).nodes()[h.key().index() as int], final(self).graph_token()),
            forall|i: int|
                0 <= i < old(self).len() && i != h.key().index() ==> node_data_eq(
                    #[trigger] final(self).nodes()[i],
                    old(self).nodes()[i],
                ) && final(self).nodes()[i].ptrs.recalc_state == old(self).nodes()[i].ptrs.recalc_state,
    {
        self.insert()
    }

    /// Inserts a node and returns a guard on it; the handle is not kept, so the
    /// node is never freed.
    pub fn insert_testing_guard(&mut self) -> (g: NodeGuard)
        requires
            old(self).wf(),
        ensures
            final(self).wf(),
            final(self).valid(g),
            final(self).graph_token() == old(self).graph_token(),
            final(self).num_heights() == old(self).num_heights(),
            final(self).queues() == old(self).queues(),
            is_fresh(final(self).node(g), final(self).graph_token()),
            old(self).free_list().len() > 0 ==> {
                &&& g.index() == old(self).free_list()[0]
                &&& final(self).free_list() == old(self).free_list().drop_first()
                &&& final(self).len() == old(self).len()
            },
            old(self).free_list().len() == 0 ==> {
                &&& g.index() == old(self).len()
                &&& final(self).free_list() == old(self).free_list()
                &&& final(self).len() == old(self).len() + 1
            },
            forall|i: int|
                0 <= i < old(self).len() && i != g.index() ==> node_data_eq(
                    #[trigger] final(self).nodes()[i],
                    old(self).nodes()[i],
                ) && final(self).nodes()[i].ptrs.recalc_state == old(self).nodes()[i].ptrs.recalc_state,
    {
        let h = self.insert();
        NodeGuard(h.num.ptr)
    }

}

impl NodeGuard {
    /// The key of this node.
    pub fn key(self, graph: &Graph2) -> (k: NodeKey)
        ensures
            k.index() == self.index(),
            k.graph_token() == graph.graph_token(),
    {
        graph.key(self)
    }

    /// Records `parent` as a clean parent of this node.
    pub fn add_clean_parent(self, graph: &mut Graph2, parent: NodeGuard)
        requires
            old(graph).wf(),
            old(graph).valid(self),
            old(graph).valid(parent),
        ensures
            final(graph).wf(),
            final(graph).same_lists(*old(graph)),
            final(graph).len() == old(graph).len(),
            parents_of(final(graph).node(self)) == parents_of(old(graph).node(self)).push(parent.index() as usize),
            forall|y: int| 0 <= y < old(graph).len() && y != self.index() ==> #[trigger] final(graph).nodes()[y] == old(graph).nodes()[y],
            node_data_eq(
                final(graph).node(self),
                Node {
                    ptrs: NodePtrs {
                        clean_parent0: final(graph).node(self).ptrs.clean_parent0,
                        clean_parents: final(graph).node(self).ptrs.clean_parents,
                        ..old(graph).node(self).ptrs
                    },
                    ..old(graph).node(self)
                },
            ),
            final(graph).node(self).ptrs.recalc_state == old(graph).node(self).ptrs.recalc_state,
    {
        graph.push_clean_parent(self.0, parent.0);
    }

    /// Drops `parent` from the clean parents of this node, wherever it appears;
    /// the other clean parents keep their order.
    pub fn remove_clean_parent(self, graph: &mut Graph2, parent: NodeGuard)
        requires
            old(graph).wf(),
            old(graph).valid(self),
        ensures
            final(graph).wf(),
            final(graph).same_lists(*old(graph)),
            final(graph).len() == old(graph).len(),
            parents_of(final(graph).node(self)) == parents_of(old(graph).node(self)).filter(
                |q: usize| q != parent.index() as usize,
            ),
            forall|y: int| 0 <= y < old(graph).len() && y != self.index() ==> #[trigger] final(graph).nodes()[y] == old(graph).nodes()[y],
            node_data_eq(
                final(graph).node(self),
                Node {
                    ptrs: NodePtrs {
                        clean_parent0: final(graph).node(self).ptrs.clean_parent0,
                        clean_parents: final(graph).node(self).ptrs.clean_parents,
                        ..old(graph).node(self).ptrs
                    },
                    ..old(graph).node(self)
                },
            ),
            final(graph).node(self).ptrs.recalc_state == old(graph).node(self).ptrs.recalc_state,
    {
        let c = self.0;
        let ghost orig = graph.nodes();
        let ghost pred = |q: usize| q != parent.index() as usize;
        let v = graph.take_clean_parents(c);
        proof {
            reveal(Seq::filter);
            assert(v@.take(0) =~= Seq::<usize>::empty());
            assert(Seq::<usize>::empty().filter(pred) =~= Seq::<usize>::empty());
        }
        let mut i: usize = 0;
        while i < v.len()
            invariant
                graph.wf(),
                graph.same_lists(*old(graph)),
                graph.len() == orig.len(),
                orig == old(graph).nodes(),
                c == self.index(),
                c < orig.len(),
                v@ == parents_of(orig[c as int]),
                forall|k: int| 0 <= k < v@.len() ==> #[trigger] v@[k] < orig.len(),
                i <= v@.len(),
                pred == (|q: usize| q != parent.index() as usize),
                parents_of(graph.nodes()[c as int]) == v@.take(i as int).filter(pred),
                forall|y: int| 0 <= y < orig.len() && y != c ==> #[trigger] graph.nodes()[y] == orig[y],
                node_data_eq(
                    graph.nodes()[c as int],
                    Node {
                        ptrs: NodePtrs {
                            clean_parent0: graph.nodes()[c as int].ptrs.clean_parent0,
                            clean_parents: graph.nodes()[c as int].ptrs.clean_parents,
                            ..orig[c as int].ptrs
                        },
                        ..orig[c as int]
                    },
                ),
                graph.nodes()[c as int].ptrs.recalc_state == orig[c as int].ptrs.recalc_state,
            decreases v@.len() - i,
        {
            let q = v[i];
            let ghost before = graph.nodes();
            if q != parent.0 {
                graph.push_clean_parent(c, q);
            }
            proof {
                reveal(Seq::filter);
                assert(v@.take(i + 1).drop_last() =~= v@.take(i as int));
                assert(v@.take(i + 1).last() == q);
                assert(v@.take(i + 1).filter(pred) == (if pred(q) {
                    v@.take(i as int).filter(pred).push(q)
                } else {
                    v@.take(i as int).filter(pred)
                }));
            }
            i = i + 1;
        }
        proof {
            assert(v@.take(v@.len() as int) =~= v@);
        }
    }

    /// The clean parents of this node, first one first; duplicates may appear.
    pub fn clean_parents(self, graph: &Graph2) -> (r: Vec<NodeGuard>)
        requires
            graph.wf(),
            graph.valid(self),
        ensures
            guard_slots(r@) == parents_of(graph.node(self)),
            forall|i: int| 0 <= i < r@.len() ==> graph.valid(#[trigger] r@[i]),
    {
        let v = graph.parents_vec(self.0);
        let r = to_guards(&v);
        proof {
            assert forall|i: int| 0 <= i < r@.len() implies graph.valid(#[trigger] r@[i]) by {
                assert(guard_slots(r@)[i] == v@[i]);
            }
        }
        r
    }

    /// Empties the clean parents of this node, returning them first one first.
    pub fn drain_clean_parents(self, graph: &mut Graph2) -> (r: Vec<NodeGuard>)
        requires
            old(graph).wf(),
            old(graph).valid(self),
        ensures
            final(graph).wf(),
            final(graph).same_lists(*old(graph)),
            final(graph).len() == old(graph).len(),
            guard_slots(r@) == parents_of(old(graph).node(self)),
            forall|i: int| 0 <= i < r@.len() ==> final(graph).valid(#[trigger] r@[i]),
            parents_of(final(graph).node(self)).len() == 0,
            forall|y: int| 0 <= y < old(graph).len() && y != self.index() ==> #[trigger] final(graph).nodes()[y] == old(graph).nodes()[y],
            node_data_eq(
                final(graph).node(self),
                Node {
                    ptrs: NodePtrs {
                        clean_parent0: final(graph).node(self).ptrs.clean_parent0,
                        clean_parents: final(graph).node(self).ptrs.clean_parents,
                        ..old(graph).node(self).ptrs
                    },
                    ..old(graph).node(self)
                },
            ),
            final(graph).node(self).ptrs.recalc_state == old(graph).node(self).ptrs.recalc_state,
    {
        let v = graph.take_clean_parents(self.0);
        let r = to_guards(&v);
        proof {
            assert forall|i: int| 0 <= i < r@.len() implies final(graph).valid(#[trigger] r@[i]) by {
                assert(guard_slots(r@)[i] == v@[i]);
            }
        }
        r
    }

    /// Adds `child` to the necessary children of this node, counting the new
    /// edge on `child`; nothing changes if the edge is already there.
    pub fn add_necessary_child(self, graph: &mut Graph2, child: NodeGuard) -> (r: Result<(), GraphError>)
        requires
            old(graph).wf(),
            old(graph).valid(self),
            old(graph).valid(child),
        ensures
            final(graph).wf(),
            final(graph).same_lists(*old(graph)),
            ({
                let old_list = old(graph).node(self).ptrs.necessary_children@;
                let old_count = old(graph).node(child).necessary_count;
                if old_list.contains(child.index() as usize) {
                    r is Ok && final(graph).nodes() == old(graph).nodes()
                } else if old_count == usize::MAX {
                    r == Err::<(), GraphError>(GraphError::CountOverflow) && final(graph).nodes() == old(graph).nodes()
                } else {
                    &&& r is Ok
                    &&& final(graph).len() == old(graph).len()
                    &&& final(graph).node(self).ptrs.necessary_children@.to_set() == old_list.to_set().insert(child.index() as usize)
                    &&& final(graph).node(self).ptrs.necessary_children@.len() == old_list.len() + 1
                    &&& final(graph).node(child).necessary_count == old_count + 1
                    &&& forall|y: int|
                        0 <= y < old(graph).len() && y != self.index() && y != child.index() ==> #[trigger] final(graph).nodes()[y]
                            == old(graph).nodes()[y]
                    &&& self != child ==> final(graph).node(self) == Node {
                        ptrs: NodePtrs {
                            necessary_children: final(graph).node(self).ptrs.necessary_children,
                            ..old(graph).node(self).ptrs
                        },
                        ..old(graph).node(self)
                    }
                    &&& self != child ==> final(graph).node(child) == Node {
                        necessary_count: (old_count + 1) as usize,
                        ..old(graph).node(child)
                    }
                    &&& self == child ==> final(graph).node(child) == Node {
                        necessary_count: final(graph).node(child).necessary_count,
                        ptrs: NodePtrs {
                            necessary_children: final(graph).node(child).ptrs.necessary_children,
                            ..old(graph).node(child).ptrs
                        },
                        ..old(graph).node(child)
                    }
                }
            }),
    {
        graph.add_necessary_edge(self.0, child.0)
    }

    /// Removes `child` from the necessary children of this node, uncounting the
    /// edge on `child`; nothing changes if there is no such edge.
    pub fn remove_necessary_child(self, graph: &mut Graph2, child: NodeGuard) -> (r: Result<(), GraphError>)
        requires
            old(graph).wf(),
            old(graph).valid(self),
            old(graph).valid(child),
        ensures
            final(graph).wf(),
            final(graph).same_lists(*old(graph)),
            ({
                let old_list = old(graph).node(self).ptrs.necessary_children@;
                let old_count = old(graph).node(child).necessary_count;
                if !old_list.contains(child.index() as usize) {
                    r is Ok && final(graph).nodes() == old(graph).nodes()
                } else if old_count == 0 {
                    r == Err::<(), GraphError>(GraphError::CountUnderflow) && final(graph).nodes() == old(graph).nodes()
                } else {
                    &&& r is Ok
                    &&& final(graph).len() == old(graph).len()
                    &&& final(graph).node(self).ptrs.necessary_children@.to_set() == old_list.to_set().remove(child.index() as usize)
                    &&& final(graph).node(self).ptrs.necessary_children@.len() == old_list.len() - 1
                    &&& final(graph).node(child).necessary_count == old_count - 1
                    &&& forall|y: int|
                        0 <= y < old(graph).len() && y != self.index() && y != child.index() ==> #[trigger] final(graph).nodes()[y]
                            == old(graph).nodes()[y]
                    &&& self != child ==> final(graph).node(self) == Node {
                        ptrs: NodePtrs {
                            necessary_children: final(graph).node(self).ptrs.necessary_children,
                            ..old(graph).node(self).ptrs
                        },
                        ..old(graph).node(self)
                    }
                    &&& self != child ==> final(graph).node(child) == Node {
                        necessary_count: (old_count - 1) as usize,
                        ..old(graph).node(child)
                    }
                    &&& self == child ==> final(graph).node(child) == Node {
                        necessary_count: final(graph).node(child).necessary_count,
                        ptrs: NodePtrs {
                            necessary_children: final(graph).node(child).ptrs.necessary_children,
                            ..old(graph).node(child).ptrs
                        },
                        ..old(graph).node(child)
                    }
                }
            }),
    {
        graph.remove_necessary_edge(self.0, child.0)
    }

    /// The necessary children of this node, in slot order.
    pub fn necessary_children(self, graph: &Graph2) -> (r: Vec<NodeGuard>)
        requires
            graph.wf(),
            graph.valid(self),
        ensures
            guard_slots(r@) == graph.node(self).ptrs.necessary_children@,
            forall|i: int| 0 <= i < r@.len() ==> graph.valid(#[trigger] r@[i]),
    {
        proof {
            reveal(Graph2::nodes_wf);
            assert(edges_in(graph.nodes@[self.0 as int], graph.nodes@.len()));
        }
        let r = to_guards(&graph.nodes[self.0].ptrs.necessary_children);
        proof {
            assert forall|i: int| 0 <= i < r@.len() implies graph.valid(#[trigger] r@[i]) by {
                assert(guard_slots(r@)[i] == graph.nodes@[self.0 as int].ptrs.necessary_children@[i]);
            }
        }
        r
    }

    /// Empties the necessary children of this node, uncounting each edge on its
    /// child, and returns them in slot order.
    pub fn drain_necessary_children(self, graph: &mut Graph2) -> (r: Result<Vec<NodeGuard>, GraphError>)
        requires
            old(graph).wf(),
            old(graph).valid(self),
        ensures
            final(graph).wf(),
            final(graph).same_lists(*old(graph)),
            final(graph).len() == old(graph).len(),
            forall|y: int|
                0 <= y < old(graph).len() ==> (#[trigger] final(graph).nodes()[y]) == (Node {
                    necessary_count: final(graph).nodes()[y].necessary_count,
                    ptrs: NodePtrs { necessary_children: final(graph).nodes()[y].ptrs.necessary_children, ..old(graph).nodes()[y].ptrs },
                    ..old(graph).nodes()[y]
                }),
            ({
                let list = old(graph).node(self).ptrs.necessary_children@;
                &&& r is Ok <==> forall|i: int| 0 <= i < list.len() ==> old(graph).nodes()[#[trigger] list[i] as int].necessary_count >= 1
                &&& r matches Ok(v) ==> {
                    &&& guard_slots(v@) == list
                    &&& forall|i: int| 0 <= i < v@.len() ==> final(graph).valid(#[trigger] v@[i])
                    &&& final(graph).node(self).ptrs.necessary_children@.len() == 0
                    &&& forall|y: int|
                        0 <= y < old(graph).len() ==> (#[trigger] final(graph).nodes()[y]) == (Node {
                            necessary_count: (old(graph).nodes()[y].necessary_count - (if list.contains(y as usize) {
                                1int
                            } else {
                                0int
                            })) as usize,
                            ptrs: NodePtrs {
                                necessary_children: final(graph).nodes()[y].ptrs.necessary_children,
                                ..old(graph).nodes()[y].ptrs
                            },
                            ..old(graph).nodes()[y]
                        })
                    &&& forall|y: int|
                        0 <= y < old(graph).len() && y != self.index() ==> (#[trigger] final(graph).nodes()[y]).ptrs.necessary_children@
                            == old(graph).nodes()[y].ptrs.necessary_children@
                }
            }),
    {
        proof {
            reveal(Graph2::nodes_wf);
            assert(edges_in(graph.nodes@[self.0 as int], graph.nodes@.len()));
        }
        match graph.take_necessary_children(self.0) {
            Ok(v) => {
                let r = to_guards(&v);
                proof {
                    assert forall|i: int| 0 <= i < r@.len() implies final(graph).valid(#[trigger] r@[i]) by {
                        assert(guard_slots(r@)[i] == v@[i]);
                    }
                }
                Ok(r)
            },
            Err(e) => Err(e),
        }
    }
}

/// The height of a node.
pub fn height(graph: &Graph2, node: NodeGuard) -> (h: usize)
    requires
        graph.valid(node),
    ensures
        h == graph.node(node).ptrs.height,
{
    graph.node_ref(node).ptrs.height
}

/// Makes sure `child` sits below `parent` before `parent` starts depending on
/// it: `Ok(true)` when it already did, `Ok(false)` when heights were raised.
pub fn ensure_height_increases(graph: &mut Graph2, child: NodeGuard, parent: NodeGuard) -> (r: Result<bool, GraphError>)
    requires
        old(graph).wf(),
        old(graph).valid(child),
        old(graph).valid(parent),
        old(graph).none_visited(),
    ensures
        final(graph).wf(),
        final(graph).same_lists(*old(graph)),
        only_heights_visited_changed(old(graph).nodes(), final(graph).nodes()),
        forall|x: int| 0 <= x < old(graph).len() ==> old(graph).nodes()[x].ptrs.height <= #[trigger] final(graph).nodes()[x].ptrs.height,
        (r == Ok::<bool, GraphError>(true)) <==> old(graph).node(child).ptrs.height < old(graph).node(parent).ptrs.height,
        r == Ok::<bool, GraphError>(true) ==> final(graph).nodes() == old(graph).nodes(),
        old(graph).node(child).ptrs.height >= old(graph).node(parent).ptrs.height && old(graph).node(child).ptrs.height
            >= usize::MAX - old(graph).len() ==> r == Err::<bool, GraphError>(GraphError::HeightOverflow)
            && final(graph).nodes() == old(graph).nodes(),
        r is Err ==> r == Err::<bool, GraphError>(GraphError::HeightOverflow) || r == Err::<bool, GraphError>(
            GraphError::LoopDetected,
        ),
        heights_consistent(old(graph).nodes()) && reaches(old(graph).nodes(), parent.index(), set![child.index()])
            && old(graph).node(child).ptrs.height < usize::MAX - old(graph).len() ==> r == Err::<bool, GraphError>(GraphError::LoopDetected),
        heights_consistent(old(graph).nodes()) && old(graph).node(child).ptrs.height < usize::MAX - old(graph).len() ==> (r is Err
            <==> reaches(old(graph).nodes(), parent.index(), set![child.index()])),
        r == Err::<bool, GraphError>(GraphError::HeightOverflow) ==> old(graph).node(child).ptrs.height >= old(graph).node(parent).ptrs.height
            && old(graph).node(child).ptrs.height >= usize::MAX - old(graph).len(),
        r == Err::<bool, GraphError>(GraphError::LoopDetected) ==> reaches(old(graph).nodes(), parent.index(), set![child.index()])
            || has_cycle(old(graph).nodes()),
        r is Ok ==> {
            &&& final(graph).none_visited()
            &&& final(graph).node(child).ptrs.height < final(graph).node(parent).ptrs.height
            &&& final(graph).node(child).ptrs.height == old(graph).node(child).ptrs.height
            &&& heights_consistent(old(graph).nodes()) ==> heights_consistent(final(graph).nodes())
        },
        r == Ok::<bool, GraphError>(false) ==> forall|x: int|
            0 <= x < old(graph).len() && #[trigger] final(graph).nodes()[x].ptrs.height != old(graph).nodes()[x].ptrs.height
                ==> exists|s: Seq<int>|
                #[trigger] is_path(old(graph).nodes(), s) && s[0] == parent.index() && s.last() == x
                    && final(graph).nodes()[x].ptrs.height == old(graph).node(child).ptrs.height + s.len(),
{
    proof {
        graph.lemma_len_bound();
        if heights_consistent(graph.nodes()) {
            lemma_consistent_acyclic(graph.nodes());
        }
    }
    graph.raise_for_edge(child, parent)
}

/// Raises `node` to at least `min_height`, and, as far as needed, its clean
/// parents above it, their parents above them, and so on.
pub fn set_min_height(graph: &mut Graph2, node: NodeGuard, min_height: usize) -> (r: Result<(), GraphError>)
    requires
        old(graph).wf(),
        old(graph).valid(node),
        old(graph).none_visited(),
    ensures
        final(graph).wf(),
        final(graph).same_lists(*old(graph)),
        only_heights_visited_changed(old(graph).nodes(), final(graph).nodes()),
        forall|x: int| 0 <= x < old(graph).len() ==> old(graph).nodes()[x].ptrs.height <= #[trigger] final(graph).nodes()[x].ptrs.height,
        min_height >= usize::MAX - old(graph).len() ==> r == Err::<(), GraphError>(GraphError::HeightOverflow)
            && final(graph).nodes() == old(graph).nodes(),
        r is Err ==> r == Err::<(), GraphError>(GraphError::HeightOverflow) || (r == Err::<(), GraphError>(GraphError::LoopDetected)
            && has_cycle(old(graph).nodes())),
        r == Err::<(), GraphError>(GraphError::HeightOverflow) ==> min_height >= usize::MAX - old(graph).len(),
        heights_consistent(old(graph).nodes()) && min_height < usize::MAX - old(graph).len() ==> r is Ok,
        r is Ok ==> {
            &&& final(graph).none_visited()
            &&& final(graph).node(node).ptrs.height == (if old(graph).node(node).ptrs.height < min_height {
                min_height
            } else {
                old(graph).node(node).ptrs.height
            })
            &&& heights_consistent(old(graph).nodes()) ==> heights_consistent(final(graph).nodes())
        },
        forall|x: int|
            0 <= x < old(graph).len() && #[trigger] final(graph).nodes()[x].ptrs.height != old(graph).nodes()[x].ptrs.height
                ==> exists|s: Seq<int>|
                #[trigger] is_path(old(graph).nodes(), s) && s[0] == node.index() && s.last() == x
                    && final(graph).nodes()[x].ptrs.height == min_height + s.len() - 1,
{
    proof {
        graph.lemma_len_bound();
        lemma_count_unvisited_bound(graph.nodes());
        if heights_consistent(graph.nodes()) {
            lemma_consistent_acyclic(graph.nodes());
        }
    }
    graph.raise_to(node.0, min_height)
}

/// Marks a ready node as needing a recalculation; other states are left alone.
pub fn needs_recalc(graph: &mut Graph2, node: NodeGuard)
    requires
        old(graph).wf(),
        old(graph).valid(node),
    ensures
        final(graph).wf(),
        final(graph).same_lists(*old(graph)),
        final(graph).nodes() == (if old(graph).node(node).ptrs.recalc_state == RecalcState::Ready {
            old(graph).nodes().update(
                node.index(),
                Node {
                    ptrs: NodePtrs { recalc_state: RecalcState::Needed, ..old(graph).node(node).ptrs },
                    ..old(graph).node(node)
                },
            )
        } else {
            old(graph).nodes()
        }),
{
    graph.mark_needed(node)
}

/// The recalculation state of a node.
pub fn recalc_state(graph: &Graph2, node: NodeGuard) -> (s: RecalcState)
    requires
        graph.valid(node),
    ensures
        s == graph.node(node).ptrs.recalc_state,
{
    graph.node_ref(node).ptrs.recalc_state
}


} // verus!
