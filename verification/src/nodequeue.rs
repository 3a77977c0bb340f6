//! A recalculation queue keyed by slot-map keys: a bucketed heap of keys beside a
//! secondary map of their states.
use vstd::prelude::*;

use crate::fakeheap::FakeHeap;
use crate::slots::{StateMap, state_entries, states_new};

verus! {

/// Where a node stands in the recalculation schedule.
#[derive(PartialEq, Eq, Structural, Debug, Clone, Copy)]
pub enum NodeState {
    NeedsRecalc,
    PendingRecalc,
    Ready,
}

impl Default for NodeState {
    fn default() -> (s: Self)
        ensures
            s == NodeState::NeedsRecalc,
    {
        NodeState::NeedsRecalc
    }
}

/// The keys waiting for recalculation, by height, and the state of each key.
pub struct NodeQueue {
    heap: FakeHeap<u64>,
    states: StateMap,
}

impl NodeQueue {
    pub closed spec fn heap(&self) -> Seq<Seq<u64>> {
        self.heap.lists()
    }

    pub closed spec fn states(&self) -> Map<u64, NodeState> {
        state_entries(self.states)
    }

    /// An empty queue with `max_height` heights.
    pub fn new(max_height: usize) -> (q: Self)
        ensures
            q.heap() == Seq::new(max_height as nat, |h: int| Seq::<u64>::empty()),
            q.states() == Map::<u64, NodeState>::empty(),
    {
        NodeQueue { heap: FakeHeap::new(max_height), states: states_new() }
    }
}

} // verus!
