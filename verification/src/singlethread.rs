//! Singlethread is the default execution engine: a single threaded engine capable of both
//! pull updates and, for nodes marked observed, push updates.
use vstd::prelude::*;

pub mod engine;
pub mod generation;
pub mod graph2;
pub mod laws;

pub use engine::{node_observed_state, observed_state, Engine, EngineError, ObservedState};
pub use generation::Generation;
pub use graph2::{AnchorHandle, Graph2, GraphError, Node, NodeGuard, NodeKey, RecalcState};

verus! {

} // verus!
