//! Self-adjusting computations: a recomputation graph whose nodes are brought
//! up to date incrementally, with its scheduling and bookkeeping verified.
use vstd::prelude::*;

pub mod constant;
pub mod ext;
pub mod fakeheap;
pub mod nodequeue;
pub mod poll;
pub mod refcounter;
pub mod singlethread;
pub mod slots;
pub mod var;

pub use constant::Constant;
pub use ext::AnchorSplit;
pub use poll::Poll;
pub use var::{Var, VarSetter};

verus! {

} // verus!
