use vstd::prelude::*;

verus! {

/// Indicates whether a value is ready for reading, and if it is, whether it's changed
/// since the last read.
#[derive(Debug, Clone, Copy, PartialEq, Eq, Structural)]
pub enum Poll {
    /// Indicates the polled value is ready for reading. Either this is the first read,
    /// or the value has changed since the last read.
    Updated,
    /// Indicates the polled value is ready for reading. This is not the first read, and
    /// the value is unchanged since the previous read.
    Unchanged,
    /// Indicates the polled value is not ready for reading, but has been queued for recalculation.
    /// The output value will eventually switch to Updated or Unchanged.
    Pending,
}

impl Poll {
    /// True when the polled value is not ready yet.
    pub fn is_pending(&self) -> (r: bool)
        ensures
            r <==> *self == Poll::Pending,
    {
        match self {
            Poll::Pending => true,
            _ => false,
        }
    }
}

} // verus!
