//! Values that never change.
use vstd::prelude::*;

use crate::poll::Poll;

verus! {

/// A node for an immutable value.
pub struct Constant<T> {
    val: T,
    first_poll: bool,
}

impl<T> Constant<T> {
    pub closed spec fn value(&self) -> T {
        self.val
    }

    /// True until the constant has been polled once.
    pub closed spec fn unpolled(&self) -> bool {
        self.first_poll
    }

    /// Creates a constant holding `val`, not polled yet.
    pub fn new(val: T) -> (c: Self)
        ensures
            c.value() == val,
            c.unpolled(),
    {
        Constant { val, first_poll: true }
    }

    /// `Updated` on the first poll, `Unchanged` ever after.
    pub fn poll_updated(&mut self) -> (r: Poll)
        ensures
            final(self).value() == old(self).value(),
            !final(self).unpolled(),
            r == (if old(self).unpolled() {
                Poll::Updated
            } else {
                Poll::Unchanged
            }),
    {
        let res = if self.first_poll {
            Poll::Updated
        } else {
            Poll::Unchanged
        };
        self.first_poll = false;
        res
    }

    /// The value.
    pub fn output(&self) -> (r: &T)
        ensures
            *r == self.value(),
    {
        &self.val
    }
}

} // verus!
