//! Values set from outside the recomputation graph.
use vstd::prelude::*;

use crate::poll::Poll;
use crate::singlethread::engine::DirtyHandle;
use crate::singlethread::graph2::NodeKey;

verus! {

/// What a `Var` shares with its setters: the value set since the var was last
/// polled, and, once the var has been polled, the handle that marks it dirty.
pub struct VarSetter<T> {
    dirty_handle: Option<DirtyHandle>,
    val: Option<T>,
}

impl<T> VarSetter<T> {
    pub closed spec fn handle(&self) -> Option<DirtyHandle> {
        self.dirty_handle
    }

    pub closed spec fn pending_value(&self) -> Option<T> {
        self.val
    }

    /// The state of a var that was never set nor polled.
    pub fn new() -> (s: Self)
        ensures
            s.handle() is None,
            s.pending_value() is None,
    {
        VarSetter { dirty_handle: None, val: None }
    }

    /// Updates the value inside the Var, and indicates to the recomputation graph that
    /// the value has changed: once the var has been polled, its key joins `dirty_marks`.
    pub fn set(&mut self, val: T, dirty_marks: &mut Vec<NodeKey>)
        ensures
            final(self).pending_value() == Some(val),
            final(self).handle() == old(self).handle(),
            final(dirty_marks)@ == (match old(self).handle() {
                Some(h) => old(dirty_marks)@.push(h.key()),
                None => old(dirty_marks)@,
            }),
    {
        self.val = Some(val);
        if let Some(waker) = &self.dirty_handle {
            waker.mark_dirty(dirty_marks);
        }
    }
}

/// A node whose value is set from outside the recomputation graph.
pub struct Var<T> {
    my_val: T,
}

impl<T> Var<T> {
    pub closed spec fn value(&self) -> T {
        self.my_val
    }

    /// Creates a var holding `val`, with the state it shares with its setter.
    pub fn new(val: T) -> (r: (Var<T>, VarSetter<T>))
        ensures
            r.0.value() == val,
            r.1.handle() is None,
            r.1.pending_value() is None,
    {
        (Var { my_val: val }, VarSetter::new())
    }

    /// Polls the var: the first poll keeps `handle` in the shared state; a value set
    /// since the last poll is taken in. `Updated` on the first poll and whenever a
    /// value was taken in, `Unchanged` otherwise.
    pub fn poll_updated(&mut self, shared: &mut VarSetter<T>, handle: DirtyHandle) -> (r: Poll)
        ensures
            final(shared).handle() == (match old(shared).handle() {
                Some(h) => Some(h),
                None => Some(handle),
            }),
            final(shared).pending_value() is None,
            final(self).value() == (match old(shared).pending_value() {
                Some(v) => v,
                None => old(self).value(),
            }),
            r == (if old(shared).pending_value() is Some || old(shared).handle() is None {
                Poll::Updated
            } else {
                Poll::Unchanged
            }),
    {
        let first_update = shared.dirty_handle.is_none();
        if first_update {
            shared.dirty_handle = Some(handle);
        }
        if let Some(new_val) = shared.val.take() {
            self.my_val = new_val;
            Poll::Updated
        } else if first_update {
            Poll::Updated
        } else {
            Poll::Unchanged
        }
    }

    /// The current value.
    pub fn output(&self) -> (r: &T)
        ensures
            *r == self.value(),
    {
        &self.my_val
    }
}

/// The last value set before a poll wins: when `set(a)` turns `s0` into `s1`,
/// `set(b)` turns `s1` into `s2` (as `set` says), and a poll turns `v0` into `v1`
/// taking in what `s2` holds (as `poll_updated` says), the var holds `b` and the
/// poll answers `Updated`; `a` is never seen.
pub proof fn law_last_set_wins<T>(s1: VarSetter<T>, s2: VarSetter<T>, a: T, b: T, v0: Var<T>, v1: Var<T>, r: Poll)
    requires
        s1.pending_value() == Some(a),
        s2.pending_value() == Some(b),
        v1.value() == (match s2.pending_value() {
            Some(v) => v,
            None => v0.value(),
        }),
        r == (if s2.pending_value() is Some || s2.handle() is None {
            Poll::Updated
        } else {
            Poll::Unchanged
        }),
    ensures
        v1.value() == b,
        r == Poll::Updated,
{
}

/// A value set before the var was ever polled is not lost, though no dirty mark
/// is made: when `set(y)` turns `s0`, which has no handle yet, into `s1` (as `set`
/// says), the dirty marks stay as they were, and the next poll takes `y` in and
/// answers `Updated` (as `poll_updated` says).
pub proof fn law_set_before_first_poll_is_kept<T>(
    s0: VarSetter<T>,
    s1: VarSetter<T>,
    y: T,
    marks0: Seq<NodeKey>,
    marks1: Seq<NodeKey>,
    v0: Var<T>,
    v1: Var<T>,
    r: Poll,
)
    requires
        s0.handle() is None,
        s1.pending_value() == Some(y),
        s1.handle() == s0.handle(),
        marks1 == (match s0.handle() {
            Some(h) => marks0.push(h.key()),
            None => marks0,
        }),
        v1.value() == (match s1.pending_value() {
            Some(v) => v,
            None => v0.value(),
        }),
        r == (if s1.pending_value() is Some || s1.handle() is None {
            Poll::Updated
        } else {
            Poll::Unchanged
        }),
    ensures
        marks1 == marks0,
        v1.value() == y,
        r == Poll::Updated,
{
}

} // verus!
