//! The scheduling decisions of the derived nodes: `map`, `then`, `cutoff` and
//! `refmap`. The functions they apply are the caller's; what they answer the
//! engine, and when they drop what they computed, is decided here.
use vstd::prelude::*;

use crate::poll::Poll;
use crate::singlethread::graph2::NodeKey;

verus! {

/// Splits a node whose output is a tuple into one node per field.
pub trait AnchorSplit<E>: Sized {
    type Target;

    fn split(&self) -> Self::Target;
}

/// True when one of the answers to a node's requests is `Pending`.
pub fn any_pending(answers: &Vec<Poll>) -> (r: bool)
    ensures
        r <==> exists|i: int| 0 <= i < answers@.len() && #[trigger] answers@[i] == Poll::Pending,
{
    let mut found_pending = false;
    let mut i: usize = 0;
    while i < answers.len()
        invariant
            i <= answers@.len(),
            found_pending <==> exists|j: int| 0 <= j < i && #[trigger] answers@[j] == Poll::Pending,
        decreases answers@.len() - i,
    {
        if answers[i].is_pending() {
            found_pending = true;
        }
        i = i + 1;
    }
    found_pending
}

/// A node computed from the outputs of its inputs by a function.
pub struct MapNode<Out> {
    output: Option<Out>,
}

impl<Out> MapNode<Out> {
    pub closed spec fn stored(&self) -> Option<Out> {
        self.output
    }

    /// A map that has not computed its output yet.
    pub fn new() -> (m: Self)
        ensures
            m.stored() is None,
    {
        MapNode { output: None }
    }

    /// What a map answers once its inputs answered: `Pending` if one of them is
    /// pending; `Unchanged`, keeping its output, when it has one and none of them
    /// was `Updated`; otherwise `Updated`, and its function must run again.
    pub fn poll_inputs(&self, answers: &Vec<Poll>) -> (r: Poll)
        ensures
            r == (if exists|i: int| 0 <= i < answers@.len() && #[trigger] answers@[i] == Poll::Pending {
                Poll::Pending
            } else if self.stored() is Some && !exists|i: int|
                0 <= i < answers@.len() && #[trigger] answers@[i] == Poll::Updated {
                Poll::Unchanged
            } else {
                Poll::Updated
            }),
    {
        if any_pending(answers) {
            return Poll::Pending;
        }
        let mut found_updated = false;
        let mut i: usize = 0;
        while i < answers.len()
            invariant
                i <= answers@.len(),
                found_updated <==> exists|j: int| 0 <= j < i && #[trigger] answers@[j] == Poll::Updated,
            decreases answers@.len() - i,
        {
            if answers[i] == Poll::Updated {
                found_updated = true;
            }
            i = i + 1;
        }
        if self.output.is_some() && !found_updated {
            Poll::Unchanged
        } else {
            Poll::Updated
        }
    }

    /// Keeps the freshly computed output.
    pub fn store(&mut self, v: Out)
        ensures
            final(self).stored() == Some(v),
    {
        self.output = Some(v);
    }

    /// The output, once computed.
    pub fn output(&self) -> (r: Option<&Out>)
        ensures
            r == (match self.stored() {
                Some(v) => Some(&v),
                None => None,
            }),
    {
        match &self.output {
            Some(v) => Some(v),
            None => None,
        }
    }
}

/// A node whose function picks another node, whose output it then passes on.
pub struct Then {
    inputs: Vec<NodeKey>,
    f_anchor: Option<NodeKey>,
}

impl Then {
    pub closed spec fn inputs(&self) -> Seq<NodeKey> {
        self.inputs@
    }

    pub closed spec fn chosen(&self) -> Option<NodeKey> {
        self.f_anchor
    }

    /// A `then` over the nodes of `inputs`, that has not picked a node yet.
    pub fn new(inputs: Vec<NodeKey>) -> (t: Self)
        ensures
            t.inputs() == inputs@,
            t.chosen() is None,
    {
        Then { inputs, f_anchor: None }
    }

    /// True while no node is picked: the inputs must be requested and the function run.
    pub fn needs_inputs(&self) -> (r: bool)
        ensures
            r <==> self.chosen() is None,
    {
        self.f_anchor.is_none()
    }

    /// Keeps the node the function picked.
    pub fn choose_node(&mut self, key: NodeKey)
        ensures
            final(self).chosen() == Some(key),
            final(self).inputs() == old(self).inputs(),
    {
        self.f_anchor = Some(key);
    }

    /// The node picked, if any.
    pub fn chosen_node(&self) -> (r: Option<NodeKey>)
        ensures
            r == self.chosen(),
    {
        self.f_anchor
    }

    /// A requested node may have changed: the pick is dropped only if it is one of
    /// the inputs, not the picked node itself.
    pub fn dirty(&mut self, edge: NodeKey)
        ensures
            final(self).inputs() == old(self).inputs(),
            final(self).chosen() == (if old(self).inputs().contains(edge) {
                None
            } else {
                old(self).chosen()
            }),
    {
        let mut i: usize = 0;
        while i < self.inputs.len()
            invariant
                i <= self.inputs@.len(),
                self.inputs@ == old(self).inputs@,
                self.f_anchor == old(self).f_anchor,
                forall|j: int| 0 <= j < i ==> self.inputs@[j] != edge,
            decreases self.inputs@.len() - i,
        {
            if self.inputs[i] == edge {
                self.f_anchor = None;
                return;
            }
            i = i + 1;
        }
    }

    /// What a `then` answers once the picked node answered: `Pending` while it is
    /// pending, `Updated` otherwise.
    pub fn poll_chosen(answer: Poll) -> (r: Poll)
        ensures
            r == (if answer == Poll::Pending {
                Poll::Pending
            } else {
                Poll::Updated
            }),
    {
        if answer.is_pending() {
            Poll::Pending
        } else {
            Poll::Updated
        }
    }
}

/// What a `cutoff` answers: its input's answer unless the input was `Updated`;
/// then `Updated` when its function (run only in that case) found the change
/// worth passing on, `Unchanged` otherwise.
pub fn cutoff_poll(upstream: Poll, changed: bool) -> (r: Poll)
    ensures
        r == (if upstream != Poll::Updated {
            upstream
        } else if changed {
            Poll::Updated
        } else {
            Poll::Unchanged
        }),
{
    match upstream {
        Poll::Updated => {
            if changed {
                Poll::Updated
            } else {
                Poll::Unchanged
            }
        },
        other => other,
    }
}

/// One change between two observations of an ordered map.
#[derive(Clone, Copy, PartialEq, Eq, Structural, Debug)]
pub enum DiffKind {
    Add,
    Update,
    Remove,
}

/// What a mapped map does with the key of a change.
#[derive(Clone, Copy, PartialEq, Eq, Structural, Debug)]
pub enum MapEdit {
    Insert,
    Remove,
    Keep,
}

/// What `filter_map` does with one change of its input map: `mapped` tells
/// whether the function gave a value for the new entry of an added or updated
/// key, `present` whether the output holds the key. Answers the edit of the
/// output and whether the output changed: an entry the function keeps is
/// inserted; an updated entry it drops is removed if the output held it; a
/// removed key is removed.
pub fn filter_map_step(change: DiffKind, mapped: bool, present: bool) -> (r: (MapEdit, bool))
    ensures
        r == (match change {
            DiffKind::Add => if mapped {
                (MapEdit::Insert, true)
            } else {
                (MapEdit::Keep, false)
            },
            DiffKind::Update => if mapped {
                (MapEdit::Insert, true)
            } else if present {
                (MapEdit::Remove, true)
            } else {
                (MapEdit::Keep, false)
            },
            DiffKind::Remove => (MapEdit::Remove, true),
        }),
{
    match change {
        DiffKind::Add => {
            if mapped {
                (MapEdit::Insert, true)
            } else {
                (MapEdit::Keep, false)
            }
        },
        DiffKind::Update => {
            if mapped {
                (MapEdit::Insert, true)
            } else if present {
                (MapEdit::Remove, true)
            } else {
                (MapEdit::Keep, false)
            }
        },
        DiffKind::Remove => (MapEdit::Remove, true),
    }
}

/// A node whose output collects the outputs of its inputs, in order.
pub struct VecCollect<T> {
    vals: Option<Vec<T>>,
}

impl<T> VecCollect<T> {
    pub closed spec fn collected(&self) -> Option<Seq<T>> {
        match self.vals {
            Some(v) => Some(v@),
            None => None,
        }
    }

    /// A collection that has not collected yet.
    pub fn new() -> (c: Self)
        ensures
            c.collected() is None,
    {
        VecCollect { vals: None }
    }

    /// True while nothing is collected: the inputs must be requested, and once
    /// none is pending, their outputs collected.
    pub fn needs_values(&self) -> (r: bool)
        ensures
            r <==> self.collected() is None,
    {
        self.vals.is_none()
    }

    /// What a collection answers once its inputs answered: while nothing is
    /// collected, `Pending` if one of them is pending; otherwise `Updated`.
    pub fn poll_inputs(&self, answers: &Vec<Poll>) -> (r: Poll)
        ensures
            r == (if self.collected() is None && exists|i: int| 0 <= i < answers@.len() && #[trigger] answers@[i] == Poll::Pending {
                Poll::Pending
            } else {
                Poll::Updated
            }),
    {
        if self.vals.is_none() && any_pending(answers) {
            Poll::Pending
        } else {
            Poll::Updated
        }
    }

    /// Keeps the collected outputs.
    pub fn store(&mut self, vals: Vec<T>)
        ensures
            final(self).collected() == Some(vals@),
    {
        self.vals = Some(vals);
    }

    /// An input may have changed: what was collected is dropped.
    pub fn dirty(&mut self)
        ensures
            final(self).collected() is None,
    {
        self.vals = None;
    }

    /// The collected outputs, once collected.
    pub fn output(&self) -> (r: Option<&Vec<T>>)
        ensures
            r matches Some(v) ==> self.collected() == Some(v@),
            r is None <==> self.collected() is None,
    {
        match &self.vals {
            Some(v) => Some(v),
            None => None,
        }
    }
}

} // verus!
