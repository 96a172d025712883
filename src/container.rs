//! The per-subscription sample container: an ordered queue of sample
//! references, oldest first.
use vstd::prelude::*;

use std::collections::VecDeque;

use crate::error::Error;

verus! {

/// A container for samples received from a subscription, in reception
/// order, the oldest at the front.
pub struct SampleContainer<S> {
    inner: VecDeque<S>,
}

impl<S> View for SampleContainer<S> {
    type V = Seq<S>;

    closed spec fn view(&self) -> Seq<S> {
        self.inner@
    }
}

impl<S> Default for SampleContainer<S> {
    fn default() -> (r: Self)
        ensures
            r@ == Seq::<S>::empty(),
    {
        SampleContainer { inner: VecDeque::new() }
    }
}

impl<S> SampleContainer<S> {
    /// Creates an empty container.
    pub fn new() -> (r: Self)
        ensures
            r@ == Seq::<S>::empty(),
    {
        SampleContainer { inner: VecDeque::new() }
    }

    /// Removes and returns the oldest sample, if any.
    pub fn pop_front(&mut self) -> (r: Option<S>)
        ensures
            old(self)@.len() == 0 ==> r is None && final(self)@ == old(self)@,
            old(self)@.len() > 0 ==> r == Some(old(self)@[0]) && final(self)@ == old(self)@.drop_first(),
    {
        let r = self.inner.pop_front();
        proof {
            if old(self)@.len() > 0 {
                assert(old(self)@.subrange(1, old(self)@.len() as int) =~= old(self)@.drop_first());
            }
        }
        r
    }

    /// Appends a sample at the back; this never fails.
    pub fn push_back(&mut self, new: S) -> (r: Result<(), Error>)
        ensures
            r is Ok,
            final(self)@ == old(self)@.push(new),
    {
        self.inner.push_back(new);
        Ok(())
    }

    /// Number of samples held.
    pub fn sample_count(&self) -> (r: usize)
        ensures
            r == self@.len(),
    {
        self.inner.len()
    }

    /// The oldest sample, if any.
    pub fn front(&self) -> (r: Option<&S>)
        ensures
            self@.len() == 0 ==> r is None,
            self@.len() > 0 ==> r == Some(&self@[0]),
    {
        if self.inner.len() == 0 {
            None
        } else {
            Some(&self.inner[0])
        }
    }

    /// The sample at position `i`, counted from the oldest.
    pub fn get(&self, i: usize) -> (r: Option<&S>)
        ensures
            i >= self@.len() ==> r is None,
            i < self@.len() ==> r == Some(&self@[i as int]),
    {
        if i < self.inner.len() {
            Some(&self.inner[i])
        } else {
            None
        }
    }
}

} // verus!
