//! Jump-label generator.

use vstd::prelude::*;

verus! {

/// Issues jump-label ids in increasing order, starting at zero.
#[derive(Clone, Copy, Debug, PartialEq, Eq)]
pub struct Gen {
    next: usize,
}

impl Gen {
    /// The id that the next call of `generate` returns.
    pub closed spec fn peek(&self) -> usize {
        self.next
    }

    /// True when every id has been handed out.
    pub open spec fn spec_is_exhausted(&self) -> bool {
        self.peek() == usize::MAX
    }

    /// A generator that starts at label zero.
    pub fn new() -> (g: Gen)
        ensures
            g.peek() == 0,
    {
        Gen { next: 0 }
    }

    /// A generator that resumes at the label `first`.
    pub fn starting_at(first: usize) -> (g: Gen)
        ensures
            g.peek() == first,
    {
        Gen { next: first }
    }

    /// Whether `generate` can no longer be called.
    #[verifier::when_used_as_spec(spec_is_exhausted)]
    pub fn is_exhausted(&self) -> (b: bool)
        ensures
            b == self.spec_is_exhausted(),
    {
        self.next == usize::MAX
    }

    /// Hands out the next id; every id is larger than all ids issued before.
    pub fn generate(&mut self) -> (id: usize)
        requires
            !old(self).is_exhausted(),
        ensures
            id == old(self).peek(),
            final(self).peek() == id + 1,
    {
        let id: usize = self.next;
        self.next = id + 1;
        id
    }
}

} // verus!
