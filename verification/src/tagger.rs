//! Allocation of tags, the identities of tracked values.

use vstd::prelude::*;

verus! {

/// Identity of one tracked runtime value.
pub type Id = u64;

/// Issues tags in increasing order, starting from zero.
pub struct Tagger {
    next_id: Id,
}

impl Tagger {
    /// The number of tags issued so far, which is also the next tag to be issued.
    pub closed spec fn issued(&self) -> Id {
        self.next_id
    }

    pub fn new() -> (tagger: Self)
        ensures
            tagger.issued() == 0,
    {
        Tagger { next_id: 0 }
    }

    /// Returns the next tag. Every tag returned is strictly greater than all
    /// tags returned before it.
    pub fn tag(&mut self) -> (id: Id)
        requires
            old(self).issued() < u64::MAX,
        ensures
            id == old(self).issued(),
            final(self).issued() == old(self).issued() + 1,
    {
        let id = self.next_id;
        self.next_id += 1;
        id
    }

    /// Executable form of [`Tagger::issued`], for callers that must check
    /// that a tag is still available before asking for one.
    pub fn count(&self) -> (n: Id)
        ensures
            n == self.issued(),
    {
        self.next_id
    }
}

} // verus!
