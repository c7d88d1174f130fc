//! Generation of unique node ids.

use crate::tast::NodeId;
use vstd::prelude::*;

verus! {

/// Hands out node ids: 1, 2, 3, ... (0 is never handed out).
pub struct IdGenerator {
    nxt: usize,
}

impl IdGenerator {
    /// The last id handed out, or 0 before the first.
    pub closed spec fn last(&self) -> nat {
        self.nxt as nat
    }

    pub fn new() -> (g: Self)
        ensures
            g.last() == 0,
    {
        IdGenerator { nxt: 0 }
    }

    /// Generate a new unique id: larger than every id handed out before.
    pub fn gimme(&mut self) -> (id: NodeId)
        requires
            old(self).last() < usize::MAX,
        ensures
            id == old(self).last() + 1,
            final(self).last() == id,
    {
        self.nxt += 1;
        self.nxt
    }
}

/// Two ids handed out one after the other by the same generator differ,
/// and neither is zero.
pub proof fn lemma_ids_unique(before: IdGenerator, middle: IdGenerator, after: IdGenerator, a: NodeId, b: NodeId)
    requires
        a == before.last() + 1,
        middle.last() == a,
        middle.last() <= after.last() - 1,
        b == after.last(),
    ensures
        a != b,
        a != 0,
        b != 0,
{
}

} // verus!
