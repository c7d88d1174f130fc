//! A small map from ids to indices, kept as a list of pairs.

use vstd::prelude::*;

verus! {

/// The value of the last pair for key `k` in the list, if any.
pub open spec fn assoc(s: Seq<(usize, usize)>, k: usize) -> Option<usize>
    decreases s.len(),
{
    if s.len() == 0 {
        None
    } else if s.last().0 == k {
        Some(s.last().1)
    } else {
        assoc(s.drop_last(), k)
    }
}

/// A map from ids to indices; a later insertion for a key overrides earlier ones.
#[derive(Debug)]
pub struct IdMap {
    entries: Vec<(usize, usize)>,
}

impl IdMap {
    /// The value stored for `k`, if any.
    pub closed spec fn lookup(&self, k: usize) -> Option<usize> {
        assoc(self.entries@, k)
    }

    /// The keys that have a value.
    pub open spec fn keys(&self) -> Set<usize> {
        Set::new(|k: usize| self.lookup(k) is Some)
    }

    pub fn new() -> (m: IdMap)
        ensures
            forall|k: usize| m.lookup(k) is None,
    {
        IdMap { entries: Vec::new() }
    }

    /// Store `v` for `k`.
    pub fn insert(&mut self, k: usize, v: usize)
        ensures
            final(self).lookup(k) == Some(v),
            forall|k2: usize| k2 != k ==> final(self).lookup(k2) == old(self).lookup(k2),
    {
        self.entries.push((k, v));
        assert(self.entries@.drop_last() =~= old(self).entries@);
    }

    /// The value stored for `k`, if any.
    pub fn get(&self, k: usize) -> (r: Option<usize>)
        ensures
            r == self.lookup(k),
    {
        let mut i: usize = self.entries.len();
        assert(self.entries@.take(i as int) =~= self.entries@);
        while i > 0
            invariant
                i <= self.entries@.len(),
                assoc(self.entries@, k) == assoc(self.entries@.take(i as int), k),
            decreases i,
        {
            let e = self.entries[i - 1];
            assert(self.entries@.take(i as int).drop_last() =~= self.entries@.take(i as int - 1));
            if e.0 == k {
                return Some(e.1);
            }
            i = i - 1;
        }
        assert(self.entries@.take(0) =~= Seq::<(usize, usize)>::empty());
        None
    }

    /// Remove all pairs.
    pub fn clear(&mut self)
        ensures
            forall|k: usize| final(self).lookup(k) is None,
    {
        self.entries.clear();
    }
}

} // verus!
