use vstd::prelude::*;

verus! {

/// Hands out identifiers in strictly increasing order.
///
/// A generator is owned by whoever assembles graphs; ids are unique among
/// everything drawn from the same generator.
pub struct IdGenerator {
    next: usize,
}

impl IdGenerator {
    /// The id that the next successful call of `next_id` returns.
    pub closed spec fn upcoming(&self) -> nat {
        self.next as nat
    }

    /// A generator whose first id is 0.
    pub fn new() -> (r: Self)
        ensures
            r.upcoming() == 0,
    {
        IdGenerator { next: 0 }
    }

    /// A generator whose first id is `first`.
    pub fn starting_at(first: usize) -> (r: Self)
        ensures
            r.upcoming() == first,
    {
        IdGenerator { next: first }
    }

    /// Draws the next id. Every id drawn is larger than all ids drawn
    /// before. Once the ids below `usize::MAX` are used up, the call
    /// returns `None` and leaves the generator as it was.
    pub fn next_id(&mut self) -> (r: Option<usize>)
        ensures
            old(self).upcoming() < usize::MAX ==> r == Some(old(self).upcoming() as usize)
                && final(self).upcoming() == old(self).upcoming() + 1,
            old(self).upcoming() >= usize::MAX ==> r.is_none() && *final(self) == *old(self),
    {
        if self.next < usize::MAX {
            let id: usize = self.next;
            self.next = id + 1;
            Some(id)
        } else {
            None
        }
    }
}

} // verus!
