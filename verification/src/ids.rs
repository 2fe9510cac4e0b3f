//! Allocation of state identifiers.

use vstd::prelude::*;
use crate::error::BuildError;

verus! {

/// A counter that hands out state identifiers in increasing order, each one once.
pub struct IDAllocator {
    next_id: usize,
}

impl IDAllocator {
    /// The identifier that the next successful call of `next` returns.
    pub closed spec fn upcoming(&self) -> nat {
        self.next_id as nat
    }

    /// How many identifiers are still to be had.
    pub open spec fn remaining(&self) -> nat {
        (usize::MAX - self.upcoming()) as nat
    }

    /// The upcoming identifier never exceeds the largest machine integer.
    pub proof fn lemma_upcoming_bounded(&self)
        ensures
            self.upcoming() <= usize::MAX,
    {
    }

    /// An allocator whose first identifier is zero.
    pub fn new() -> (ids: Self)
        ensures
            ids.upcoming() == 0,
    {
        IDAllocator { next_id: 0 }
    }

    /// An allocator whose first identifier is `first`.
    pub fn starting_at(first: usize) -> (ids: Self)
        ensures
            ids.upcoming() == first,
    {
        IDAllocator { next_id: first }
    }

    /// The upcoming identifier, without taking it.
    pub fn peek(&self) -> (id: usize)
        ensures
            id == self.upcoming(),
    {
        self.next_id
    }

    /// Hands out the upcoming identifier and moves on to its successor. Once the
    /// counter stands at the largest machine integer it hands out nothing more
    /// and stays as it is.
    pub fn next(&mut self) -> (r: Result<usize, BuildError>)
        ensures
            old(self).remaining() > 0 ==> r is Ok && r->Ok_0 as nat == old(self).upcoming()
                && final(self).upcoming() == old(self).upcoming() + 1,
            old(self).remaining() == 0 ==> r == Err::<usize, BuildError>(
                BuildError::AllocatorExhausted,
            ) && final(self).upcoming() == old(self).upcoming(),
    {
        if self.next_id == usize::MAX {
            return Err(BuildError::AllocatorExhausted);
        }
        let id = self.next_id;
        self.next_id = id + 1;
        Ok(id)
    }
}

} // verus!
