//! The shared peer budget: one ceiling on how many peer connections exist
//! across every torrent at once.
//!
//! A slot is [claimed](PeerBudget::claim) before a connection is registered
//! and goes [back](PeerBudget::release) when the peer leaves its torrent's
//! table. [`available`](PeerBudget::available) is the *advisory* read used to
//! avoid dialling peers there is no room for; the answer that counts is
//! [`claim`](PeerBudget::claim)'s.
use vstd::prelude::*;

verus! {

/// A ceiling on concurrent peer connections, shared by every torrent that was
/// handed it.
#[derive(Debug)]
pub struct PeerBudget {
    limit: usize,
    taken: usize,
}

/// One claimed connection slot, held by the peer it was claimed for until it
/// is given back.
#[derive(Debug)]
pub struct PeerSlot {
    claimed: (),
}

impl PeerBudget {
    #[verifier::type_invariant]
    spec fn within(self) -> bool {
        self.taken <= self.limit
    }

    /// The ceiling.
    pub closed spec fn ceiling(self) -> nat {
        self.limit as nat
    }

    /// The slots claimed and not given back.
    pub closed spec fn used(self) -> nat {
        self.taken as nat
    }

    /// A budget of `limit` concurrent peer connections.
    pub fn new(limit: usize) -> (b: PeerBudget)
        ensures
            b.ceiling() == limit,
            b.used() == 0,
    {
        PeerBudget { limit, taken: 0 }
    }

    /// A budget that never refuses: the ceiling is more connections than can
    /// be counted.
    pub fn unlimited() -> (b: PeerBudget)
        ensures
            b.ceiling() == usize::MAX,
            b.used() == 0,
    {
        PeerBudget::new(usize::MAX)
    }

    /// Take one slot, or `None` when the budget is spent. A `None` is an
    /// ordinary answer (refuse this connection), not an error.
    pub fn claim(&mut self) -> (slot: Option<PeerSlot>)
        ensures
            final(self).ceiling() == old(self).ceiling(),
            slot is Some <==> old(self).used() < old(self).ceiling(),
            final(self).used() == old(self).used() + (if slot is Some {
                1int
            } else {
                0int
            }),
            final(self).used() <= final(self).ceiling(),
    {
        proof {
            use_type_invariant(&*self);
        }
        if self.taken >= self.limit {
            return None;
        }
        self.taken = self.taken + 1;
        Some(PeerSlot { claimed: () })
    }

    /// Give a claimed slot back.
    pub fn release(&mut self, slot: PeerSlot)
        requires
            old(self).used() > 0,
        ensures
            final(self).ceiling() == old(self).ceiling(),
            final(self).used() == old(self).used() - 1,
    {
        proof {
            use_type_invariant(&*self);
        }
        let _ = slot;
        self.taken = self.taken - 1;
    }

    /// Slots in use right now.
    pub fn in_use(&self) -> (n: usize)
        ensures
            n == self.used(),
            n <= self.ceiling(),
    {
        proof {
            use_type_invariant(&*self);
        }
        self.taken
    }

    /// The ceiling this budget was built with.
    pub fn limit(&self) -> (n: usize)
        ensures
            n == self.ceiling(),
    {
        self.limit
    }

    /// How many slots are free.
    pub fn available(&self) -> (n: usize)
        ensures
            n == self.ceiling() - self.used(),
    {
        proof {
            use_type_invariant(&*self);
        }
        self.limit - self.taken
    }
}

} // verus!
