//! A borrow counter enforcing many-readers-xor-one-writer at column
//! granularity.
//!
//! The counter is one word: values below [`UNIQUE`] count live shared
//! borrows, and the value [`UNIQUE`] marks one live unique borrow.

use vstd::prelude::*;

verus! {

/// The word value that marks a live unique borrow.  Shared borrow counts
/// stay strictly below it, so the two regimes never meet.
pub const UNIQUE: u64 = 0x8000_0000_0000_0000;

/// A counter of live borrows on one column: either up to `UNIQUE - 1`
/// shared borrows, or exactly one unique borrow.
pub struct BorrowCounter {
    state: u64,
}

impl BorrowCounter {
    /// The counter holds a legal word: a shared count, or the unique mark.
    pub closed spec fn wf(self) -> bool {
        self.state <= UNIQUE
    }

    /// True iff a unique borrow is live.
    pub closed spec fn unique_held(self) -> bool {
        self.state == UNIQUE
    }

    /// The number of live shared borrows.
    pub closed spec fn shared_count(self) -> nat {
        if self.state == UNIQUE {
            0
        } else {
            self.state as nat
        }
    }

    /// No borrow of either kind is live.
    pub open spec fn is_free(self) -> bool {
        !self.unique_held() && self.shared_count() == 0
    }

    pub fn new() -> (c: Self)
        ensures
            c.wf(),
            c.is_free(),
    {
        BorrowCounter { state: 0 }
    }

    /// Whether no borrow of either kind is live.
    pub fn check_free(&self) -> (b: bool)
        requires
            self.wf(),
        ensures
            b == self.is_free(),
    {
        self.state == 0
    }

    /// Whether one more shared borrow could be taken now.
    pub fn can_share(&self) -> (b: bool)
        requires
            self.wf(),
        ensures
            b == (!self.unique_held() && self.shared_count() < UNIQUE - 1),
    {
        self.state < UNIQUE - 1
    }

    /// Try to take one more shared borrow.  Succeeds exactly when no unique
    /// borrow is live and the shared count is not saturated.
    pub fn try_acquire_shared(&mut self) -> (ok: bool)
        requires
            old(self).wf(),
        ensures
            final(self).wf(),
            ok <==> !old(self).unique_held() && old(self).shared_count() < UNIQUE - 1,
            ok ==> !final(self).unique_held()
                && final(self).shared_count() == old(self).shared_count() + 1,
            !ok ==> *final(self) == *old(self),
    {
        if self.state < UNIQUE - 1 {
            self.state = self.state + 1;
            true
        } else {
            false
        }
    }

    /// Try to take the unique borrow.  Succeeds exactly when no borrow of
    /// either kind is live.
    pub fn try_acquire_unique(&mut self) -> (ok: bool)
        requires
            old(self).wf(),
        ensures
            final(self).wf(),
            ok <==> old(self).is_free(),
            ok ==> final(self).unique_held() && final(self).shared_count() == 0,
            !ok ==> *final(self) == *old(self),
    {
        if self.state == 0 {
            self.state = UNIQUE;
            true
        } else {
            false
        }
    }

    /// Give back one shared borrow.  Releasing a borrow that is not held is
    /// a caller error, so the precondition demands a live shared borrow.
    pub fn release_shared(&mut self)
        requires
            old(self).wf(),
            !old(self).unique_held(),
            old(self).shared_count() >= 1,
        ensures
            final(self).wf(),
            !final(self).unique_held(),
            final(self).shared_count() == old(self).shared_count() - 1,
    {
        self.state = self.state - 1;
    }

    /// Give back the unique borrow.  The precondition demands that it is
    /// held, so a correctly paired release always succeeds.
    pub fn release_unique(&mut self)
        requires
            old(self).wf(),
            old(self).unique_held(),
        ensures
            final(self).wf(),
            final(self).is_free(),
    {
        self.state = 0;
    }
}

/// Borrow exclusivity.  [`BorrowCounter::try_acquire_unique`] succeeds
/// exactly when the counter is free, so it fails while any shared borrow
/// is live; [`BorrowCounter::try_acquire_shared`] succeeds only while no
/// unique borrow is held, whose mark excludes any shared count; and the
/// release preconditions are exactly what the matching acquisitions
/// establish, so correctly paired releases always succeed.
pub proof fn lemma_borrow_exclusivity(c: BorrowCounter)
    requires
        c.wf(),
    ensures
        c.shared_count() > 0 ==> !c.is_free(),
        c.unique_held() ==> c.shared_count() == 0,
        c.unique_held() ==> !c.is_free(),
{
}

} // verus!
