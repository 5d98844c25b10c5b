//! FIFO ticket lock guarding one payload value.
//!
//! Two monotonic counters implement the discipline: taking the lock draws a
//! ticket from `ticket`, and the holder of ticket `t` may enter only when
//! `release` has reached `t`; releasing advances `release`. Acquisitions are
//! therefore served strictly in ticket order. In the original deployment the
//! counters are atomics and waiting spins (failing fatally past a spin
//! budget, as recovery from a lock held across a blocking operation is not in
//! scope); this model captures the counter discipline itself, which is what
//! the FIFO guarantee rests on.

use vstd::prelude::*;

verus! {

/// A counter's successor, wrapping as the hardware fetch-and-increment does.
pub open spec fn next_counter(x: u64) -> u64 {
    if x == u64::MAX {
        0
    } else {
        (x + 1) as u64
    }
}

/// A value guarded by a ticket lock.
pub struct LockCell<T> {
    ticket: u64,
    release: u64,
    val: T,
}

/// Witness that the lock is held; produced by `lock`, consumed by
/// `release_lock`.
pub struct LockCellGuard {
    ticket: u64,
}

impl LockCellGuard {
    /// The ticket this guard was issued.
    pub closed spec fn spec_ticket(&self) -> u64 {
        self.ticket
    }

    /// The ticket number this guard was issued.
    pub fn ticket_number(&self) -> (r: u64)
        ensures
            r == self.spec_ticket(),
    {
        self.ticket
    }

    /// Releases the lock: the release counter advances, serving the next
    /// ticket in line. The original also releases through the guard's drop;
    /// an explicit release is the documented operation for handing control
    /// away before a non-returning jump.
    pub fn release_lock<T>(self, cell: &mut LockCell<T>)
        requires
            old(cell).wf(),
            old(cell).held(),
            self.spec_ticket() == old(cell).spec_release(),
        ensures
            final(cell).wf(),
            !final(cell).held(),
            final(cell).spec_ticket() == old(cell).spec_ticket(),
            final(cell).spec_release() == next_counter(old(cell).spec_release()),
            final(cell).value() == old(cell).value(),
    {
        cell.release = cell.release.wrapping_add(1);
    }
}

impl<T> LockCell<T> {
    /// The next ticket to be issued.
    pub closed spec fn spec_ticket(&self) -> u64 {
        self.ticket
    }

    /// The ticket currently being served.
    pub closed spec fn spec_release(&self) -> u64 {
        self.release
    }

    /// The guarded payload.
    pub closed spec fn value(&self) -> T {
        self.val
    }

    /// Sequential discipline: at most one ticket is ever outstanding, so a
    /// lock attempt while the lock is held would spin against the caller
    /// itself (the fatal-timeout case). The counters wrap, as the hardware
    /// fetch-and-increment does.
    pub open spec fn wf(&self) -> bool {
        self.spec_ticket() == self.spec_release() || self.spec_ticket() == next_counter(
            self.spec_release(),
        )
    }

    /// The lock is held: a ticket was issued that has not been released.
    pub open spec fn held(&self) -> bool {
        self.spec_ticket() != self.spec_release()
    }

    /// Ticket `t` has been issued and not yet served past.
    pub open spec fn outstanding(&self, t: u64) -> bool {
        self.spec_release() <= t < self.spec_ticket()
    }

    /// Ticket `t` is the one the lock admits next.
    pub open spec fn can_acquire(&self, t: u64) -> bool {
        self.outstanding(t) && t == self.spec_release()
    }

    /// Whether the lock is currently held, for callers that must not attempt
    /// a lock they could never be served (the fatal spin-timeout case).
    pub fn is_locked(&self) -> (r: bool)
        ensures
            r == self.held(),
    {
        self.ticket != self.release
    }

    /// A fresh, unheld lock around `val`.
    pub fn new(val: T) -> (r: LockCell<T>)
        ensures
            r.wf(),
            !r.held(),
            r.spec_ticket() == 0,
            r.spec_release() == 0,
            r.value() == val,
    {
        LockCell { val, ticket: 0, release: 0 }
    }

    /// Takes the lock: draws the next ticket and enters, which in this
    /// sequential discipline succeeds at once. A call while the lock is held
    /// would never be served (the original spins until a fatal timeout), so
    /// the lock must be free.
    pub fn lock(&mut self) -> (guard: LockCellGuard)
        requires
            old(self).wf(),
            !old(self).held(),
        ensures
            final(self).wf(),
            final(self).held(),
            guard.spec_ticket() == old(self).spec_ticket(),
            guard.spec_ticket() == final(self).spec_release(),
            final(self).spec_ticket() == next_counter(old(self).spec_ticket()),
            final(self).spec_release() == old(self).spec_release(),
            final(self).value() == old(self).value(),
    {
        let ticket = self.ticket;
        self.ticket = self.ticket.wrapping_add(1);
        LockCellGuard { ticket }
    }

    /// Reads the payload; only the lock holder may.
    pub fn get<'a>(&'a self, guard: &LockCellGuard) -> (r: &'a T)
        requires
            self.wf(),
            self.held(),
            guard.spec_ticket() == self.spec_release(),
        ensures
            *r == self.value(),
    {
        &self.val
    }

    /// Borrows the payload mutably; only the lock holder may.
    pub fn get_mut<'a>(&'a mut self, guard: &LockCellGuard) -> (r: &'a mut T)
        requires
            old(self).wf(),
            old(self).held(),
            guard.spec_ticket() == old(self).spec_release(),
        ensures
            *r == old(self).value(),
            final(self).value() == *final(r),
            final(self).wf(),
            final(self).held(),
            final(self).spec_ticket() == old(self).spec_ticket(),
            final(self).spec_release() == old(self).spec_release(),
    {
        &mut self.val
    }
}

/// The lock is first-in-first-out: of any two outstanding tickets, only the
/// older one can be admitted, and never both at once. Since releasing
/// advances `release` by exactly one, N contending tickets are admitted in
/// exactly the order they were issued. (Stated over the counters before they
/// wrap; a wrap relabels tickets without reordering them.)
pub proof fn lemma_ticket_fifo<T>(c: &LockCell<T>, t1: u64, t2: u64)
    requires
        c.outstanding(t1),
        c.outstanding(t2),
        t1 < t2,
    ensures
        !c.can_acquire(t2),
        !(c.can_acquire(t1) && c.can_acquire(t2)),
{
}

} // verus!
