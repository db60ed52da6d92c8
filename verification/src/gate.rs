//! The admission gate for the connection dispatcher: at most a fixed
//! number of handlers run at once. Admission is a single
//! check-and-increment step; a handler that finishes, by any path,
//! releases its slot. A connection refused here is dropped without a
//! reply.
use vstd::prelude::*;

verus! {

/// What one admission attempt does to the number of active handlers:
/// below the cap it admits and counts; at the cap it refuses and
/// changes nothing.
pub open spec fn admit_step(active: int, cap: int) -> (int, bool) {
    if active < cap {
        (active + 1, true)
    } else {
        (active, false)
    }
}

/// The active count and the number of admissions after `n` attempts in
/// a row.
pub open spec fn admit_many(active: int, cap: int, n: nat) -> (int, int)
    decreases n,
{
    if n == 0 {
        (active, 0)
    } else {
        let prev = admit_many(active, cap, (n - 1) as nat);
        let step = admit_step(prev.0, cap);
        (step.0, prev.1 + if step.1 {
            1int
        } else {
            0int
        })
    }
}

/// Of any burst of simultaneous connection attempts against an idle
/// dispatcher, exactly as many are served as the cap allows: `n`
/// attempts admit `n` handlers while `n` stays within the cap, and
/// only `cap` of them once it does not.
pub proof fn lemma_cap_enforced(cap: int, n: nat)
    requires
        cap >= 0,
    ensures
        admit_many(0, cap, n).1 == if n <= cap {
            n as int
        } else {
            cap
        },
        admit_many(0, cap, n).0 == admit_many(0, cap, n).1,
    decreases n,
{
    if n > 0 {
        lemma_cap_enforced(cap, (n - 1) as nat);
    }
}

/// The dispatcher's admission state: the current number of active
/// handlers and the limit on them.
pub struct Gate {
    active: usize,
    cap: usize,
}

impl Gate {
    /// The number of handlers admitted and not yet released.
    pub closed spec fn active_count(self) -> int {
        self.active as int
    }

    /// The limit on simultaneous handlers.
    pub closed spec fn capacity(self) -> int {
        self.cap as int
    }

    /// At no time do more handlers hold a slot than the limit allows.
    pub closed spec fn wf(self) -> bool {
        self.active <= self.cap
    }

    /// An idle gate admitting up to `cap` handlers at once.
    pub fn new(cap: usize) -> (g: Gate)
        ensures
            g.wf(),
            g.active_count() == 0,
            g.capacity() == cap,
    {
        Gate { active: 0, cap }
    }

    /// The check and the increment in one step: admits and counts the
    /// caller when the cap leaves room, else refuses and changes
    /// nothing.
    pub fn try_admit(&mut self) -> (r: bool)
        requires
            old(self).wf(),
        ensures
            final(self).wf(),
            final(self).capacity() == old(self).capacity(),
            (final(self).active_count(), r) == admit_step(
                old(self).active_count(),
                old(self).capacity(),
            ),
    {
        if self.active < self.cap {
            self.active = self.active + 1;
            true
        } else {
            false
        }
    }

    /// Releases the slot of a handler that finished, however it
    /// finished.
    pub fn release(&mut self)
        requires
            old(self).wf(),
            old(self).active_count() > 0,
        ensures
            final(self).wf(),
            final(self).capacity() == old(self).capacity(),
            final(self).active_count() == old(self).active_count() - 1,
    {
        self.active = self.active - 1;
    }

    /// The number of handlers active now.
    pub fn active(&self) -> (r: usize)
        ensures
            r == self.active_count(),
    {
        self.active
    }
}

} // verus!
