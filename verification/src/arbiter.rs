use vstd::prelude::*;

verus! {

/// Outcome of a call to [`WriterArbiter::acquire`].
#[derive(Clone, Copy, PartialEq, Eq, Structural, Debug)]
pub enum AcquireOutcome {
    /// The caller now owns the sole writer slot; preemption stays masked
    /// until the matching [`WriterArbiter::release`].
    Acquired,
    /// Another call stack already owns the writer slot, so this attempt is
    /// dropped. `restore_preemption` is true iff preemption was enabled just
    /// before this attempt and the caller must re-enable it; the arbiter
    /// never directs re-enabling what an outer critical section had masked.
    Refused { restore_preemption: bool },
}

/// Serializes access to the single writer slot of the log buffer: at most
/// one call stack is ever inside a write sequence.
///
/// The surrounding runtime masks all preemption sources before calling
/// [`acquire`](WriterArbiter::acquire) and passes in whether preemption had
/// been enabled; masking makes the check-and-set of the taken flag
/// sequential, so no hardware compare-and-swap is needed. The arbiter only
/// decides: engaging and restoring the masking primitive itself is the
/// caller's job, directed by the flags the arbiter hands back.
pub struct WriterArbiter {
    held: bool,
    interrupts_active: bool,
}

impl WriterArbiter {
    /// True iff some call stack currently owns the writer slot.
    pub closed spec fn is_held(self) -> bool {
        self.held
    }

    /// Whether preemption was enabled just before the currently held
    /// acquisition masked it; meaningful only while `is_held()`.
    pub closed spec fn saved_preemption(self) -> bool {
        self.interrupts_active
    }

    /// A fresh arbiter: the writer slot is free.
    pub fn new() -> (a: WriterArbiter)
        ensures
            !a.is_held(),
    {
        WriterArbiter { held: false, interrupts_active: false }
    }

    /// Exposes whether the writer slot is currently owned.
    pub fn held(&self) -> (h: bool)
        ensures
            h == self.is_held(),
    {
        self.held
    }

    /// Attempts to take the writer slot, `preemption_was_enabled` being the
    /// preemption state the caller observed before masking.
    ///
    /// On a free arbiter the attempt succeeds and the pre-call preemption
    /// state is saved for the matching `release`. On a held arbiter (a
    /// re-entrant attempt) the attempt is refused, the arbiter is left
    /// exactly as it was, and the caller is told to restore preemption to
    /// its own pre-call state.
    pub fn acquire(&mut self, preemption_was_enabled: bool) -> (r: AcquireOutcome)
        ensures
            !old(self).is_held() ==> {
                &&& r == AcquireOutcome::Acquired
                &&& final(self).is_held()
                &&& final(self).saved_preemption() == preemption_was_enabled
            },
            old(self).is_held() ==> {
                &&& r == (AcquireOutcome::Refused {
                    restore_preemption: preemption_was_enabled,
                })
                &&& *final(self) == *old(self)
            },
    {
        if !self.held {
            self.held = true;
            self.interrupts_active = preemption_was_enabled;
            AcquireOutcome::Acquired
        } else {
            AcquireOutcome::Refused { restore_preemption: preemption_was_enabled }
        }
    }

    /// Frees the writer slot. Must only be called by the owner of a
    /// successful `acquire`. Returns whether the caller must re-enable
    /// preemption: true exactly when preemption had been enabled before the
    /// matching `acquire`, so that an outer critical section is never
    /// unmasked from within.
    pub fn release(&mut self) -> (reenable: bool)
        requires
            old(self).is_held(),
        ensures
            !final(self).is_held(),
            reenable == old(self).saved_preemption(),
    {
        self.held = false;
        self.interrupts_active
    }
}

} // verus!
