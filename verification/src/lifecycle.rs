//! The single-instance lifecycle guard.
//!
//! At most one instance of the daemon may run: an exclusive marker
//! resource is claimed at startup and released exactly once on any
//! termination path. This module holds the protocol over the marker —
//! when a claim succeeds, when it reports an instance already running,
//! and that release is idempotent and safe even when nothing was ever
//! acquired. The caller that owns the real marker (a well-known file
//! whose mere presence is the whole protocol) mirrors each verified
//! transition onto it: it creates the file on a successful acquire and
//! deletes it on release, including from its termination-signal handler.

use vstd::prelude::*;

verus! {

/// Another instance already holds the marker. A normal, expected
/// condition, not a failure: the process should report it and exit
/// successfully.
#[derive(Debug, PartialEq, Eq, Structural, Clone, Copy)]
pub struct AlreadyRunning;

/// The guard's view of the exclusive marker: whether it is currently
/// held.
pub struct LifecycleGuard {
    pub held: bool,
}

impl LifecycleGuard {
    /// A fresh guard holds nothing.
    pub fn new() -> (r: LifecycleGuard)
        ensures
            !r.held,
    {
        LifecycleGuard { held: false }
    }

    /// Claims the marker. Succeeds exactly when the marker is free;
    /// when it is already held the claim is refused and the marker is
    /// left as it was. After any outcome the marker is held.
    pub fn acquire(&mut self) -> (r: Result<(), AlreadyRunning>)
        ensures
            !old(self).held ==> r is Ok,
            old(self).held ==> r == Result::<(), AlreadyRunning>::Err(AlreadyRunning),
            final(self).held,
    {
        if self.held {
            Err(AlreadyRunning)
        } else {
            self.held = true;
            Ok(())
        }
    }

    /// Releases the marker. Idempotent and safe when nothing was
    /// acquired: afterwards the marker is free, whatever held before.
    pub fn release(&mut self)
        ensures
            !final(self).held,
    {
        self.held = false;
    }
}

} // verus!
