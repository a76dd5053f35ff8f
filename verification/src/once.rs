//! A run-once guard.
//!
//! Boot-time initialization routines must run exactly once per kernel
//! lifetime: two runs would both believe they own physical-memory
//! bookkeeping. The owner of a `OnceFlag` checks it at the top of such a
//! routine and treats a second run as fatal.

use vstd::prelude::*;

verus! {

/// Records whether the guarded routine has already run.
pub struct OnceFlag {
    called: bool,
}

impl OnceFlag {
    /// Whether the guarded routine has run.
    pub closed spec fn called(&self) -> bool {
        self.called
    }

    pub fn new() -> (r: OnceFlag)
        ensures
            !r.called(),
    {
        OnceFlag { called: false }
    }

    /// Marks the routine as run. Returns `true` on the first call and
    /// `false` on every later one, so the caller can fail fatally.
    pub fn begin(&mut self) -> (r: bool)
        ensures
            final(self).called(),
            r == !old(self).called(),
    {
        let was = self.called;
        self.called = true;
        !was
    }
}

} // verus!
