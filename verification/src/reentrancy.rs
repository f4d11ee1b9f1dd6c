//! Reentrancy sentinel.
//!
//! The verified map never hands control to user code while its internal
//! state is inconsistent (key equality and hashing are verified trait
//! methods with exact contracts), so it cannot re-enter itself. The
//! sentinel is offered for callers that compose the map with code of their
//! own and want nested entry into a critical section caught. Verified
//! functions do not panic, so a nested `enter` is reported by `None`
//! instead; the caller treats that as the fail-fast signal.

use vstd::prelude::*;

verus! {

/// Per-instance reentrancy tracker. Embed one in a structure and bracket
/// each critical section with `enter` and `exit`.
pub struct DebugReentrancy {
    depth: u64,
}

/// Witness that `enter` succeeded; hand it back to `exit`. Move-only.
pub struct ReentrancyGuard {
    _private: (),
}

impl DebugReentrancy {
    /// How many guarded sections are currently entered (zero or one).
    pub closed spec fn spec_depth(self) -> nat {
        self.depth as nat
    }

    pub fn new() -> (r: Self)
        ensures
            r.spec_depth() == 0,
    {
        DebugReentrancy { depth: 0 }
    }

    /// Enter a guarded section. Nested entry is refused with `None`.
    pub fn enter(&mut self) -> (r: Option<ReentrancyGuard>)
        ensures
            old(self).spec_depth() == 0 ==> r is Some && final(self).spec_depth() == 1,
            old(self).spec_depth() != 0 ==> r is None && *final(self) == *old(self),
    {
        if self.depth == 0 {
            self.depth = 1;
            Some(ReentrancyGuard { _private: () })
        } else {
            None
        }
    }

    /// Leave the guarded section, consuming the witness.
    pub fn exit(&mut self, guard: ReentrancyGuard) -> (r: ())
        requires
            old(self).spec_depth() > 0,
        ensures
            final(self).spec_depth() == old(self).spec_depth() - 1,
    {
        self.depth = self.depth - 1;
    }
}

impl Default for DebugReentrancy {
    fn default() -> (r: Self)
        ensures
            r.spec_depth() == 0,
    {
        DebugReentrancy::new()
    }
}

} // verus!
