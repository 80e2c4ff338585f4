//! The cancellation token: a latch that is set once and never cleared.

use vstd::prelude::*;

verus! {

/// A flag that starts unset and, once set, stays set.
pub struct CancellationToken {
    set: bool,
}

impl View for CancellationToken {
    type V = bool;

    closed spec fn view(&self) -> bool {
        self.set
    }
}

impl CancellationToken {
    /// A token that is not set.
    pub fn new() -> (token: CancellationToken)
        ensures
            !token@,
    {
        CancellationToken { set: false }
    }

    /// Sets the token. Setting it again changes nothing.
    pub fn cancel(&mut self)
        ensures
            final(self)@,
    {
        self.set = true;
    }

    /// Whether the token has been set.
    pub fn is_set(&self) -> (set: bool)
        ensures
            set == self@,
    {
        self.set
    }
}

} // verus!
