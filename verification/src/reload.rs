//! One reload per burst of backend events: an event marks the model stale,
//! and the next frame takes the pending reload, once, however many events
//! arrived.

use vstd::prelude::*;

verus! {

/// Whether a reload is owed.
#[derive(Debug, Default)]
pub struct ReloadCoalescer {
    stale: bool,
}

impl ReloadCoalescer {
    /// Whether a reload is owed, as a value.
    pub closed spec fn owed(&self) -> bool {
        self.stale
    }

    /// A coalescer with nothing owed.
    pub fn new() -> (c: ReloadCoalescer)
        ensures
            !c.owed(),
    {
        ReloadCoalescer { stale: false }
    }

    /// Note that a reload is owed.
    pub fn mark(&mut self)
        ensures
            final(self).owed() == marked(old(self).owed()),
    {
        self.stale = true;
    }

    /// Take the pending reload: whether one was owed, and nothing is owed
    /// afterwards.
    pub fn take(&mut self) -> (reload: bool)
        ensures
            (reload, final(self).owed()) == taken(old(self).owed()),
    {
        let was = self.stale;
        self.stale = false;
        was
    }
}

/// Whether a reload is owed after an event, given whether one was before.
pub open spec fn marked(owed: bool) -> bool {
    true
}

/// What a frame takes, given whether a reload was owed: whether it reloads,
/// and whether one is owed afterwards.
pub open spec fn taken(owed: bool) -> (bool, bool) {
    (owed, false)
}

/// Whether a reload is owed after `n` events, given whether one was before.
pub open spec fn marked_times(owed: bool, n: nat) -> bool
    decreases n,
{
    if n == 0 {
        owed
    } else {
        marked(marked_times(owed, (n - 1) as nat))
    }
}

/// A burst of events, however long, costs exactly one reload: after one or
/// more events the next frame reloads and the frame after it does not, and a
/// frame with nothing owed reloads nothing.
pub proof fn law_burst_owes_one_reload(owed: bool, events: nat)
    ensures
        events >= 1 ==> taken(marked_times(owed, events)).0,
        events >= 1 ==> !taken(taken(marked_times(owed, events)).1).0,
        !taken(false).0,
{
}

} // verus!
