use vstd::prelude::*;

verus! {

/// An edge-triggered notification: signals set a flag, a receiver takes it.
/// Signals while the flag is set coalesce into one.
pub struct Pulse {
    flag: bool,
}

impl Pulse {
    pub closed spec fn is_set(&self) -> bool {
        self.flag
    }

    pub fn new() -> (r: Pulse)
        ensures
            !r.is_set(),
    {
        Pulse { flag: false }
    }

    pub fn is_signalled(&self) -> (r: bool)
        ensures
            r == self.is_set(),
    {
        self.flag
    }

    pub fn signal(&mut self)
        ensures
            final(self).is_set(),
    {
        self.flag = true;
    }

    /// Takes the pending notification, if any, and clears it.
    pub fn take(&mut self) -> (r: bool)
        ensures
            r == old(self).is_set(),
            !final(self).is_set(),
    {
        let r = self.flag;
        self.flag = false;
        r
    }
}

/// A one-way latch for shutdown: once signalled it stays signalled.
pub struct Signal {
    latched: bool,
}

impl Signal {
    pub closed spec fn is_set(&self) -> bool {
        self.latched
    }

    pub fn new() -> (r: Signal)
        ensures
            !r.is_set(),
    {
        Signal { latched: false }
    }

    pub fn is_signalled(&self) -> (r: bool)
        ensures
            r == self.is_set(),
    {
        self.latched
    }

    /// Latches; tells whether this call made the transition, so that the
    /// waiters are woken exactly once.
    pub fn signal(&mut self) -> (r: bool)
        ensures
            final(self).is_set(),
            r == !old(self).is_set(),
    {
        let r = !self.latched;
        self.latched = true;
        r
    }
}

} // verus!
