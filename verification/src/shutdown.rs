//! The one-shot signal by which a fatal error stops the node.

use vstd::prelude::*;

verus! {

/// Remembers whether the shutdown signal has gone out.
#[derive(Debug)]
pub struct FatalShutdown {
    triggered: bool,
}

impl FatalShutdown {
    /// Whether the signal has gone out.
    pub closed spec fn triggered(&self) -> bool {
        self.triggered
    }

    /// A signal that has not gone out yet.
    pub fn new() -> (r: Self)
        ensures
            !r.triggered(),
    {
        FatalShutdown { triggered: false }
    }

    /// Whether a fatal error, noted in the state `self`, leads to the state `after` with the
    /// answer `send`.
    pub open spec fn triggers(&self, after: FatalShutdown, send: bool) -> bool {
        send == !self.triggered() && after.triggered()
    }

    /// Notes a fatal error. The answer says whether the caller has to send the shutdown
    /// signal, which is so for the first error only.
    pub fn trigger(&mut self) -> (send: bool)
        ensures
            old(self).triggers(*final(self), send),
    {
        let send = !self.triggered;
        self.triggered = true;
        send
    }
}

/// However many fatal errors are noted, one after another, one signal is sent: for the first.
pub proof fn one_signal_is_sent(states: Seq<FatalShutdown>, sends: Seq<bool>)
    requires
        sends.len() > 0,
        states.len() == sends.len() + 1,
        !states[0].triggered(),
        forall|i: int|
            0 <= i < sends.len() ==> (#[trigger] states[i]).triggers(states[i + 1], sends[i]),
    ensures
        sends[0],
        forall|i: int| 0 < i < sends.len() ==> !#[trigger] sends[i],
{
    assert(states[0].triggers(states[1], sends[0]));
    assert forall|i: int| 0 < i < sends.len() implies !#[trigger] sends[i] by {
        assert(states[i - 1].triggers(states[i], sends[i - 1]));
        assert(states[i].triggers(states[i + 1], sends[i]));
    }
}

} // verus!
