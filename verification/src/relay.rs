//! The bus relay side of the core: bridging messages that arrive on the
//! external bus into the local room fanout, and the reconnect backoff the
//! relay applies when its bus subscription fails.
//!
//! The relay's long-lived bus subscription and its sleep between reconnect
//! attempts are I/O and stay with the caller; what is decided here is how a
//! bus message changes the registry and how long the next backoff pause is.

use vstd::prelude::*;

use crate::registry::Registry;

verus! {

/// First pause before a reconnect attempt, in milliseconds.
pub const INITIAL_BACKOFF_MS: u64 = 100;

/// Longest pause between reconnect attempts, in milliseconds.
pub const MAX_BACKOFF_MS: u64 = 30000;

/// Forward one inbound bus message into the local fanout: the source
/// channel names the room, and the payload is delivered unchanged to every
/// local subscriber of that room. A message for a room nobody subscribes
/// to is dropped silently and creates nothing.
pub fn relay_bus_message(reg: &mut Registry, channel: &str, payload: &str)
    requires
        old(reg).wf(),
    ensures
        final(reg).wf(),
        final(reg)@ == old(reg)@.publish(channel@, payload@),
{
    reg.publish(channel, payload);
}

/// Timed backoff for re-establishing the relay's bus subscription: pauses
/// double from the initial value up to a cap, and start over after a
/// successful connect.
pub struct RelayBackoff {
    pub delay_ms: u64,
}

impl RelayBackoff {
    pub open spec fn wf(&self) -> bool {
        INITIAL_BACKOFF_MS <= self.delay_ms <= MAX_BACKOFF_MS
    }

    pub fn new() -> (r: RelayBackoff)
        ensures
            r.wf(),
            r.delay_ms == INITIAL_BACKOFF_MS,
    {
        RelayBackoff { delay_ms: INITIAL_BACKOFF_MS }
    }

    /// The pause to take before the next reconnect attempt; later attempts
    /// wait twice as long, up to the cap.
    pub fn next_delay(&mut self) -> (d: u64)
        requires
            old(self).wf(),
        ensures
            final(self).wf(),
            d == old(self).delay_ms,
            final(self).delay_ms == if 2 * old(self).delay_ms <= MAX_BACKOFF_MS {
                2 * old(self).delay_ms
            } else {
                MAX_BACKOFF_MS as int
            },
    {
        let d = self.delay_ms;
        if d <= MAX_BACKOFF_MS / 2 {
            self.delay_ms = 2 * d;
        } else {
            self.delay_ms = MAX_BACKOFF_MS;
        }
        d
    }

    /// After a successful reconnect the pause starts over.
    pub fn reset(&mut self)
        ensures
            final(self).wf(),
            final(self).delay_ms == INITIAL_BACKOFF_MS,
    {
        self.delay_ms = INITIAL_BACKOFF_MS;
    }
}

} // verus!
