//! The flag behind an I/O event that wakes threads blocked on the reactor.
//!
//! Setting the flag is what must be signalled: only the notification that turns the flag
//! on sends a token through the event's channel and wakes the reactor. Clearing the flag
//! reports whether any notification arrived since the last clear.
use vstd::prelude::*;

verus! {

/// The state of an I/O event: whether it has been notified since it was last cleared.
pub struct IoEvent {
    flag: bool,
}

impl IoEvent {
    /// Whether the event is notified and not yet cleared.
    pub closed spec fn is_set(&self) -> bool {
        self.flag
    }

    /// Creates an event that is not set.
    pub fn new() -> (e: IoEvent)
        ensures
            !e.is_set(),
    {
        IoEvent { flag: false }
    }

    /// Sets the flag. Returns whether this call set it, that is, whether the caller must
    /// send the wake-up signal.
    pub fn notify(&mut self) -> (signal: bool)
        ensures
            notified(*old(self), *final(self), signal),
    {
        if !self.flag {
            self.flag = true;
            true
        } else {
            false
        }
    }

    /// Clears the flag and returns its previous value.
    pub fn clear(&mut self) -> (was_set: bool)
        ensures
            cleared(*old(self), *final(self), was_set),
    {
        let value = self.flag;
        self.flag = false;
        value
    }
}

/// `notify` took `before` to `after` and answered `signal`.
pub open spec fn notified(before: IoEvent, after: IoEvent, signal: bool) -> bool {
    &&& after.is_set()
    &&& signal == !before.is_set()
}

/// `clear` took `before` to `after` and answered `was_set`.
pub open spec fn cleared(before: IoEvent, after: IoEvent, was_set: bool) -> bool {
    &&& !after.is_set()
    &&& was_set == before.is_set()
}

/// Of two notifications with no clear between them, the second never signals: the
/// reactor is woken once per round of notifications.
pub proof fn law_signal_once(a: IoEvent, b: IoEvent, c: IoEvent, s1: bool, s2: bool)
    requires
        notified(a, b, s1),
        notified(b, c, s2),
    ensures
        !s2,
{
}

/// A clear after a notification reports it, and a second clear does not.
pub proof fn law_clear_sees_notification(
    a: IoEvent,
    b: IoEvent,
    c: IoEvent,
    d: IoEvent,
    s: bool,
    w1: bool,
    w2: bool,
)
    requires
        notified(a, b, s),
        cleared(b, c, w1),
        cleared(c, d, w2),
    ensures
        w1,
        !w2,
{
}

/// After a clear, the next notification signals.
pub proof fn law_notify_after_clear_signals(a: IoEvent, b: IoEvent, c: IoEvent, w: bool, s: bool)
    requires
        cleared(a, b, w),
        notified(b, c, s),
    ensures
        s,
{
}

} // verus!
