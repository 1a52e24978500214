//! The timer side of the reactor.
//!
//! Registering or deregistering a timer does not touch the timer map: it pushes an
//! operation into a bounded queue. The queued operations are applied, in order, when timers
//! are fired: when the reactor is polled, or when a push finds the queue full. Firing takes
//! out every timer whose deadline is before the current time, hands back its waker for the
//! caller to wake, earliest first, and reports how long it is until the next timer.
//!
//! Time is counted in ticks of a monotonic clock (nanoseconds); the caller reads the clock
//! and passes the current tick as `now`.
use crate::io_event::IoEvent;
use crate::op_queue::{
    clone_waker, new_op_queue, op_queue_capacity, pop_op, push_op, queue_capacity, queued_ops,
    TimerOp,
};
use crate::timer_set::{
    entries_map, is_first_key, key_lt, lemma_first_key_unique, keys_below, keys_from, lemma_wakers_in_order_len,
    sorted_entries, wakers_in_order, TimerEntry, TimerSet,
};
use crossbeam::queue::ArrayQueue;
use std::task::Waker;
use vstd::pervasive::cloned;
use vstd::prelude::*;

verus! {

/// How many timer operations may wait in the queue before they must be applied.
pub const TIMER_OPS_CAPACITY: usize = 1000;

/// The timer map after one operation.
pub open spec fn apply_op(m: Map<(u64, usize), Waker>, op: TimerOp) -> Map<(u64, usize), Waker> {
    match op {
        TimerOp::Insert(when, id, waker) => m.insert((when, id), waker),
        TimerOp::Remove(when, id) => m.remove((when, id)),
    }
}

/// The timer map after a sequence of operations, applied oldest first.
pub open spec fn apply_ops(m: Map<(u64, usize), Waker>, ops: Seq<TimerOp>) -> Map<
    (u64, usize),
    Waker,
>
    decreases ops.len(),
{
    if ops.len() == 0 {
        m
    } else {
        apply_op(apply_ops(m, ops.drop_last()), ops.last())
    }
}

/// The timers of `m` whose deadline is before `now`.
pub open spec fn due_timers(m: Map<(u64, usize), Waker>, now: u64) -> Map<(u64, usize), Waker> {
    Map::new(|k: (u64, usize)| m.dom().contains(k) && k.0 < now, |k: (u64, usize)| m[k])
}

/// The timers of `m` whose deadline is `now` or later.
pub open spec fn pending_timers(m: Map<(u64, usize), Waker>, now: u64) -> Map<(u64, usize), Waker> {
    Map::new(|k: (u64, usize)| m.dom().contains(k) && k.0 >= now, |k: (u64, usize)| m[k])
}

/// Some timer of `m` is due at `now`.
pub open spec fn has_due(m: Map<(u64, usize), Waker>, now: u64) -> bool {
    exists|k: (u64, usize)| #[trigger] m.dom().contains(k) && k.0 < now
}

/// `dur` is the time until the next timer of `m` fires, as seen at `now`: zero when some
/// timer is due, `None` when there is no timer, otherwise the distance from `now` to the
/// earliest deadline.
pub open spec fn delay_until_next(m: Map<(u64, usize), Waker>, now: u64, dur: Option<u64>) -> bool {
    if has_due(m, now) {
        dur == Some(0u64)
    } else {
        match dur {
            None => m == Map::<(u64, usize), Waker>::empty(),
            Some(d) => exists|k: (u64, usize)| #[trigger] is_first_key(m, k) && d == k.0 - now,
        }
    }
}

/// `op` registers a timer with key `(when, id)`.
pub open spec fn is_insert_of(op: TimerOp, when: u64, id: usize) -> bool {
    op matches TimerOp::Insert(w, i, _) && w == when && i == id
}

/// `op` registers a timer with a clone of `waker`, a handle that wakes the same task.
pub open spec fn carries_clone_of(op: TimerOp, waker: Waker) -> bool {
    op matches TimerOp::Insert(_, _, w) && cloned(waker, w)
}

/// The id that follows `id`; the counter wraps around.
pub open spec fn next_timer_id(id: usize) -> usize {
    if id == usize::MAX {
        0
    } else {
        (id + 1) as usize
    }
}

/// The reactor's timers.
pub struct Reactor {
    /// Registered timers, in the order in which they fire.
    timers: TimerSet<Waker>,
    /// Timer operations not yet applied to `timers`.
    timer_ops: ArrayQueue<TimerOp>,
    /// The event that is set when a timer is registered.
    timer_event: IoEvent,
    /// The id the next registered timer gets.
    next_id: usize,
}

impl Reactor {
    /// The registered timers.
    pub closed spec fn timers(&self) -> Map<(u64, usize), Waker> {
        self.timers@
    }

    /// The queued timer operations, oldest first.
    pub closed spec fn queued(&self) -> Seq<TimerOp> {
        queued_ops(self.timer_ops)
    }

    /// How many operations the queue holds at most.
    pub closed spec fn capacity(&self) -> nat {
        queue_capacity(self.timer_ops)
    }

    /// The id the next registered timer gets.
    pub closed spec fn next_id(&self) -> usize {
        self.next_id
    }

    /// Whether the timer event is set.
    pub closed spec fn timer_event_set(&self) -> bool {
        self.timer_event.is_set()
    }

    /// The timer map is ordered, and the queue holds no more than its capacity.
    pub closed spec fn wf(&self) -> bool {
        &&& self.timers.wf()
        &&& self.queued().len() <= self.capacity()
        &&& self.capacity() > 0
    }

    /// The timers the reactor will have once its queued operations are applied.
    pub open spec fn applied(&self) -> Map<(u64, usize), Waker> {
        apply_ops(self.timers(), self.queued())
    }

    /// Creates a reactor with no timers and an empty queue of capacity `TIMER_OPS_CAPACITY`.
    pub fn new() -> (r: Reactor)
        ensures
            r.wf(),
            r.timers() == Map::<(u64, usize), Waker>::empty(),
            r.queued() == Seq::<TimerOp>::empty(),
            r.capacity() == TIMER_OPS_CAPACITY,
            r.next_id() == 1,
            !r.timer_event_set(),
    {
        Reactor {
            timers: TimerSet::new(),
            timer_ops: new_op_queue(TIMER_OPS_CAPACITY),
            timer_event: IoEvent::new(),
            next_id: 1,
        }
    }

    /// Applies the queued operations in order, then takes out the timers due before `now`.
    /// Returns them together with the time until the next timer fires, as it was before
    /// this call.
    fn take_ready_timers(&mut self, now: u64) -> (res: (TimerSet<Waker>, Option<u64>))
        requires
            old(self).wf(),
        ensures
            fired(*old(self), *final(self), now),
            res.0.wf(),
            res.0@ == due_timers(old(self).applied(), now),
            delay_until_next(old(self).applied(), now, res.1),
    {
        let ghost m0 = self.timers@;
        let ghost ops = queued_ops(self.timer_ops);
        // Clear this event because we're about to fire timers.
        let _ = self.timer_event.clear();
        let cap = op_queue_capacity(&self.timer_ops);
        let mut n: usize = 0;
        // Process timer operations, but no more than the queue capacity.
        while n < cap
            invariant
                self.timers.wf(),
                n <= ops.len(),
                ops.len() <= cap,
                cap == queue_capacity(self.timer_ops),
                self.timers@ == apply_ops(m0, ops.take(n as int)),
                queued_ops(self.timer_ops) == ops.skip(n as int),
                !self.timer_event.is_set(),
                self.next_id == old(self).next_id,
            ensures
                !self.timer_event.is_set(),
                self.next_id == old(self).next_id,
                self.timers.wf(),
                cap == queue_capacity(self.timer_ops),
                n == ops.len(),
                self.timers@ == apply_ops(m0, ops.take(n as int)),
                queued_ops(self.timer_ops) == ops.skip(n as int),
            decreases cap - n,
        {
            let popped = pop_op(&mut self.timer_ops);
            match popped {
                Some(TimerOp::Insert(when, id, waker)) => {
                    let _ = self.timers.insert(when, id, waker);
                },
                Some(TimerOp::Remove(when, id)) => {
                    let _ = self.timers.remove(when, id);
                },
                None => {
                    break ;
                },
            }
            proof {
                assert(ops.take(n + 1).drop_last() =~= ops.take(n as int));
                assert(ops.skip(n as int).drop_first() =~= ops.skip(n + 1));
            }
            n = n + 1;
        }
        assert(ops.take(n as int) =~= ops);
        assert(ops.skip(n as int) =~= Seq::<TimerOp>::empty());
        let ghost applied = self.timers@;
        // Split timers into ready and pending timers.
        let mut ready = self.timers.split_off(now, 0);
        std::mem::swap(&mut ready, &mut self.timers);
        proof {
            assert(keys_below(applied, (now, 0)) =~= due_timers(applied, now));
            assert(keys_from(applied, (now, 0)) =~= pending_timers(applied, now));
        }
        // Calculate the duration until the next event.
        let dur = if ready.is_empty() {
            proof {
                if has_due(applied, now) {
                    let k = choose|k: (u64, usize)| #[trigger] applied.dom().contains(k) && k.0 < now;
                    assert(ready@.dom().contains(k));
                }
            }
            // Duration until the next timer.
            match self.timers.first_key() {
                Some((when, _)) => {
                    proof {
                        let k = choose|k: (u64, usize)| #[trigger] is_first_key(self.timers@, k)
                            && k.0 == when;
                        assert(is_first_key(applied, k)) by {
                            assert(applied.dom().contains(k));
                            assert forall|kk: (u64, usize)| #[trigger]
                                applied.dom().contains(kk) implies kk == k || key_lt(k, kk) by {
                                if kk.0 < now {
                                    assert(ready@.dom().contains(kk));
                                } else {
                                    assert(self.timers@.dom().contains(kk));
                                }
                            }
                        }
                    }
                    Some(when - now)
                },
                None => {
                    proof {
                        assert forall|kk: (u64, usize)| !applied.dom().contains(kk) by {
                            if applied.dom().contains(kk) {
                                if kk.0 < now {
                                    assert(ready@.dom().contains(kk));
                                } else {
                                    assert(self.timers@.dom().contains(kk));
                                }
                            }
                        }
                        assert(applied =~= Map::<(u64, usize), Waker>::empty());
                    }
                    None
                },
            }
        } else {
            proof {
                if !has_due(applied, now) {
                    assert(ready@ =~= Map::<(u64, usize), Waker>::empty());
                }
            }
            // Timers are about to fire right now.
            Some(0)
        };
        (ready, dur)
    }

    /// Fires ready timers: applies the queued operations and takes out the timers due before
    /// `now`. Returns the time until the next timer, as it was before this call, and the
    /// wakers of the timers taken out, earliest first; the caller wakes them.
    pub fn fire_timers(&mut self, now: u64) -> (res: (Option<u64>, Vec<Waker>))
        requires
            old(self).wf(),
        ensures
            fired(*old(self), *final(self), now),
            delay_until_next(old(self).applied(), now, res.0),
            wakers_in_order(due_timers(old(self).applied(), now), res.1@),
    {
        let (ready, dur) = self.take_ready_timers(now);
        // The tasks waiting on these timers are to be woken, in the order in which they fire.
        let wakers = ready.into_wakers();
        (dur, wakers)
    }

    /// Registers a timer that fires at `when`. Returns its id; whether the timer event was
    /// set by this call (then the caller must signal the event and wake the reactor); and the
    /// wakers of the timers that fired to make room, earliest first, for the caller to wake.
    ///
    /// The registration is queued; if the queue is full, timers are fired at `now` first.
    pub fn insert_timer(&mut self, when: u64, waker: &Waker, now: u64) -> (res: (
        usize,
        bool,
        Vec<Waker>,
    ))
        requires
            old(self).wf(),
        ensures
            inserted(*old(self), *final(self), when, now, res.0),
            carries_clone_of(final(self).queued().last(), *waker),
            res.1 == insert_signals(*old(self)),
            wakers_in_order(handed_when_full(*old(self), now), res.2@),
    {
        // Generate a new timer ID.
        let id = self.next_id;
        self.next_id = self.next_id.wrapping_add(1);
        // Push an insert operation.
        let op = TimerOp::Insert(when, id, clone_waker(waker));
        let woken = match push_op(&mut self.timer_ops, op) {
            Ok(()) => {
                assert(self.queued().drop_last() =~= old(self).queued());
                empty_wakers()
            },
            Err(op) => {
                // Fire timers to drain the queue.
                let (_, woken) = self.fire_timers(now);
                let _ = push_op(&mut self.timer_ops, op);
                assert(self.queued().drop_last() =~= Seq::<TimerOp>::empty());
                woken
            },
        };
        // Notify that a timer was added.
        let signal = self.timer_event.notify();
        (id, signal, woken)
    }

    /// Deregisters the timer with key `(when, id)`. Returns the wakers of the timers that
    /// fired to make room, earliest first, for the caller to wake.
    ///
    /// The removal is queued; if the queue is full, timers are fired at `now` first.
    pub fn remove_timer(&mut self, when: u64, id: usize, now: u64) -> (woken: Vec<Waker>)
        requires
            old(self).wf(),
        ensures
            removed(*old(self), *final(self), when, id, now),
            wakers_in_order(handed_when_full(*old(self), now), woken@),
    {
        // Push a remove operation.
        match push_op(&mut self.timer_ops, TimerOp::Remove(when, id)) {
            Ok(()) => empty_wakers(),
            Err(op) => {
                // Fire timers to drain the queue.
                let (_, woken) = self.fire_timers(now);
                let _ = push_op(&mut self.timer_ops, op);
                assert(self.queued() =~= seq![TimerOp::Remove(when, id)]);
                woken
            },
        }
    }

    /// The first half of processing events: fires the ready timers and computes how long
    /// to block waiting for I/O. Without `block`, not at all; with it, until the next timer
    /// is due, that is one tick past its deadline (`None`: no limit), or not at all when
    /// timers just fired. Returns the timeout and the wakers of the timers that fired,
    /// earliest first, for the caller to wake.
    pub fn react_begin(&mut self, block: bool, now: u64) -> (res: (Option<u64>, Vec<Waker>))
        requires
            old(self).wf(),
        ensures
            fired(*old(self), *final(self), now),
            wakers_in_order(due_timers(old(self).applied(), now), res.1@),
            res.0 == wait_timeout(block, old(self).applied(), now),
    {
        // Fire timers and compute the timeout for blocking on I/O events.
        let (next_timer, woken) = self.fire_timers(now);
        proof {
            lemma_wakers_in_order_len(due_timers(old(self).applied(), now), woken@);
            if !has_due(old(self).applied(), now) {
                assert(due_timers(old(self).applied(), now) =~= Map::<(u64, usize), Waker>::empty());
            } else {
                let k = choose|k: (u64, usize)| #[trigger] old(self).applied().dom().contains(k)
                    && k.0 < now;
                assert(due_timers(old(self).applied(), now).dom().contains(k));
            }
        }
        proof {
            if block && !has_due(old(self).applied(), now) && next_timer is Some {
                let d = next_timer->Some_0;
                let k = choose|k: (u64, usize)| #[trigger] is_first_key(old(self).applied(), k)
                    && d == k.0 - now;
                let k2 = choose|k: (u64, usize)| is_first_key(old(self).applied(), k);
                lemma_first_key_unique(old(self).applied(), k, k2);
            }
            if next_timer is None && !has_due(old(self).applied(), now) {
                assert(old(self).applied() == Map::<(u64, usize), Waker>::empty());
            }
        }
        let timeout = if !block {
            Some(0)
        } else if woken.len() > 0 {
            Some(0)
        } else {
            match next_timer {
                Some(d) => Some(d.saturating_add(1)),
                None => None,
            }
        };
        (timeout, woken)
    }

    /// The second half of processing events, once waiting for I/O returned `events` events:
    /// when the wait ended by its timeout (no event), the timers are fired again at `now`.
    /// Returns the wakers of the timers that fired, earliest first, for the caller to wake.
    pub fn react_end(&mut self, events: usize, now: u64) -> (woken: Vec<Waker>)
        requires
            old(self).wf(),
        ensures
            events == 0 ==> fired(*old(self), *final(self), now) && wakers_in_order(
                due_timers(old(self).applied(), now),
                woken@,
            ),
            events != 0 ==> *final(self) == *old(self) && woken@ == Seq::<Waker>::empty(),
    {
        // The timeout was hit so fire ready timers.
        if events == 0 {
            let (_, woken) = self.fire_timers(now);
            woken
        } else {
            Vec::new()
        }
    }
}

/// Whether a registration from `before` sets the timer event anew: it does when the event
/// was not set, or when the queue was full, for then firing clears it first.
pub open spec fn insert_signals(before: Reactor) -> bool {
    before.queued().len() >= before.capacity() || !before.timer_event_set()
}

/// No wakers.
fn empty_wakers() -> (ws: Vec<Waker>)
    ensures
        wakers_in_order(Map::<(u64, usize), Waker>::empty(), ws@),
{
    let ws: Vec<Waker> = Vec::new();
    proof {
        let s = Seq::<TimerEntry<Waker>>::empty();
        assert(entries_map(s) =~= Map::<(u64, usize), Waker>::empty());
        assert(ws@ =~= s.map_values(|e: TimerEntry<Waker>| e.waker));
        assert(sorted_entries(s));
    }
    ws
}

/// The timers that firing to make room for an operation takes out: the due ones when the
/// queue is full, none otherwise.
pub open spec fn handed_when_full(before: Reactor, now: u64) -> Map<(u64, usize), Waker> {
    if before.queued().len() >= before.capacity() {
        due_timers(before.applied(), now)
    } else {
        Map::<(u64, usize), Waker>::empty()
    }
}

/// How long processing events waits for I/O after firing the timers of `m` at `now`: not at
/// all without `block` or when some timer was due; otherwise one tick past the distance to
/// the earliest deadline (saturating), or without limit when there is no timer.
pub open spec fn wait_timeout(block: bool, m: Map<(u64, usize), Waker>, now: u64) -> Option<u64> {
    if !block || has_due(m, now) {
        Some(0u64)
    } else if m == Map::<(u64, usize), Waker>::empty() {
        None
    } else {
        let k = choose|k: (u64, usize)| is_first_key(m, k);
        Some(if k.0 - now + 1 > u64::MAX { u64::MAX } else { (k.0 - now + 1) as u64 })
    }
}

/// `after` is `before` once its queued operations were applied and the timers due before
/// `now` were taken out; the timer event is cleared.
pub open spec fn fired(before: Reactor, after: Reactor, now: u64) -> bool {
    &&& after.wf()
    &&& after.timers() == pending_timers(before.applied(), now)
    &&& after.queued() == Seq::<TimerOp>::empty()
    &&& !after.timer_event_set()
    &&& after.next_id() == before.next_id()
    &&& after.capacity() == before.capacity()
}

/// `insert_timer(when, _, now)` took `before` to `after`, returning `id`: the registration
/// is the last queued operation, after the queue was flushed by firing timers at `now` when
/// it was full; the id counter advanced, and the timer event is set.
pub open spec fn inserted(before: Reactor, after: Reactor, when: u64, now: u64, id: usize) -> bool {
    let full = before.queued().len() >= before.capacity();
    &&& after.wf()
    &&& id == before.next_id()
    &&& after.next_id() == next_timer_id(before.next_id())
    &&& after.capacity() == before.capacity()
    &&& after.timer_event_set()
    &&& after.queued().len() > 0
    &&& is_insert_of(after.queued().last(), when, id)
    &&& !full ==> after.timers() == before.timers() && after.queued().drop_last()
        == before.queued()
    &&& full ==> after.timers() == pending_timers(before.applied(), now)
        && after.queued().drop_last() == Seq::<TimerOp>::empty()
}

/// `remove_timer(when, id, now)` took `before` to `after`: the removal is the last queued
/// operation, after the queue was flushed by firing timers at `now` when it was full.
pub open spec fn removed(before: Reactor, after: Reactor, when: u64, id: usize, now: u64) -> bool {
    let full = before.queued().len() >= before.capacity();
    &&& after.wf()
    &&& after.next_id() == before.next_id()
    &&& after.capacity() == before.capacity()
    &&& !full ==> after.timers() == before.timers() && after.queued() == before.queued().push(
        TimerOp::Remove(when, id),
    ) && after.timer_event_set() == before.timer_event_set()
    &&& full ==> after.timers() == pending_timers(before.applied(), now) && after.queued()
        == seq![TimerOp::Remove(when, id)] && !after.timer_event_set()
}

/// Registering a timer and then deregistering it, with no firing in between, leaves the
/// timers as if neither had happened, except that no timer has that key.
pub proof fn law_insert_then_remove_cancels(
    m: Map<(u64, usize), Waker>,
    ops: Seq<TimerOp>,
    when: u64,
    id: usize,
    waker: Waker,
)
    ensures
        apply_ops(
            m,
            ops.push(TimerOp::Insert(when, id, waker)).push(TimerOp::Remove(when, id)),
        ) == apply_ops(m, ops).remove((when, id)),
{
    let ops1 = ops.push(TimerOp::Insert(when, id, waker));
    let ops2 = ops1.push(TimerOp::Remove(when, id));
    assert(ops2.drop_last() =~= ops1);
    assert(ops1.drop_last() =~= ops);
    assert(apply_ops(m, ops2) == apply_op(apply_ops(m, ops1), TimerOp::Remove(when, id)));
    assert(apply_ops(m, ops1) == apply_op(apply_ops(m, ops), TimerOp::Insert(when, id, waker)));
    assert(apply_ops(m, ops).insert((when, id), waker).remove((when, id)) =~= apply_ops(
        m,
        ops,
    ).remove((when, id)));
}

/// Firing splits the timers: each one is either taken out as due or kept as pending, never
/// both, with its waker.
pub proof fn law_fire_partitions(m: Map<(u64, usize), Waker>, now: u64)
    ensures
        due_timers(m, now).dom().disjoint(pending_timers(m, now).dom()),
        due_timers(m, now).union_prefer_right(pending_timers(m, now)) == m,
{
    assert(due_timers(m, now).union_prefer_right(pending_timers(m, now)) =~= m);
}

/// After firing at `now`, no timer left is due at `now`, and every timer that was not due
/// is still there with its waker.
pub proof fn law_fire_leaves_only_future_timers(before: Reactor, after: Reactor, now: u64)
    requires
        fired(before, after, now),
    ensures
        forall|k: (u64, usize)| #[trigger] after.timers().dom().contains(k) ==> k.0 >= now,
        forall|k: (u64, usize)|
            #[trigger] before.applied().dom().contains(k) && k.0 >= now ==> after.timers().dom().contains(k)
                && after.timers()[k] == before.applied()[k],
{
}

/// Firing twice at the same time: the second firing finds nothing due and changes no timer.
pub proof fn law_fire_twice_is_idle(r0: Reactor, r1: Reactor, r2: Reactor, now: u64)
    requires
        fired(r0, r1, now),
        fired(r1, r2, now),
    ensures
        due_timers(r1.applied(), now) == Map::<(u64, usize), Waker>::empty(),
        r2.timers() == r1.timers(),
{
    assert(r1.queued() =~= Seq::<TimerOp>::empty());
    assert(r1.applied() == r1.timers());
    assert(due_timers(r1.applied(), now) =~= Map::<(u64, usize), Waker>::empty());
    assert(pending_timers(r1.applied(), now) =~= r1.timers());
}

/// No timer comes due before the delay that firing reports has passed.
pub proof fn law_no_timer_due_before_delay(
    before: Reactor,
    after: Reactor,
    now: u64,
    dur: Option<u64>,
)
    requires
        fired(before, after, now),
        delay_until_next(before.applied(), now, dur),
    ensures
        dur matches Some(d) ==> forall|k: (u64, usize)| #[trigger]
            after.timers().dom().contains(k) ==> k.0 >= now + d,
        dur is None ==> after.timers() == Map::<(u64, usize), Waker>::empty(),
{
    let m = before.applied();
    if !has_due(m, now) {
        if let Some(d) = dur {
            let k0 = choose|k: (u64, usize)| #[trigger] is_first_key(m, k) && d == k.0 - now;
            assert forall|k: (u64, usize)| #[trigger] after.timers().dom().contains(k) implies k.0
                >= now + d by {
                assert(m.dom().contains(k));
                assert(k == k0 || key_lt(k0, k));
                assert(m.dom().contains(k0));
            }
        } else {
            assert(after.timers() =~= Map::<(u64, usize), Waker>::empty());
        }
    }
}

/// A registration leaves its timer among the timers the reactor will have.
proof fn lemma_inserted_present(r0: Reactor, r1: Reactor, deadline: u64, now0: u64, id: usize)
    requires
        inserted(r0, r1, deadline, now0, id),
    ensures
        r1.applied().dom().contains((deadline, id)),
{
    let q = r1.queued();
    match q.last() {
        TimerOp::Insert(w, i, waker) => {
            assert(r1.applied() == apply_ops(r1.timers(), q.drop_last()).insert((w, i), waker));
        },
        TimerOp::Remove(..) => {},
    }
}

/// A timer whose deadline has passed is taken out, to be woken, by the next firing.
pub proof fn law_due_timer_fires(
    r0: Reactor,
    r1: Reactor,
    deadline: u64,
    now0: u64,
    id: usize,
    now: u64,
)
    requires
        inserted(r0, r1, deadline, now0, id),
        deadline < now,
    ensures
        due_timers(r1.applied(), now).dom().contains((deadline, id)),
{
    lemma_inserted_present(r0, r1, deadline, now0, id);
}

/// Consecutive registrations get consecutive ids: the next id is one more, wrapping to zero
/// after the largest, so no two are the same until the counter wraps around.
pub proof fn law_consecutive_ids(
    r0: Reactor,
    r1: Reactor,
    r2: Reactor,
    w1: u64,
    n1: u64,
    id1: usize,
    w2: u64,
    n2: u64,
    id2: usize,
)
    requires
        inserted(r0, r1, w1, n1, id1),
        inserted(r1, r2, w2, n2, id2),
    ensures
        id1 < usize::MAX ==> id2 == id1 + 1,
        id1 == usize::MAX ==> id2 == 0,
        id1 != id2,
{
}

/// After a registration that found room in the queue, the next registration does not ask
/// for a signal: the event is signalled once per round.
pub proof fn law_one_signal_per_round(
    r0: Reactor,
    r1: Reactor,
    w: u64,
    n: u64,
    id: usize,
    signal: bool,
)
    requires
        inserted(r0, r1, w, n, id),
        r1.queued().len() < r1.capacity(),
        signal == insert_signals(r1),
    ensures
        !signal,
{
}

/// After timers fired, which clears the event, the next registration asks for a signal.
pub proof fn law_signal_after_fire(r0: Reactor, r1: Reactor, now: u64, signal: bool)
    requires
        fired(r0, r1, now),
        signal == insert_signals(r1),
    ensures
        signal,
{
}

/// On a new reactor, the first registration asks for a signal.
pub proof fn law_first_registration_signals(r: Reactor, signal: bool)
    requires
        !r.timer_event_set(),
        signal == insert_signals(r),
    ensures
        signal,
{
}

/// Firing at `now` hands back exactly the wakers of the timers whose deadline is before
/// `now`, each once, earliest first; the others stay registered with their wakers.
pub proof fn law_fire_hands_back_due(r0: Reactor, r1: Reactor, now: u64, ws: Seq<Waker>)
    requires
        fired(r0, r1, now),
        wakers_in_order(due_timers(r0.applied(), now), ws),
    ensures
        wakers_in_order(
            Map::new(
                |k: (u64, usize)| r0.applied().dom().contains(k) && k.0 < now,
                |k: (u64, usize)| r0.applied()[k],
            ),
            ws,
        ),
        forall|k: (u64, usize)|
            #[trigger] r1.timers().dom().contains(k) <==> r0.applied().dom().contains(k) && k.0
                >= now,
        forall|k: (u64, usize)|
            #[trigger] r1.timers().dom().contains(k) ==> r1.timers()[k] == r0.applied()[k],
{
    assert(due_timers(r0.applied(), now) =~= Map::new(
        |k: (u64, usize)| r0.applied().dom().contains(k) && k.0 < now,
        |k: (u64, usize)| r0.applied()[k],
    ));
}

/// A later clock never takes out fewer timers, nor reports a longer wait.
pub proof fn law_later_clock_fires_more(
    m: Map<(u64, usize), Waker>,
    now1: u64,
    now2: u64,
    d1: Option<u64>,
    d2: Option<u64>,
)
    requires
        now1 <= now2,
        delay_until_next(m, now1, d1),
        delay_until_next(m, now2, d2),
    ensures
        due_timers(m, now1).dom().subset_of(due_timers(m, now2).dom()),
        d1 is None ==> d2 is None,
        (d1 is Some && d2 is Some) ==> d2->Some_0 <= d1->Some_0,
{
    if has_due(m, now1) {
        let k = choose|k: (u64, usize)| #[trigger] m.dom().contains(k) && k.0 < now1;
        assert(m.dom().contains(k) && k.0 < now2);
    } else if d1 is Some && !has_due(m, now2) {
        let a = d1->Some_0;
        let b = d2->Some_0;
        let k1 = choose|k: (u64, usize)| #[trigger] is_first_key(m, k) && a == k.0 - now1;
        let k2 = choose|k: (u64, usize)| #[trigger] is_first_key(m, k) && b == k.0 - now2;
        lemma_first_key_unique(m, k1, k2);
    }
}

/// When no timer was due and the wait for I/O lasted its whole timeout, firing afterwards
/// takes out at least one timer: a blocking wait ends having processed an event.
/// (The timeout saturates only when the next deadline is `u64::MAX` ticks away; that case is
/// left out.)
pub proof fn law_timed_out_wait_fires(
    r0: Reactor,
    r1: Reactor,
    r2: Reactor,
    now0: u64,
    t: u64,
    ws0: Seq<Waker>,
    now1: u64,
    ws1: Seq<Waker>,
)
    requires
        fired(r0, r1, now0),
        wakers_in_order(due_timers(r0.applied(), now0), ws0),
        ws0.len() == 0,
        wait_timeout(true, r0.applied(), now0) == Some(t),
        t < u64::MAX,
        now1 >= now0 + t,
        fired(r1, r2, now1),
        wakers_in_order(due_timers(r1.applied(), now1), ws1),
    ensures
        ws1.len() > 0,
{
    let m = r0.applied();
    lemma_wakers_in_order_len(due_timers(m, now0), ws0);
    if has_due(m, now0) {
        let k = choose|k: (u64, usize)| #[trigger] m.dom().contains(k) && k.0 < now0;
        assert(due_timers(m, now0).dom().contains(k));
    }
    let k = choose|k: (u64, usize)| is_first_key(m, k);
    assert(m != Map::<(u64, usize), Waker>::empty());
    assert(exists|kk: (u64, usize)| is_first_key(m, kk)) by {
        let some = choose|kk: (u64, usize)| m.dom().contains(kk);
        assert(m.dom().contains(some)) by {
            if !m.dom().contains(some) {
                assert(m =~= Map::<(u64, usize), Waker>::empty());
            }
        }
        lemma_first_key_exists(m, some);
    }
    assert(is_first_key(m, k));
    assert(r1.queued() == Seq::<TimerOp>::empty());
    assert(r1.applied() == r1.timers());
    assert(r1.timers().dom().contains(k));
    assert(due_timers(r1.applied(), now1).dom().contains(k));
    lemma_wakers_in_order_len(due_timers(r1.applied(), now1), ws1);
}

/// A map with a key in it has a first key.
proof fn lemma_first_key_exists(m: Map<(u64, usize), Waker>, k: (u64, usize))
    requires
        m.dom().contains(k),
    ensures
        exists|kk: (u64, usize)| is_first_key(m, kk),
    decreases k.0, k.1,
{
    if exists|kk: (u64, usize)| #[trigger] m.dom().contains(kk) && key_lt(kk, k) {
        let kk = choose|kk: (u64, usize)| #[trigger] m.dom().contains(kk) && key_lt(kk, k);
        lemma_first_key_exists(m, kk);
    } else {
        assert(is_first_key(m, k));
    }
}

/// A call on the reactor, as the laws over sequences of calls see it.
pub enum ReactorCall {
    /// Firing timers at a time: `fire_timers`, `react_begin`, or `react_end` after a timeout.
    Fire(u64),
    /// `insert_timer` of a deadline, at a time.
    Insert(u64, u64),
    /// `remove_timer` of a deadline and an id, at a time.
    Remove(u64, usize, u64),
}

/// The time a call reads.
pub open spec fn call_now(c: ReactorCall) -> u64 {
    match c {
        ReactorCall::Fire(now) => now,
        ReactorCall::Insert(_, now) => now,
        ReactorCall::Remove(_, _, now) => now,
    }
}

/// Call `c` took the reactor from `a` to `b` and took out the timers `out`, whose wakers it
/// handed back to be woken.
pub open spec fn call_step(
    a: Reactor,
    b: Reactor,
    c: ReactorCall,
    out: Map<(u64, usize), Waker>,
) -> bool {
    match c {
        ReactorCall::Fire(now) => fired(a, b, now) && out == due_timers(a.applied(), now),
        ReactorCall::Insert(w, now) => inserted(a, b, w, now, a.next_id()) && out
            == handed_when_full(a, now),
        ReactorCall::Remove(w, i, now) => removed(a, b, w, i, now) && out == handed_when_full(
            a,
            now,
        ),
    }
}

/// Call `c` fires timers at a time after `t`.
pub open spec fn fires_after(c: ReactorCall, t: u64) -> bool {
    match c {
        ReactorCall::Fire(now) => t < now,
        _ => false,
    }
}

/// Call `c`, made on `a`, registers a timer with key `k`.
pub open spec fn inserts_key(a: Reactor, c: ReactorCall, k: (u64, usize)) -> bool {
    c matches ReactorCall::Insert(w, _) && (w, a.next_id()) == k
}

/// Call `c` deregisters the timer with key `k`.
pub open spec fn removes_key(c: ReactorCall, k: (u64, usize)) -> bool {
    c matches ReactorCall::Remove(w, i, _) && (w, i) == k
}

/// `states`, `calls` and `outs` are a run of the reactor: call `i` took `states[i]` to
/// `states[i + 1]` and took out the timers `outs[i]`.
pub open spec fn is_run(
    states: Seq<Reactor>,
    calls: Seq<ReactorCall>,
    outs: Seq<Map<(u64, usize), Waker>>,
) -> bool {
    &&& states.len() == calls.len() + 1
    &&& outs.len() == calls.len()
    &&& forall|i: int|
        0 <= i < calls.len() ==> call_step(states[i], states[i + 1], #[trigger] calls[i], outs[i])
}

/// What one call does to one timer key.
proof fn lemma_step(
    a: Reactor,
    b: Reactor,
    c: ReactorCall,
    out: Map<(u64, usize), Waker>,
    k: (u64, usize),
)
    requires
        call_step(a, b, c, out),
        !inserts_key(a, c, k),
    ensures
        out.dom().contains(k) ==> a.applied().dom().contains(k) && k.0 < call_now(c),
        !a.applied().dom().contains(k) ==> !b.applied().dom().contains(k),
        a.applied().dom().contains(k) && !removes_key(c, k) ==> (b.applied().dom().contains(k)
            <==> !out.dom().contains(k)),
        a.applied().dom().contains(k) && b.applied().dom().contains(k) ==> b.applied()[k]
            == a.applied()[k],
        out.dom().contains(k) ==> out[k] == a.applied()[k],
{
    let full = a.queued().len() >= a.capacity();
    let bq = b.queued();
    match c {
        ReactorCall::Fire(now) => {
            assert(b.applied() == b.timers());
        },
        ReactorCall::Insert(w, now) => {
            let base = if full {
                pending_timers(a.applied(), now)
            } else {
                a.applied()
            };
            match bq.last() {
                TimerOp::Insert(ww, i, x) => {
                    assert(apply_ops(b.timers(), bq.drop_last()) == base);
                    assert(b.applied() == base.insert((ww, i), x));
                },
                TimerOp::Remove(..) => {},
            }
        },
        ReactorCall::Remove(w, i, now) => {
            let base = if full {
                pending_timers(a.applied(), now)
            } else {
                a.applied()
            };
            assert(bq.last() == TimerOp::Remove(w, i));
            assert(bq.drop_last() =~= (if full {
                Seq::<TimerOp>::empty()
            } else {
                a.queued()
            }));
            assert(apply_ops(b.timers(), bq.drop_last()) == base);
            assert(b.applied() == base.remove((w, i)));
        },
    }
}

/// Along a run that never registers key `k`, a timer absent at the start stays absent.
proof fn lemma_run_absent(
    states: Seq<Reactor>,
    calls: Seq<ReactorCall>,
    outs: Seq<Map<(u64, usize), Waker>>,
    k: (u64, usize),
    i: int,
)
    requires
        is_run(states, calls, outs),
        forall|j: int| 0 <= j < calls.len() ==> !inserts_key(states[j], #[trigger] calls[j], k),
        !states[0].applied().dom().contains(k),
        0 <= i < states.len(),
    ensures
        !states[i].applied().dom().contains(k),
    decreases i,
{
    if i > 0 {
        lemma_run_absent(states, calls, outs, k, i - 1);
        assert(call_step(states[i - 1], states[i], calls[i - 1], outs[i - 1]));
        lemma_step(states[i - 1], states[i], calls[i - 1], outs[i - 1], k);
    }
}

/// Along a run that neither registers nor deregisters key `k`, a timer present at the start
/// is present exactly until a call takes it out.
proof fn lemma_run_present(
    states: Seq<Reactor>,
    calls: Seq<ReactorCall>,
    outs: Seq<Map<(u64, usize), Waker>>,
    k: (u64, usize),
    i: int,
)
    requires
        is_run(states, calls, outs),
        forall|j: int|
            0 <= j < calls.len() ==> !inserts_key(states[j], #[trigger] calls[j], k)
                && !removes_key(calls[j], k),
        states[0].applied().dom().contains(k),
        0 <= i < states.len(),
    ensures
        states[i].applied().dom().contains(k) <==> (forall|j: int|
            0 <= j < i ==> !#[trigger] outs[j].dom().contains(k)),
        states[i].applied().dom().contains(k) ==> states[i].applied()[k]
            == states[0].applied()[k],
    decreases i,
{
    if i > 0 {
        lemma_run_present(states, calls, outs, k, i - 1);
        assert(call_step(states[i - 1], states[i], calls[i - 1], outs[i - 1]));
        assert(!inserts_key(states[i - 1], calls[i - 1], k) && !removes_key(calls[i - 1], k));
        lemma_step(states[i - 1], states[i], calls[i - 1], outs[i - 1], k);
        if !states[i - 1].applied().dom().contains(k) {
            let j = choose|j: int| 0 <= j < i - 1 && #[trigger] outs[j].dom().contains(k);
            assert(0 <= j < i && outs[j].dom().contains(k));
        }
    }
}

/// Once deregistered, a timer is never taken out, hence never woken, by any later call,
/// as long as no later registration gets the same key (ids are handed out in sequence, so
/// that takes the id counter wrapping around).
pub proof fn law_removed_timer_never_fires_later(
    r0: Reactor,
    deadline: u64,
    id: usize,
    now0: u64,
    states: Seq<Reactor>,
    calls: Seq<ReactorCall>,
    outs: Seq<Map<(u64, usize), Waker>>,
)
    requires
        removed(r0, states[0], deadline, id, now0),
        is_run(states, calls, outs),
        forall|j: int|
            0 <= j < calls.len() ==> !inserts_key(states[j], #[trigger] calls[j], (deadline, id)),
    ensures
        forall|i: int| 0 <= i < outs.len() ==> !#[trigger] outs[i].dom().contains((deadline, id)),
        forall|i: int|
            0 <= i < states.len() ==> !#[trigger] states[i].applied().dom().contains((deadline, id)),
{
    let k = (deadline, id);
    let q = states[0].queued();
    assert(q.last() == TimerOp::Remove(deadline, id));
    assert(states[0].applied() == apply_ops(states[0].timers(), q.drop_last()).remove(k));
    assert forall|i: int| 0 <= i < states.len() implies !#[trigger] states[i].applied().dom().contains(
        k,
    ) by {
        lemma_run_absent(states, calls, outs, k, i);
    }
    assert forall|i: int| 0 <= i < outs.len() implies !#[trigger] outs[i].dom().contains(k) by {
        lemma_run_absent(states, calls, outs, k, i);
        assert(call_step(states[i], states[i + 1], calls[i], outs[i]));
        lemma_step(states[i], states[i + 1], calls[i], outs[i], k);
    }
}

/// A registered timer that is not deregistered is taken out, to be woken through a clone of
/// the waker it was registered with, exactly once:
/// never by a call that reads a time at or before its deadline, never twice, and by the
/// first firing that reads a later time, if no call took it out before. This holds as long
/// as no later registration gets the same key.
pub proof fn law_registered_timer_fires_once(
    r0: Reactor,
    deadline: u64,
    now0: u64,
    id: usize,
    waker: Waker,
    states: Seq<Reactor>,
    calls: Seq<ReactorCall>,
    outs: Seq<Map<(u64, usize), Waker>>,
)
    requires
        inserted(r0, states[0], deadline, now0, id),
        carries_clone_of(states[0].queued().last(), waker),
        is_run(states, calls, outs),
        forall|j: int|
            0 <= j < calls.len() ==> !inserts_key(states[j], #[trigger] calls[j], (deadline, id))
                && !removes_key(calls[j], (deadline, id)),
    ensures
        forall|i: int|
            0 <= i < outs.len() && #[trigger] outs[i].dom().contains((deadline, id)) ==> deadline
                < call_now(calls[i]) && cloned(waker, outs[i][(deadline, id)]),
        forall|i: int, j: int|
            0 <= i < j < outs.len() ==> !(#[trigger] outs[i].dom().contains((deadline, id))
                && #[trigger] outs[j].dom().contains((deadline, id))),
        forall|i: int|
            0 <= i < calls.len() && fires_after(#[trigger] calls[i], deadline) && (forall|j: int|
                0 <= j < i ==> !outs[j].dom().contains((deadline, id))) ==> outs[i].dom().contains(
                (deadline, id),
            ),
{
    let k = (deadline, id);
    law_registration_carries_callers_waker(r0, states[0], deadline, now0, id, waker);
    assert forall|i: int|
        0 <= i < outs.len() && #[trigger] outs[i].dom().contains(k) implies deadline < call_now(
        calls[i],
    ) && cloned(waker, outs[i][k]) by {
        assert(call_step(states[i], states[i + 1], calls[i], outs[i]));
        lemma_step(states[i], states[i + 1], calls[i], outs[i], k);
        lemma_run_present(states, calls, outs, k, i);
    }
    assert forall|i: int, j: int| 0 <= i < j < outs.len() implies !(
    #[trigger] outs[i].dom().contains(k) && #[trigger] outs[j].dom().contains(k)) by {
        if outs[i].dom().contains(k) && outs[j].dom().contains(k) {
            assert(call_step(states[j], states[j + 1], calls[j], outs[j]));
            lemma_step(states[j], states[j + 1], calls[j], outs[j], k);
            lemma_run_present(states, calls, outs, k, j);
        }
    }
    assert forall|i: int|
        0 <= i < calls.len() && fires_after(#[trigger] calls[i], deadline) && (forall|j: int|
            0 <= j < i ==> !outs[j].dom().contains(k)) implies outs[i].dom().contains(k) by {
        lemma_run_present(states, calls, outs, k, i);
        assert(call_step(states[i], states[i + 1], calls[i], outs[i]));
    }
}

/// Some timer of `m` is due at `now` exactly when firing at `now` hands back a waker.
proof fn lemma_due_iff_woken(m: Map<(u64, usize), Waker>, now: u64, ws: Seq<Waker>)
    requires
        wakers_in_order(due_timers(m, now), ws),
    ensures
        ws.len() > 0 <==> has_due(m, now),
{
    lemma_wakers_in_order_len(due_timers(m, now), ws);
    if has_due(m, now) {
        let k = choose|k: (u64, usize)| #[trigger] m.dom().contains(k) && k.0 < now;
        assert(due_timers(m, now).dom().contains(k));
    } else {
        assert(due_timers(m, now) =~= Map::<(u64, usize), Waker>::empty());
    }
}

/// A map with no key in it is the empty map.
proof fn lemma_no_key_empty(m: Map<(u64, usize), Waker>)
    ensures
        (forall|k: (u64, usize)| !m.dom().contains(k)) <==> m == Map::<(u64, usize), Waker>::empty(),
{
    if forall|k: (u64, usize)| !m.dom().contains(k) {
        assert(m =~= Map::<(u64, usize), Waker>::empty());
    }
}

/// What firing reports: it hands back wakers exactly when some timer is due, and then the
/// delay is zero; otherwise the delay is `None` exactly when there is no timer, and else it is
/// the distance from `now` to the earliest deadline, which some timer has.
pub proof fn law_fire_delay(
    r0: Reactor,
    r1: Reactor,
    now: u64,
    dur: Option<u64>,
    ws: Seq<Waker>,
)
    requires
        fired(r0, r1, now),
        delay_until_next(r0.applied(), now, dur),
        wakers_in_order(due_timers(r0.applied(), now), ws),
    ensures
        ws.len() > 0 <==> (exists|k: (u64, usize)| #[trigger] r0.applied().dom().contains(k) && k.0
            < now),
        ws.len() > 0 ==> dur == Some(0u64),
        dur is None <==> (forall|k: (u64, usize)| !r0.applied().dom().contains(k)),
        ws.len() == 0 && dur is Some ==> exists|k: (u64, usize)|
            #[trigger] r0.applied().dom().contains(k) && k.0 == now + dur->Some_0 && (forall|
                kk: (u64, usize),
            | r0.applied().dom().contains(kk) ==> k.0 <= kk.0),
{
    let m = r0.applied();
    lemma_due_iff_woken(m, now, ws);
    lemma_no_key_empty(m);
    if !has_due(m, now) && dur is Some {
        let d = dur->Some_0;
        let k = choose|k: (u64, usize)| #[trigger] is_first_key(m, k) && d == k.0 - now;
        assert(m.dom().contains(k));
        assert forall|kk: (u64, usize)| m.dom().contains(kk) implies k.0 <= kk.0 by {
            assert(kk == k || key_lt(k, kk));
        }
    }
}

/// How long processing events waits: not at all without `block` or when timers fired; with
/// `block`, without limit exactly when there is no timer, and otherwise until one tick past
/// the earliest deadline (saturating), so a registered timer always bounds the wait.
pub proof fn law_react_timeout(
    r0: Reactor,
    r1: Reactor,
    block: bool,
    now: u64,
    timeout: Option<u64>,
    ws: Seq<Waker>,
)
    requires
        fired(r0, r1, now),
        wakers_in_order(due_timers(r0.applied(), now), ws),
        timeout == wait_timeout(block, r0.applied(), now),
    ensures
        !block ==> timeout == Some(0u64),
        ws.len() > 0 ==> timeout == Some(0u64),
        timeout is None <==> (block && forall|k: (u64, usize)| !r0.applied().dom().contains(k)),
        block && ws.len() == 0 && (exists|k: (u64, usize)| r0.applied().dom().contains(k)) ==> exists|
            k: (u64, usize),
        |
            #[trigger] r0.applied().dom().contains(k) && now <= k.0 && (forall|kk: (u64, usize)|
                r0.applied().dom().contains(kk) ==> k.0 <= kk.0) && timeout == Some(
                if k.0 - now + 1 > u64::MAX {
                    u64::MAX
                } else {
                    (k.0 - now + 1) as u64
                },
            ),
{
    let m = r0.applied();
    lemma_due_iff_woken(m, now, ws);
    lemma_no_key_empty(m);
    if block && !has_due(m, now) && m != Map::<(u64, usize), Waker>::empty() {
        let some = choose|kk: (u64, usize)| m.dom().contains(kk);
        assert(m.dom().contains(some)) by {
            if !m.dom().contains(some) {
                assert(m =~= Map::<(u64, usize), Waker>::empty());
            }
        }
        lemma_first_key_exists(m, some);
        let k = choose|k: (u64, usize)| is_first_key(m, k);
        assert(is_first_key(m, k));
        assert(m.dom().contains(k));
        assert forall|kk: (u64, usize)| m.dom().contains(kk) implies k.0 <= kk.0 by {
            assert(kk == k || key_lt(k, kk));
        }
        assert(now <= k.0);
    }
}

/// A registration queues a clone of the caller's waker, so the timer it adds is woken
/// through the caller's task, never through another timer's.
pub proof fn law_registration_carries_callers_waker(
    r0: Reactor,
    r1: Reactor,
    deadline: u64,
    now: u64,
    id: usize,
    waker: Waker,
)
    requires
        inserted(r0, r1, deadline, now, id),
        carries_clone_of(r1.queued().last(), waker),
    ensures
        r1.applied().dom().contains((deadline, id)),
        cloned(waker, r1.applied()[(deadline, id)]),
{
    let q = r1.queued();
    match q.last() {
        TimerOp::Insert(w, i, x) => {
            assert(r1.applied() == apply_ops(r1.timers(), q.drop_last()).insert((w, i), x));
        },
        TimerOp::Remove(..) => {},
    }
}

} // verus!
