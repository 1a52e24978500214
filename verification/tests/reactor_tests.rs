use smol::reactor::{Reactor, TIMER_OPS_CAPACITY};
use std::sync::atomic::{AtomicUsize, Ordering};
use std::sync::Arc;
use std::task::{Wake, Waker};

struct Counter(AtomicUsize);

impl Wake for Counter {
    fn wake(self: Arc<Self>) {
        self.0.fetch_add(1, Ordering::SeqCst);
    }
}

fn counter() -> (Arc<Counter>, Waker) {
    let c = Arc::new(Counter(AtomicUsize::new(0)));
    let w = Waker::from(c.clone());
    (c, w)
}

fn count(c: &Arc<Counter>) -> usize {
    c.0.load(Ordering::SeqCst)
}

fn wake_all(wakers: Vec<Waker>) {
    for w in wakers {
        w.wake();
    }
}

/// Fires timers and wakes what they hand back.
fn fire(r: &mut Reactor, now: u64) -> Option<u64> {
    let (dur, wakers) = r.fire_timers(now);
    wake_all(wakers);
    dur
}

fn insert(r: &mut Reactor, when: u64, w: &Waker, now: u64) -> (usize, bool) {
    let (id, signal, wakers) = r.insert_timer(when, w, now);
    wake_all(wakers);
    (id, signal)
}

fn remove(r: &mut Reactor, when: u64, id: usize, now: u64) {
    wake_all(r.remove_timer(when, id, now));
}

#[test]
fn empty_reactor_has_no_next_timer() {
    let mut r = Reactor::new();
    assert_eq!(fire(&mut r, 0), None);
    assert_eq!(fire(&mut r, 1_000), None);
}

#[test]
fn ids_are_consecutive_from_one() {
    let mut r = Reactor::new();
    let (_c, w) = counter();
    assert_eq!(insert(&mut r, 10, &w, 0).0, 1);
    assert_eq!(insert(&mut r, 10, &w, 0).0, 2);
    assert_eq!(insert(&mut r, 5, &w, 0).0, 3);
}

#[test]
fn first_insert_signals_until_timers_fire() {
    let mut r = Reactor::new();
    let (_c, w) = counter();
    assert!(insert(&mut r, 10, &w, 0).1);
    assert!(!insert(&mut r, 11, &w, 0).1);
    fire(&mut r, 0);
    assert!(insert(&mut r, 12, &w, 0).1);
}

#[test]
fn due_timers_fire_and_report_zero_delay() {
    let mut r = Reactor::new();
    let (a, wa) = counter();
    let (b, wb) = counter();
    insert(&mut r, 100, &wa, 0);
    insert(&mut r, 300, &wb, 0);
    assert_eq!(fire(&mut r, 150), Some(0));
    assert_eq!(count(&a), 1);
    assert_eq!(count(&b), 0);
    // Nothing more is due; the next timer is 150 ticks away.
    assert_eq!(fire(&mut r, 150), Some(150));
    assert_eq!(count(&a), 1);
    assert_eq!(fire(&mut r, 301), Some(0));
    assert_eq!(count(&b), 1);
    assert_eq!(fire(&mut r, 301), None);
}

#[test]
fn fire_hands_back_only_due_wakers() {
    let mut r = Reactor::new();
    let (_a, wa) = counter();
    let (_b, wb) = counter();
    insert(&mut r, 5, &wa, 0);
    insert(&mut r, 10, &wb, 0);
    let (dur, wakers) = r.fire_timers(7);
    assert_eq!(dur, Some(0));
    assert_eq!(wakers.len(), 1);
    assert!(wakers[0].will_wake(&wa));
    let (dur, wakers) = r.fire_timers(7);
    assert_eq!(dur, Some(3));
    assert!(wakers.is_empty());
}

#[test]
fn timer_at_now_is_not_yet_due() {
    let mut r = Reactor::new();
    let (a, wa) = counter();
    insert(&mut r, 50, &wa, 0);
    assert_eq!(fire(&mut r, 50), Some(0));
    assert_eq!(count(&a), 0);
    assert_eq!(fire(&mut r, 51), Some(0));
    assert_eq!(count(&a), 1);
}

#[test]
fn delay_is_distance_to_earliest_deadline() {
    let mut r = Reactor::new();
    let (_a, wa) = counter();
    insert(&mut r, 900, &wa, 0);
    insert(&mut r, 400, &wa, 0);
    insert(&mut r, 700, &wa, 0);
    assert_eq!(fire(&mut r, 100), Some(300));
}

#[test]
fn later_clock_fires_more_and_waits_less() {
    let (_a, wa) = counter();
    let mut delays = Vec::new();
    let mut fired = Vec::new();
    for now in [0u64, 15, 25, 40] {
        let mut r = Reactor::new();
        insert(&mut r, 10, &wa, 0);
        insert(&mut r, 20, &wa, 0);
        insert(&mut r, 30, &wa, 0);
        let (dur, wakers) = r.fire_timers(now);
        delays.push(dur);
        fired.push(wakers.len());
    }
    assert_eq!(delays, vec![Some(10), Some(0), Some(0), Some(0)]);
    assert_eq!(fired, vec![0, 1, 2, 3]);
}

#[test]
fn removed_timer_never_fires() {
    let mut r = Reactor::new();
    let (a, wa) = counter();
    let (b, wb) = counter();
    let (id, _) = insert(&mut r, 10, &wa, 0);
    insert(&mut r, 20, &wb, 0);
    remove(&mut r, 10, id, 0);
    assert_eq!(fire(&mut r, 1_000), Some(0));
    assert_eq!(count(&a), 0);
    assert_eq!(count(&b), 1);
    // Nor later, whatever else happens.
    insert(&mut r, 5, &wb, 1_000);
    fire(&mut r, 2_000);
    fire(&mut r, 3_000);
    assert_eq!(count(&a), 0);
}

#[test]
fn registered_timer_fires_exactly_once() {
    let mut r = Reactor::new();
    let (a, wa) = counter();
    let (_b, wb) = counter();
    insert(&mut r, 100, &wa, 0);
    fire(&mut r, 50);
    fire(&mut r, 100);
    assert_eq!(count(&a), 0);
    insert(&mut r, 500, &wb, 100);
    fire(&mut r, 101);
    assert_eq!(count(&a), 1);
    fire(&mut r, 1_000);
    fire(&mut r, 2_000);
    assert_eq!(count(&a), 1);
}

#[test]
fn removal_of_fired_or_unknown_timer_is_harmless() {
    let mut r = Reactor::new();
    let (a, wa) = counter();
    let (id, _) = insert(&mut r, 10, &wa, 0);
    assert_eq!(fire(&mut r, 11), Some(0));
    remove(&mut r, 10, id, 11);
    remove(&mut r, 99, 99, 11);
    assert_eq!(fire(&mut r, 200), None);
    assert_eq!(count(&a), 1);
}

#[test]
fn fire_twice_at_same_time_wakes_nothing_more() {
    let mut r = Reactor::new();
    let (a, wa) = counter();
    let (_b, wb) = counter();
    insert(&mut r, 5, &wa, 0);
    insert(&mut r, 60, &wb, 0);
    assert_eq!(fire(&mut r, 10), Some(0));
    assert_eq!(count(&a), 1);
    assert_eq!(fire(&mut r, 10), Some(50));
    assert_eq!(count(&a), 1);
}

#[test]
fn timers_fire_in_deadline_order() {
    let mut r = Reactor::new();
    let order = Arc::new(std::sync::Mutex::new(Vec::new()));
    struct Rec(usize, Arc<std::sync::Mutex<Vec<usize>>>);
    impl Wake for Rec {
        fn wake(self: Arc<Self>) {
            self.1.lock().unwrap().push(self.0);
        }
    }
    for (tag, when) in [(1usize, 30u64), (2, 10), (3, 20), (4, 10)] {
        let w = Waker::from(Arc::new(Rec(tag, order.clone())));
        insert(&mut r, when, &w, 0);
    }
    assert_eq!(fire(&mut r, 100), Some(0));
    assert_eq!(*order.lock().unwrap(), vec![2, 4, 3, 1]);
}

#[test]
fn full_queue_is_flushed_by_firing() {
    let mut r = Reactor::new();
    let (a, wa) = counter();
    for _ in 0..TIMER_OPS_CAPACITY {
        insert(&mut r, 10, &wa, 0);
    }
    // The event is set; the next registration finds the queue full, fires timers (none is
    // due at 5), and so sets the event anew.
    let (id, signal, woken) = r.insert_timer(10, &wa, 5);
    assert_eq!(id, TIMER_OPS_CAPACITY + 1);
    assert!(signal);
    assert!(woken.is_empty());
    assert_eq!(fire(&mut r, 11), Some(0));
    assert_eq!(count(&a), TIMER_OPS_CAPACITY + 1);
}

#[test]
fn full_queue_flush_hands_back_due_timers() {
    let mut r = Reactor::new();
    let (a, wa) = counter();
    let (b, wb) = counter();
    for _ in 0..TIMER_OPS_CAPACITY {
        insert(&mut r, 1, &wa, 0);
    }
    let (_, _, woken) = r.insert_timer(50, &wb, 5);
    assert_eq!(woken.len(), TIMER_OPS_CAPACITY);
    wake_all(woken);
    assert_eq!(count(&a), TIMER_OPS_CAPACITY);
    assert_eq!(count(&b), 0);
    assert_eq!(fire(&mut r, 5), Some(45));
}

#[test]
fn full_queue_flush_on_removal() {
    let mut r = Reactor::new();
    let (a, wa) = counter();
    let mut ids = Vec::new();
    for _ in 0..TIMER_OPS_CAPACITY {
        ids.push(insert(&mut r, 100, &wa, 0).0);
    }
    let woken = r.remove_timer(100, ids[0], 10);
    assert!(woken.is_empty());
    // The queue was flushed (the event cleared), so the next registration signals.
    assert!(insert(&mut r, 200, &wa, 10).1);
    assert_eq!(fire(&mut r, 150), Some(0));
    assert_eq!(count(&a), TIMER_OPS_CAPACITY - 1);
}

#[test]
fn insert_then_remove_cancels() {
    let mut r = Reactor::new();
    let (a, wa) = counter();
    let (id, _) = insert(&mut r, 3, &wa, 0);
    remove(&mut r, 3, id, 0);
    assert_eq!(fire(&mut r, 10), None);
    assert_eq!(count(&a), 0);
}

#[test]
fn remove_before_insert_does_not_cancel() {
    let mut r = Reactor::new();
    let (a, wa) = counter();
    // Removing the key that the next registration will get, before it is registered.
    remove(&mut r, 3, 1, 0);
    let (id, _) = insert(&mut r, 3, &wa, 0);
    assert_eq!(id, 1);
    assert_eq!(fire(&mut r, 10), Some(0));
    assert_eq!(count(&a), 1);
}

#[test]
fn react_without_blocking_does_not_wait() {
    let mut r = Reactor::new();
    let (a, wa) = counter();
    insert(&mut r, 500, &wa, 0);
    let (timeout, woken) = r.react_begin(false, 100);
    assert_eq!(timeout, Some(0));
    assert!(woken.is_empty());
    // Blocking waits until one tick past the deadline, when the timer is due.
    let (timeout, woken) = r.react_begin(true, 100);
    assert_eq!(timeout, Some(401));
    assert!(woken.is_empty());
    assert_eq!(count(&a), 0);
}

#[test]
fn react_blocking_with_due_timer_does_not_wait() {
    let mut r = Reactor::new();
    let (a, wa) = counter();
    insert(&mut r, 5, &wa, 0);
    insert(&mut r, 50, &wa, 0);
    let (timeout, woken) = r.react_begin(true, 10);
    assert_eq!(timeout, Some(0));
    assert_eq!(woken.len(), 1);
    wake_all(woken);
    assert_eq!(count(&a), 1);
}

#[test]
fn react_blocking_on_timer_at_now_waits_one_tick() {
    let mut r = Reactor::new();
    let (_a, wa) = counter();
    insert(&mut r, 10, &wa, 0);
    let (timeout, woken) = r.react_begin(true, 10);
    assert_eq!(timeout, Some(1));
    assert!(woken.is_empty());
    assert_eq!(r.react_end(0, 11).len(), 1);
}

#[test]
fn react_blocking_without_timers_waits_forever() {
    let mut r = Reactor::new();
    let (timeout, woken) = r.react_begin(true, 0);
    assert_eq!(timeout, None);
    assert!(woken.is_empty());
}

#[test]
fn react_end_fires_again_only_on_timeout() {
    let mut r = Reactor::new();
    let (a, wa) = counter();
    insert(&mut r, 20, &wa, 0);
    let (timeout, _) = r.react_begin(true, 10);
    assert_eq!(timeout, Some(11));
    assert!(r.react_end(3, 25).is_empty());
    assert_eq!(count(&a), 0);
    wake_all(r.react_end(0, 25));
    assert_eq!(count(&a), 1);
}

#[test]
fn timed_out_wait_processes_a_timer() {
    let mut r = Reactor::new();
    let (a, wa) = counter();
    insert(&mut r, 1_000, &wa, 0);
    let (timeout, woken) = r.react_begin(true, 400);
    assert!(woken.is_empty());
    let t = timeout.unwrap();
    wake_all(r.react_end(0, 400 + t));
    assert_eq!(count(&a), 1);
}
