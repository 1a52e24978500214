use smol::io_event::IoEvent;

#[test]
fn new_event_is_clear() {
    let mut e = IoEvent::new();
    assert!(!e.clear());
}

#[test]
fn notify_signals_once_per_round() {
    let mut e = IoEvent::new();
    assert!(e.notify());
    assert!(!e.notify());
    assert!(!e.notify());
}

#[test]
fn clear_sees_notification_once() {
    let mut e = IoEvent::new();
    e.notify();
    assert!(e.clear());
    assert!(!e.clear());
}

#[test]
fn notify_after_clear_signals_again() {
    let mut e = IoEvent::new();
    assert!(e.notify());
    assert!(e.clear());
    assert!(e.notify());
    assert!(!e.notify());
}
