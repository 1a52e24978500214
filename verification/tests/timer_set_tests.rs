use smol::timer_set::TimerSet;

fn wakers_of(s: TimerSet<u32>) -> Vec<u32> {
    s.into_wakers()
}

#[test]
fn new_set_is_empty() {
    let s: TimerSet<u32> = TimerSet::new();
    assert!(s.is_empty());
    assert_eq!(s.first_key(), None);
    assert_eq!(wakers_of(s), Vec::<u32>::new());
}

#[test]
fn timers_come_out_in_firing_order() {
    let mut s = TimerSet::new();
    assert_eq!(s.insert(30, 1, 300), None);
    assert_eq!(s.insert(10, 2, 100), None);
    assert_eq!(s.insert(20, 3, 200), None);
    assert_eq!(s.insert(10, 1, 101), None);
    assert!(!s.is_empty());
    assert_eq!(s.first_key(), Some((10, 1)));
    assert_eq!(wakers_of(s), vec![101, 100, 200, 300]);
}

#[test]
fn same_deadline_is_ordered_by_id() {
    let mut s = TimerSet::new();
    s.insert(5, 9, 9);
    s.insert(5, 3, 3);
    s.insert(5, 7, 7);
    assert_eq!(s.first_key(), Some((5, 3)));
    assert_eq!(wakers_of(s), vec![3, 7, 9]);
}

#[test]
fn insert_existing_key_replaces_waker() {
    let mut s = TimerSet::new();
    assert_eq!(s.insert(4, 1, 40), None);
    assert_eq!(s.insert(4, 1, 41), Some(40));
    assert_eq!(wakers_of(s), vec![41]);
}

#[test]
fn remove_present_and_absent() {
    let mut s = TimerSet::new();
    s.insert(1, 1, 11);
    s.insert(2, 2, 22);
    assert_eq!(s.remove(1, 1), Some(11));
    assert_eq!(s.remove(1, 1), None);
    assert_eq!(s.remove(2, 3), None);
    assert_eq!(s.first_key(), Some((2, 2)));
    assert_eq!(s.remove(2, 2), Some(22));
    assert!(s.is_empty());
}

#[test]
fn insert_then_remove_restores_set() {
    let mut s = TimerSet::new();
    s.insert(3, 1, 31);
    s.insert(8, 2, 82);
    s.insert(5, 7, 57);
    assert_eq!(s.remove(5, 7), Some(57));
    assert_eq!(wakers_of(s), vec![31, 82]);
}

#[test]
fn split_off_keeps_earlier_timers() {
    let mut s = TimerSet::new();
    for (when, id) in [(1u64, 1usize), (2, 0), (2, 5), (3, 2), (9, 1)] {
        s.insert(when, id, (when as u32) * 10 + id as u32);
    }
    let tail = s.split_off(2, 5);
    assert_eq!(tail.first_key(), Some((2, 5)));
    assert_eq!(s.first_key(), Some((1, 1)));
    assert_eq!(wakers_of(tail), vec![25, 32, 91]);
    assert_eq!(wakers_of(s), vec![11, 20]);
}

#[test]
fn split_off_at_deadline_with_id_zero() {
    let mut s = TimerSet::new();
    s.insert(4, 0, 40);
    s.insert(3, 9, 39);
    s.insert(5, 1, 51);
    let pending = s.split_off(4, 0);
    assert_eq!(wakers_of(s), vec![39]);
    assert_eq!(wakers_of(pending), vec![40, 51]);
}

#[test]
fn split_off_before_all_and_after_all() {
    let mut s = TimerSet::new();
    s.insert(4, 1, 41);
    s.insert(6, 1, 61);
    let all = s.split_off(0, 0);
    assert!(s.is_empty());
    let mut all = all;
    let none = all.split_off(100, 0);
    assert!(none.is_empty());
    assert_eq!(wakers_of(all), vec![41, 61]);
}

#[test]
fn many_inserts_stay_sorted() {
    let mut s = TimerSet::new();
    let mut expect = Vec::new();
    for i in 0..200u32 {
        let when = ((i * 37) % 101) as u64;
        s.insert(when, i as usize, i);
        expect.push((when, i as usize, i));
    }
    expect.sort();
    let got = wakers_of(s);
    let want: Vec<u32> = expect.iter().map(|e| e.2).collect();
    assert_eq!(got, want);
}
