use smol::async_handle::Async;

#[test]
fn handle_is_reachable_after_creation() {
    let a = Async::new(vec![1u8, 2, 3]);
    assert_eq!(a.get_ref(), &vec![1u8, 2, 3]);
}

#[test]
fn handle_can_be_changed_in_place() {
    let mut a = Async::new(String::from("sock"));
    a.get_mut().push_str("et");
    assert_eq!(a.get_ref(), "socket");
}

#[test]
fn into_inner_returns_the_handle() {
    let mut a = Async::new(7u32);
    *a.get_mut() += 1;
    assert_eq!(a.into_inner(), 8);
}

#[test]
fn handle_is_held_through_every_access() {
    let mut a = Async::new(vec![0u8]);
    for i in 1..10u8 {
        a.get_mut().push(i);
        assert_eq!(a.get_ref().len(), i as usize + 1);
    }
    assert_eq!(a.into_inner().len(), 10);
}
