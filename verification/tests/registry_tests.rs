use livecount::channel::{offer, poll, CHANNEL_CAPACITY};
use livecount::registry::{Applied, Registry, Request};

#[test]
fn it_works() {
    let mut reg = Registry::new();
    let h1 = reg.register(b"foo".to_vec()).unwrap();
    assert_eq!(1, h1.next(&mut reg).unwrap());
    reg.stop();
}

#[test]
fn register_twice_then_unregister() {
    let mut reg = Registry::new();

    let h1 = reg.register(b"/a".to_vec()).unwrap();
    assert_eq!(1, h1.id());
    assert_eq!(Some(1), h1.next(&mut reg));

    let h2 = reg.register(b"/a".to_vec()).unwrap();
    assert_eq!(2, h2.id());
    // The broadcast count 2 reached both members.
    assert_eq!(Some(2), h1.next(&mut reg));
    assert_eq!(Some(2), h2.next(&mut reg));

    // Unregistering one member broadcasts the shrunken count to the rest.
    h1.close(&mut reg);
    assert_eq!(Some(1), h2.next(&mut reg));
    assert_eq!(None, h2.next(&mut reg));
    assert_eq!(1, reg.total_active());

    // Unregistering the last member deletes the key's entry, so the next
    // registration restarts the count at 1 (with a fresh id).
    h2.close(&mut reg);
    assert_eq!(0, reg.total_active());
    let h3 = reg.register(b"/a".to_vec()).unwrap();
    assert_eq!(3, h3.id());
    assert_eq!(Some(1), h3.next(&mut reg));
    h3.close(&mut reg);
}

#[test]
fn distinct_keys_are_independent() {
    let mut reg = Registry::new();

    let ha = reg.register(b"/a".to_vec()).unwrap();
    let hb = reg.register(b"/b".to_vec()).unwrap();
    assert_ne!(ha.id(), hb.id());

    // Each key counts only its own members.
    assert_eq!(Some(1), ha.next(&mut reg));
    assert_eq!(Some(1), hb.next(&mut reg));

    // More members under /a are invisible to /b.
    let ha2 = reg.register(b"/a".to_vec()).unwrap();
    assert_eq!(Some(2), ha.next(&mut reg));
    assert_eq!(Some(2), ha2.next(&mut reg));
    assert_eq!(None, hb.next(&mut reg));

    // Removing a member of /a is invisible to /b as well.
    ha2.close(&mut reg);
    assert_eq!(Some(1), ha.next(&mut reg));
    assert_eq!(None, hb.next(&mut reg));

    ha.close(&mut reg);
    hb.close(&mut reg);
    assert_eq!(0, reg.total_active());
}

#[test]
fn saturated_channel_drops_only_its_own_updates() {
    let mut reg = Registry::new();
    let mut handles = Vec::new();
    for _ in 0..11 {
        handles.push(reg.register(b"/hot".to_vec()).unwrap());
    }
    let h11 = handles.pop().unwrap();
    let h2 = handles.remove(1);
    let h1 = handles.remove(0);

    // The first member's channel held counts 1..=10 and was full when the
    // eleventh registration broadcast 11: that update was dropped for it.
    for expected in 1..=10u64 {
        assert_eq!(Some(expected), h1.next(&mut reg));
    }
    assert_eq!(None, h1.next(&mut reg));

    // The second member joined at count 2 and had room for everything,
    // including the count the first member missed.
    for expected in 2..=11u64 {
        assert_eq!(Some(expected), h2.next(&mut reg));
    }
    assert_eq!(None, h2.next(&mut reg));

    // The newest member's first update is the count that included it.
    assert_eq!(Some(11), h11.next(&mut reg));

    h1.close(&mut reg);
    h2.close(&mut reg);
    // 9 members remain; the broadcasts reached the newest member.
    assert_eq!(Some(10), h11.next(&mut reg));
    assert_eq!(Some(9), h11.next(&mut reg));
    assert_eq!(9, reg.total_active());
}

#[test]
fn register_fails_once_stopped() {
    let mut reg = Registry::new();
    reg.stop();
    assert!(reg.register(b"/a".to_vec()).is_none());
    assert_eq!(0, reg.total_active());
}

#[test]
fn close_after_stop_leaves_a_stalled_entry() {
    let mut reg = Registry::new();
    let h = reg.register(b"/a".to_vec()).unwrap();
    reg.stop();
    // The control loop no longer serves the unregister request: the entry
    // stays, permanently stalled — acceptable only at process teardown.
    h.close(&mut reg);
    assert_eq!(1, reg.total_active());
}

#[test]
fn members_lists_each_subscriber_once() {
    let mut reg = Registry::new();
    let ha1 = reg.register(b"/a".to_vec()).unwrap();
    let ha2 = reg.register(b"/a".to_vec()).unwrap();
    let hb = reg.register(b"/b".to_vec()).unwrap();

    let ids = reg.members(&b"/a".to_vec());
    assert_eq!(2, ids.len());
    assert!(ids.contains(&ha1.id()));
    assert!(ids.contains(&ha2.id()));
    assert!(!ids.contains(&hb.id()));
    assert!(reg.members(&b"/b".to_vec()).contains(&hb.id()));
    assert!(reg.members(&b"/c".to_vec()).is_empty());
}

#[test]
fn apply_serves_requests_one_at_a_time() {
    let mut reg = Registry::new();
    let first = reg.apply(Request::Register { key: b"/k".to_vec() });
    let handle = match first {
        Applied::Registered { handle, count } => {
            assert_eq!(1, count);
            handle
        },
        _ => panic!("registration was refused"),
    };
    match reg.apply(Request::Unregister { handle }) {
        Applied::Unregistered { remaining } => assert_eq!(0, remaining),
        _ => panic!("unregistration was refused"),
    }
    match reg.apply(Request::Stop) {
        Applied::Stopped => {},
        _ => panic!("stop was refused"),
    }
    match reg.apply(Request::Register { key: b"/k".to_vec() }) {
        Applied::Ignored => {},
        _ => panic!("a closed loop must ignore requests"),
    }
}

#[test]
fn bounded_queue_accepts_up_to_capacity() {
    let mut q: Vec<u64> = Vec::new();
    for v in 0..CHANNEL_CAPACITY as u64 {
        assert!(offer(&mut q, v));
    }
    // Full: the next value is dropped, the queue unchanged.
    assert!(!offer(&mut q, 99));
    assert_eq!(CHANNEL_CAPACITY, q.len());

    // Drained oldest first.
    for v in 0..CHANNEL_CAPACITY as u64 {
        assert_eq!(Some(v), poll(&mut q));
    }
    assert_eq!(None, poll(&mut q));
}
