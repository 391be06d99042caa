use livecount::registry::Registry;
use livecount::session::{
    extract_key, origin_matches, Action, Event, FrameKind, SendOutcome, Session, SessionState,
    MAX_LIFE_SECS, SEND_TIMEOUT_SECS,
};

fn active_session() -> Session {
    let mut s = Session::new();
    assert!(matches!(s.step(Event::Connected), Action::Stay));
    assert!(matches!(s.step(Event::Registered), Action::Stay));
    assert!(matches!(s.state, SessionState::Active));
    s
}

#[test]
fn timeout_drains_then_closes_the_handle() {
    let mut s = active_session();

    // No ping, no pong, no frame: the max-life timer fires.
    assert!(matches!(s.step(Event::TimerFired), Action::Stay));
    assert!(matches!(s.state, SessionState::Draining));
    assert_eq!(1, s.timeouts);

    // Draining has one job: close the handle; then the session is over.
    assert!(matches!(s.step(Event::UpdateIdle), Action::CloseHandle));
    assert!(matches!(s.state, SessionState::Closed));
    assert!(matches!(s.step(Event::TimerFired), Action::Stay));
    assert!(matches!(s.state, SessionState::Closed));
    assert_eq!(1, s.timeouts);
}

#[test]
fn timed_out_session_is_removed_from_the_directory() {
    // The session loop around a real connection: registry on one side,
    // state machine on the other. The idle timer fires, the machine drains,
    // and the drain step's CloseHandle removes the subscriber even though
    // no close frame ever arrived.
    let mut reg = Registry::new();
    let keeper = reg.register(b"/page".to_vec()).unwrap();
    let handle = reg.register(b"/page".to_vec()).unwrap();
    let mut s = active_session();

    assert!(matches!(s.step(Event::TimerFired), Action::Stay));
    let action = s.step(Event::UpdateIdle);
    assert!(matches!(action, Action::CloseHandle));
    handle.close(&mut reg);

    assert_eq!(1, reg.total_active());
    // The remaining member was told it is alone again.
    assert_eq!(Some(1), keeper.next(&mut reg));
    assert_eq!(Some(2), keeper.next(&mut reg));
    assert_eq!(Some(1), keeper.next(&mut reg));
    assert_eq!(None, keeper.next(&mut reg));
}

#[test]
fn ping_and_pong_extend_the_deadline() {
    let mut s = active_session();
    assert!(matches!(s.step(Event::Frame { kind: FrameKind::Ping }), Action::ExtendDeadline));
    assert!(matches!(s.state, SessionState::Active));
    assert!(matches!(s.step(Event::Frame { kind: FrameKind::Pong }), Action::ExtendDeadline));
    assert!(matches!(s.state, SessionState::Active));
    assert_eq!(0, s.timeouts);
}

#[test]
fn data_frames_are_accepted_and_ignored() {
    let mut s = active_session();
    assert!(matches!(s.step(Event::Frame { kind: FrameKind::Text }), Action::Stay));
    assert!(matches!(s.step(Event::Frame { kind: FrameKind::Binary }), Action::Stay));
    // An unrecognized type is an anomaly, logged but never fatal.
    assert!(matches!(s.step(Event::Frame { kind: FrameKind::Unknown }), Action::Stay));
    assert!(matches!(s.state, SessionState::Active));
}

#[test]
fn close_frame_and_transport_failures_drain() {
    let mut s = active_session();
    assert!(matches!(s.step(Event::Frame { kind: FrameKind::CloseFrame }), Action::Stay));
    assert!(matches!(s.state, SessionState::Draining));

    let mut s = active_session();
    assert!(matches!(s.step(Event::StreamEnded), Action::Stay));
    assert!(matches!(s.state, SessionState::Draining));

    let mut s = active_session();
    assert!(matches!(s.step(Event::ReadError), Action::Stay));
    assert!(matches!(s.state, SessionState::Draining));
}

#[test]
fn updates_are_sent_and_outcomes_tallied() {
    let mut s = active_session();
    match s.step(Event::Update { value: 7 }) {
        Action::Send { value } => assert_eq!(7, value),
        _ => panic!("an update must be sent to the client"),
    }
    assert!(matches!(s.step(Event::Sent { outcome: SendOutcome::Delivered }), Action::Stay));
    assert!(matches!(s.state, SessionState::Active));
    assert_eq!(1, s.sent_ok);

    // A send timeout means the connection is broken: drain.
    assert!(matches!(s.step(Event::Sent { outcome: SendOutcome::TimedOut }), Action::Stay));
    assert!(matches!(s.state, SessionState::Draining));
    assert_eq!(1, s.send_failures);

    let mut s = active_session();
    assert!(matches!(s.step(Event::Sent { outcome: SendOutcome::Failed }), Action::Stay));
    assert!(matches!(s.state, SessionState::Draining));
    assert_eq!(1, s.send_failures);

    // An empty delivery channel is no event worth acting on.
    let mut s = active_session();
    assert!(matches!(s.step(Event::UpdateIdle), Action::Stay));
    assert!(matches!(s.state, SessionState::Active));
}

#[test]
fn failed_registration_closes_without_draining() {
    let mut s = Session::new();
    assert!(matches!(s.step(Event::Connected), Action::Stay));
    assert!(matches!(s.state, SessionState::Registering));
    // No handle was ever issued, so nothing asks for CloseHandle.
    assert!(matches!(s.step(Event::RegisterFailed), Action::Stay));
    assert!(matches!(s.state, SessionState::Closed));
}

#[test]
fn key_is_truncated_at_the_first_question_mark() {
    assert_eq!(b"/a".to_vec(), extract_key(&b"/a?x=1".to_vec()));
    assert_eq!(b"/a".to_vec(), extract_key(&b"/a".to_vec()));
    assert_eq!(b"".to_vec(), extract_key(&b"?x".to_vec()));
    assert_eq!(b"".to_vec(), extract_key(&b"".to_vec()));
    assert_eq!(b"/p".to_vec(), extract_key(&b"/p??".to_vec()));
}

#[test]
fn origin_check_wants_origin_then_slash() {
    assert!(origin_matches(&b"https://e.org/p".to_vec(), &b"https://e.org".to_vec()));
    assert!(!origin_matches(&b"https://e.org/p".to_vec(), &b"https://x.org".to_vec()));
    // The origin alone, without a path, is not a page of the origin.
    assert!(!origin_matches(&b"https://e.org".to_vec(), &b"https://e.org".to_vec()));
    assert!(!origin_matches(&b"https://e.orgX/p".to_vec(), &b"https://e.org".to_vec()));
}

#[test]
fn timing_constants_match_the_policy() {
    assert_eq!(600, MAX_LIFE_SECS);
    assert_eq!(5, SEND_TIMEOUT_SECS);
}
