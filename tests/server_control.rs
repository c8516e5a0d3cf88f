use mini_http::server::{next_action, AcceptAction, ConnAction, ServerState, MAX_ACCEPT_FAILURES};

#[test]
fn admission_blocks_past_capacity_until_release() {
    let mut s = ServerState::new(3);
    assert!(s.try_admit());
    assert!(s.try_admit());
    assert!(s.try_admit());
    assert!(!s.try_admit());
    assert_eq!(s.active(), 3);
    s.release();
    assert!(s.try_admit());
    assert!(!s.try_admit());
}

#[test]
fn backoff_doubles_then_fails_on_64th() {
    let mut s = ServerState::new(1);
    let mut expected: u64 = 1;
    for _ in 1..MAX_ACCEPT_FAILURES {
        match s.on_accept_error() {
            AcceptAction::Retry(d) => assert_eq!(d, expected),
            AcceptAction::Fail => panic!("failed too early"),
        }
        expected = expected.wrapping_mul(2);
    }
    assert!(matches!(s.on_accept_error(), AcceptAction::Fail));
    assert!(s.is_shutdown());
    assert!(!s.try_admit());
}

#[test]
fn shutdown_waits_for_every_connection() {
    let mut s = ServerState::new(10);
    for _ in 0..4 {
        assert!(s.try_admit());
    }
    s.request_shutdown();
    assert!(s.is_shutdown());
    assert!(!s.try_admit());
    for _ in 0..3 {
        s.release();
        assert!(!s.is_stopped());
    }
    s.release();
    assert!(s.is_stopped());
}

#[test]
fn shutdown_with_no_connection_stops_at_once() {
    let mut s = ServerState::new(2);
    assert!(!s.is_shutdown());
    s.request_shutdown();
    assert!(s.is_stopped());
}

#[test]
fn connection_actions() {
    assert!(matches!(next_action(b"GET / HTTP/1.1\r\n", false), ConnAction::ReadMore));
    assert!(matches!(next_action(b"GET / HTTP/1.1\r\n", true), ConnAction::Close));
    assert!(matches!(next_action(b"", true), ConnAction::Close));
    assert!(matches!(next_action(b"GET / HTTP/1.1\r\nContent-Length: x\r\n\r\n", false), ConnAction::Close));
    match next_action(b"GET / HTTP/1.1\r\n\r\nGET", false) {
        ConnAction::Handle(_, n) => assert_eq!(n, 18),
        _ => panic!("expected a request"),
    }
}
