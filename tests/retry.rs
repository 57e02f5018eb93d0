use fd_handoff::retry::{MAX_NONBLOCKING_POLLS, MAX_RETRY, RETRY_INTERVAL_MS};
use fd_handoff::{AcceptRetry, OsErrorKind, SendRetry, Step};

#[test]
fn connect_gives_up_after_five_retries() {
    let mut s = SendRetry::new();
    let mut waited: u64 = 0;
    let mut attempts = 0;
    let kinds = [
        OsErrorKind::NotFound,
        OsErrorKind::ConnectionRefused,
        OsErrorKind::PermissionDenied,
    ];
    loop {
        attempts += 1;
        match s.on_connect_error(kinds[attempts % 3]) {
            Step::RetryAfter(ms) => waited += ms,
            Step::GiveUp => break,
        }
    }
    assert_eq!(MAX_RETRY, 5);
    assert_eq!(attempts, 6);
    assert_eq!(waited, 5 * RETRY_INTERVAL_MS);
    assert_eq!(waited, 5000);
}

#[test]
fn connect_other_error_gives_up_at_once() {
    let mut s = SendRetry::new();
    assert_eq!(s.on_connect_error(OsErrorKind::Other), Step::GiveUp);
    assert_eq!(s.on_connect_error(OsErrorKind::WouldBlock), Step::GiveUp);
    assert_eq!(s, SendRetry { retried: 0, polls: 0 });
}

#[test]
fn connect_in_progress_polls_twenty_times() {
    let mut s = SendRetry::new();
    for _ in 0..19 {
        assert_eq!(s.on_connect_error(OsErrorKind::InProgress), Step::RetryAfter(500));
    }
    assert_eq!(s.on_connect_error(OsErrorKind::InProgress), Step::GiveUp);
    assert_eq!(MAX_NONBLOCKING_POLLS, 20);
}

#[test]
fn send_gets_its_own_poll_budget() {
    let mut s = SendRetry::new();
    for _ in 0..10 {
        assert_eq!(s.on_connect_error(OsErrorKind::InProgress), Step::RetryAfter(500));
    }
    s.on_connected();
    assert_eq!(s.polls, 0);
    for _ in 0..19 {
        assert_eq!(s.on_send_error(OsErrorKind::WouldBlock), Step::RetryAfter(500));
    }
    assert_eq!(s.on_send_error(OsErrorKind::WouldBlock), Step::GiveUp);
}

#[test]
fn send_other_error_gives_up() {
    let mut s = SendRetry::new();
    assert_eq!(s.on_send_error(OsErrorKind::ConnectionRefused), Step::GiveUp);
}

#[test]
fn accept_gives_up_after_five_retries() {
    let mut a = AcceptRetry::new();
    for _ in 0..5 {
        assert_eq!(a.on_accept_error(OsErrorKind::WouldBlock), Step::RetryAfter(1000));
    }
    assert_eq!(a.on_accept_error(OsErrorKind::WouldBlock), Step::GiveUp);
}

#[test]
fn accept_other_error_gives_up() {
    let mut a = AcceptRetry::new();
    assert_eq!(a.on_accept_error(OsErrorKind::Other), Step::GiveUp);
    assert_eq!(a.retried, 0);
}
