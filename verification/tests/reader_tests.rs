use liveplaya::reader::{classify_line, step, LineClass, ReaderAction, ReaderEvent, ReaderState};

/// Cancellation during the backoff delay exits at once, not after the
/// delay elapses.
#[test]
fn test_cancel_during_backoff_exits_immediately() {
    let (st, act) = step(ReaderState::Backoff, ReaderEvent::Cancelled, true);
    assert_eq!(st, ReaderState::Stopped);
    assert!(matches!(act, ReaderAction::Exit));
}

#[test]
fn test_cancel_exits_from_every_state() {
    for st in [
        ReaderState::Idle,
        ReaderState::Connecting,
        ReaderState::Handshaking,
        ReaderState::Streaming,
        ReaderState::Backoff,
    ] {
        let (next, act) = step(st, ReaderEvent::Cancelled, false);
        assert_eq!(next, ReaderState::Stopped);
        assert!(matches!(act, ReaderAction::Exit));
    }
}

#[test]
fn test_network_session_shape() {
    let (st, act) = step(ReaderState::Idle, ReaderEvent::Start, true);
    assert_eq!(st, ReaderState::Connecting);
    assert!(matches!(act, ReaderAction::OpenConnection));
    let (st, act) = step(st, ReaderEvent::ConnectOk, true);
    assert_eq!(st, ReaderState::Handshaking);
    assert!(matches!(act, ReaderAction::SendHandshake));
    let (st, act) = step(st, ReaderEvent::HandshakeOk, true);
    assert_eq!(st, ReaderState::Streaming);
    assert!(matches!(act, ReaderAction::ReadLine));
    let (st, act) = step(
        st,
        ReaderEvent::LineReceived("A>APRS:!4040.00N/11920.00W>".to_string()),
        true,
    );
    assert_eq!(st, ReaderState::Streaming);
    assert!(matches!(act, ReaderAction::ForwardLine(l) if l == "A>APRS:!4040.00N/11920.00W>"));
    let (st, act) = step(st, ReaderEvent::StreamBroken, true);
    assert_eq!(st, ReaderState::Backoff);
    assert!(matches!(act, ReaderAction::SleepBackoff));
    let (st, act) = step(st, ReaderEvent::BackoffElapsed, true);
    assert_eq!(st, ReaderState::Connecting);
    assert!(matches!(act, ReaderAction::OpenConnection));
}

#[test]
fn test_serial_session_has_no_handshake() {
    let (st, act) = step(ReaderState::Connecting, ReaderEvent::ConnectOk, false);
    assert_eq!(st, ReaderState::Streaming);
    assert!(matches!(act, ReaderAction::ReadLine));
}

#[test]
fn test_line_classification() {
    assert_eq!(classify_line(""), LineClass::Blank);
    assert_eq!(classify_line("   \t  "), LineClass::Blank);
    assert_eq!(classify_line("# aprsc 2.1.10"), LineClass::Comment);
    assert_eq!(
        classify_line("# Login by user not allowed"),
        LineClass::Rejection
    );
    assert_eq!(
        classify_line("A>APRS:!4040.00N/11920.00W>"),
        LineClass::Payload
    );
}

/// The provider's rejection line ends the session, not the process: the
/// reader falls through to backoff.
#[test]
fn test_rejection_line_is_session_fatal() {
    let (st, act) = step(
        ReaderState::Streaming,
        ReaderEvent::LineReceived("# Login by user not allowed".to_string()),
        true,
    );
    assert_eq!(st, ReaderState::Backoff);
    assert!(matches!(act, ReaderAction::SleepBackoff));
    // A plain comment is discarded and streaming goes on.
    let (st, act) = step(
        ReaderState::Streaming,
        ReaderEvent::LineReceived("# comment".to_string()),
        true,
    );
    assert_eq!(st, ReaderState::Streaming);
    assert!(matches!(act, ReaderAction::ReadLine));
}
