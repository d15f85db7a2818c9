//! The transport reader session: one state machine per transport, of
//! identical shape for the network feed and the serial device.  The
//! surrounding task performs the I/O an action names and feeds the
//! outcome back in as the next event; cancellation exits from any state
//! at once — a reader sleeping through its backoff delay included.
use vstd::prelude::*;
use crate::clockpos::is_space;

verus! {

/// Where a reader session stands.
#[derive(Debug, Clone, Copy, PartialEq, Eq, Structural)]
pub enum ReaderState {
    /// Not started yet.
    Idle,
    /// Opening the connection, under the connect deadline.
    Connecting,
    /// Sending the login/filter line, network feed only.
    Handshaking,
    /// Reading lines, under the staleness deadline.
    Streaming,
    /// Waiting out the delay before the next attempt.
    Backoff,
    /// Finished for good; only cancellation leads here.
    Stopped,
}

/// What happened since the last step.
#[derive(Debug)]
pub enum ReaderEvent {
    /// The supervisor started the reader.
    Start,
    /// The shared shutdown signal fired.
    Cancelled,
    /// The connection opened.
    ConnectOk,
    /// The connection failed or timed out.
    ConnectFailed,
    /// The handshake line was written.
    HandshakeOk,
    /// The handshake write failed or timed out.
    HandshakeFailed,
    /// A line arrived.
    LineReceived(String),
    /// Nothing arrived within the staleness deadline, the stream ended,
    /// or the read failed.
    StreamBroken,
    /// The backoff delay elapsed.
    BackoffElapsed,
}

/// What the surrounding task must do next.
#[derive(Debug)]
pub enum ReaderAction {
    /// Open the connection, with the connect deadline.
    OpenConnection,
    /// Write the login/filter line, with the connect deadline.
    SendHandshake,
    /// Read the next line, with the staleness deadline.
    ReadLine,
    /// Forward this line, with the capture time, onto the ingestion
    /// channel; drop it if the channel is saturated.
    ForwardLine(String),
    /// Sleep the backoff delay, interruptibly.
    SleepBackoff,
    /// Exit the session loop.
    Exit,
    /// Nothing; the event did not belong to the current state.
    Ignore,
}

/// How one received line is treated.
#[derive(Debug, Clone, Copy, PartialEq, Eq, Structural)]
pub enum LineClass {
    /// Only whitespace: discarded.
    Blank,
    /// A `#` server comment: discarded.
    Comment,
    /// The provider's login rejection: fatal to the session.
    Rejection,
    /// Payload to forward.
    Payload,
}

/// The login rejection line prefix the network feed sends.
pub open spec fn rejection_prefix() -> Seq<char> {
    seq![
        '#', ' ', 'L', 'o', 'g', 'i', 'n', ' ', 'b', 'y', ' ', 'u', 's', 'e', 'r', ' ', 'n',
        'o', 't', ' ', 'a', 'l', 'l', 'o', 'w', 'e', 'd',
    ]
}

/// The class of a received line: blank before comment, and the
/// rejection prefix decides before the plain comment rule.
pub open spec fn classify_spec(l: Seq<char>) -> LineClass {
    if forall|i: int| 0 <= i < l.len() ==> is_space(#[trigger] l[i]) {
        LineClass::Blank
    } else if l.len() >= rejection_prefix().len() && l.subrange(0, rejection_prefix().len() as int)
        == rejection_prefix() {
        LineClass::Rejection
    } else if l[0] == '#' {
        LineClass::Comment
    } else {
        LineClass::Payload
    }
}

/// The full transition table.  `with_handshake` is true for the network
/// feed, which logs in before streaming; the serial device does not.
pub open spec fn step_spec(st: ReaderState, ev: ReaderEvent, with_handshake: bool) -> (
    ReaderState,
    ReaderAction,
) {
    match ev {
        ReaderEvent::Cancelled => (ReaderState::Stopped, ReaderAction::Exit),
        ReaderEvent::Start => match st {
            ReaderState::Idle => (ReaderState::Connecting, ReaderAction::OpenConnection),
            _ => (st, ReaderAction::Ignore),
        },
        ReaderEvent::ConnectOk => match st {
            ReaderState::Connecting => if with_handshake {
                (ReaderState::Handshaking, ReaderAction::SendHandshake)
            } else {
                (ReaderState::Streaming, ReaderAction::ReadLine)
            },
            _ => (st, ReaderAction::Ignore),
        },
        ReaderEvent::ConnectFailed => match st {
            ReaderState::Connecting => (ReaderState::Backoff, ReaderAction::SleepBackoff),
            _ => (st, ReaderAction::Ignore),
        },
        ReaderEvent::HandshakeOk => match st {
            ReaderState::Handshaking => (ReaderState::Streaming, ReaderAction::ReadLine),
            _ => (st, ReaderAction::Ignore),
        },
        ReaderEvent::HandshakeFailed => match st {
            ReaderState::Handshaking => (ReaderState::Backoff, ReaderAction::SleepBackoff),
            _ => (st, ReaderAction::Ignore),
        },
        ReaderEvent::LineReceived(l) => match st {
            ReaderState::Streaming => match classify_spec(l@) {
                LineClass::Blank => (ReaderState::Streaming, ReaderAction::ReadLine),
                LineClass::Comment => (ReaderState::Streaming, ReaderAction::ReadLine),
                LineClass::Rejection => (ReaderState::Backoff, ReaderAction::SleepBackoff),
                LineClass::Payload => (ReaderState::Streaming, ReaderAction::ForwardLine(l)),
            },
            _ => (st, ReaderAction::Ignore),
        },
        ReaderEvent::StreamBroken => match st {
            ReaderState::Streaming => (ReaderState::Backoff, ReaderAction::SleepBackoff),
            _ => (st, ReaderAction::Ignore),
        },
        ReaderEvent::BackoffElapsed => match st {
            ReaderState::Backoff => (ReaderState::Connecting, ReaderAction::OpenConnection),
            _ => (st, ReaderAction::Ignore),
        },
    }
}

/// Classifies one received line.
pub fn classify_line(l: &str) -> (r: LineClass)
    ensures
        r == classify_spec(l@),
{
    let n = l.unicode_len();
    let mut i: usize = 0;
    loop
        invariant
            i <= n == l@.len(),
            forall|j: int| 0 <= j < i ==> is_space(#[trigger] l@[j]),
        ensures
            i <= n,
            i == n || !is_space(l@[i as int]),
            forall|j: int| 0 <= j < i ==> is_space(#[trigger] l@[j]),
        decreases n - i,
    {
        if i >= n {
            break ;
        }
        let c = l.get_char(i);
        if c == ' ' || c == '\t' || c == '\n' || c == '\r' {
            i = i + 1;
        } else {
            break ;
        }
    }
    if i == n {
        return LineClass::Blank;
    }
    proof {
        assert(!is_space(l@[i as int]));
    }
    if has_rejection_prefix(l) {
        return LineClass::Rejection;
    }
    if l.get_char(0) == '#' {
        return LineClass::Comment;
    }
    LineClass::Payload
}

/// Whether the line opens with the provider's login rejection.
fn has_rejection_prefix(l: &str) -> (r: bool)
    ensures
        r == (l@.len() >= rejection_prefix().len() && l@.subrange(
            0,
            rejection_prefix().len() as int,
        ) == rejection_prefix()),
{
    let n = l.unicode_len();
    if n < 27 {
        return false;
    }
    let r = l.get_char(0) == '#' && l.get_char(1) == ' ' && l.get_char(2) == 'L' && l.get_char(3)
        == 'o' && l.get_char(4) == 'g' && l.get_char(5) == 'i' && l.get_char(6) == 'n'
        && l.get_char(7) == ' ' && l.get_char(8) == 'b' && l.get_char(9) == 'y' && l.get_char(10)
        == ' ' && l.get_char(11) == 'u' && l.get_char(12) == 's' && l.get_char(13) == 'e'
        && l.get_char(14) == 'r' && l.get_char(15) == ' ' && l.get_char(16) == 'n' && l.get_char(
        17,
    ) == 'o' && l.get_char(18) == 't' && l.get_char(19) == ' ' && l.get_char(20) == 'a'
        && l.get_char(21) == 'l' && l.get_char(22) == 'l' && l.get_char(23) == 'o' && l.get_char(
        24,
    ) == 'w' && l.get_char(25) == 'e' && l.get_char(26) == 'd';
    proof {
        if r {
            assert(l@.subrange(0, 27) =~= rejection_prefix());
        } else {
            assert(l@.subrange(0, 27) != rejection_prefix()) by {
                if l@.subrange(0, 27) == rejection_prefix() {
                    assert(l@[0] == '#' && l@[1] == ' ' && l@[2] == 'L' && l@[3] == 'o' && l@[4]
                        == 'g' && l@[5] == 'i' && l@[6] == 'n' && l@[7] == ' ' && l@[8] == 'b'
                        && l@[9] == 'y' && l@[10] == ' ' && l@[11] == 'u' && l@[12] == 's' && l@[13]
                        == 'e' && l@[14] == 'r' && l@[15] == ' ' && l@[16] == 'n' && l@[17] == 'o'
                        && l@[18] == 't' && l@[19] == ' ' && l@[20] == 'a' && l@[21] == 'l'
                        && l@[22] == 'l' && l@[23] == 'o' && l@[24] == 'w' && l@[25] == 'e'
                        && l@[26] == 'd');
                }
            }
        }
    }
    r
}

/// Runs one step of the session state machine.
pub fn step(st: ReaderState, ev: ReaderEvent, with_handshake: bool) -> (r: (
    ReaderState,
    ReaderAction,
))
    ensures
        r == step_spec(st, ev, with_handshake),
{
    match ev {
        ReaderEvent::Cancelled => (ReaderState::Stopped, ReaderAction::Exit),
        ReaderEvent::Start => match st {
            ReaderState::Idle => (ReaderState::Connecting, ReaderAction::OpenConnection),
            _ => (st, ReaderAction::Ignore),
        },
        ReaderEvent::ConnectOk => match st {
            ReaderState::Connecting => if with_handshake {
                (ReaderState::Handshaking, ReaderAction::SendHandshake)
            } else {
                (ReaderState::Streaming, ReaderAction::ReadLine)
            },
            _ => (st, ReaderAction::Ignore),
        },
        ReaderEvent::ConnectFailed => match st {
            ReaderState::Connecting => (ReaderState::Backoff, ReaderAction::SleepBackoff),
            _ => (st, ReaderAction::Ignore),
        },
        ReaderEvent::HandshakeOk => match st {
            ReaderState::Handshaking => (ReaderState::Streaming, ReaderAction::ReadLine),
            _ => (st, ReaderAction::Ignore),
        },
        ReaderEvent::HandshakeFailed => match st {
            ReaderState::Handshaking => (ReaderState::Backoff, ReaderAction::SleepBackoff),
            _ => (st, ReaderAction::Ignore),
        },
        ReaderEvent::LineReceived(l) => match st {
            ReaderState::Streaming => match classify_line(l.as_str()) {
                LineClass::Blank => (ReaderState::Streaming, ReaderAction::ReadLine),
                LineClass::Comment => (ReaderState::Streaming, ReaderAction::ReadLine),
                LineClass::Rejection => (ReaderState::Backoff, ReaderAction::SleepBackoff),
                LineClass::Payload => (ReaderState::Streaming, ReaderAction::ForwardLine(l)),
            },
            _ => (st, ReaderAction::Ignore),
        },
        ReaderEvent::StreamBroken => match st {
            ReaderState::Streaming => (ReaderState::Backoff, ReaderAction::SleepBackoff),
            _ => (st, ReaderAction::Ignore),
        },
        ReaderEvent::BackoffElapsed => match st {
            ReaderState::Backoff => (ReaderState::Connecting, ReaderAction::OpenConnection),
            _ => (st, ReaderAction::Ignore),
        },
    }
}

/// Cancellation ends the session at once from every state — a reader
/// sleeping out its backoff delay included.
pub proof fn lemma_cancel_exits(st: ReaderState, with_handshake: bool)
    ensures
        step_spec(st, ReaderEvent::Cancelled, with_handshake).0 is Stopped,
        step_spec(st, ReaderEvent::Cancelled, with_handshake).1 is Exit,
{
}

} // verus!
