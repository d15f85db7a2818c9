use liveplaya::err::Error;
use liveplaya::twoway::{Mailbox, Slot};

/// A query submitted while the mailbox is at capacity answers `Busy` at
/// once, without blocking.
#[test]
fn test_full_mailbox_answers_busy() {
    let mut mb: Mailbox<u32> = Mailbox::with_capacity(2);
    mb.try_send(1).unwrap();
    mb.try_send(2).unwrap();
    assert_eq!(mb.len(), 2);
    assert!(matches!(mb.try_send(3), Err(Error::Busy)));
    assert_eq!(mb.len(), 2);
    // Draining one slot makes room again.
    assert_eq!(mb.try_recv(), Some(1));
    mb.try_send(3).unwrap();
    assert_eq!(mb.try_recv(), Some(2));
    assert_eq!(mb.try_recv(), Some(3));
    assert_eq!(mb.try_recv(), None);
}

#[test]
fn test_closed_mailbox_answers_disconnected() {
    let mut mb: Mailbox<u32> = Mailbox::with_capacity(2);
    mb.try_send(1).unwrap();
    mb.close();
    assert!(matches!(mb.try_send(2), Err(Error::Disconnected)));
    // What was already queued can still be drained.
    assert_eq!(mb.try_recv(), Some(1));
}

/// Exactly one answer is delivered per request and it can be read once.
#[test]
fn test_slot_answers_exactly_once() {
    let mut slot: Slot<&str> = Slot::new();
    assert!(matches!(slot.take(), Err(Error::TimedOut)));
    slot.respond("answer").unwrap();
    assert!(matches!(slot.respond("again"), Err(Error::Disconnected)));
    assert_eq!(slot.take().unwrap(), "answer");
    assert!(matches!(slot.take(), Err(Error::Disconnected)));
}

/// A request dropped without a response reads `Disconnected`, never
/// hangs.
#[test]
fn test_abandoned_slot_reads_disconnected() {
    let mut slot: Slot<u32> = Slot::new();
    slot.abandon();
    assert!(matches!(slot.take(), Err(Error::Disconnected)));
    assert!(matches!(slot.respond(1), Err(Error::Disconnected)));
}
