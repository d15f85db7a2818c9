//! The request/response channel: a bounded mailbox of pending requests
//! and a single-use answer slot per request.  Enqueueing never blocks: a
//! full mailbox answers `Busy` at once, a closed one `Disconnected`; a
//! request abandoned without an answer reads `Disconnected`, never hangs.
use vstd::prelude::*;
use crate::err::{Error, Result};

verus! {

/// A bounded first-in-first-out mailbox.
pub struct Mailbox<T> {
    cap: usize,
    queue: Vec<T>,
    closed: bool,
}

impl<T> Mailbox<T> {
    pub closed spec fn cap_spec(self) -> int {
        self.cap as int
    }

    pub closed spec fn queue_seq(self) -> Seq<T> {
        self.queue@
    }

    pub closed spec fn is_closed(self) -> bool {
        self.closed
    }

    /// The queue never outgrows the capacity fixed at creation.
    pub open spec fn wf(self) -> bool {
        1 <= self.cap_spec() && self.queue_seq().len() <= self.cap_spec()
    }

    /// An open, empty mailbox of the given capacity.
    pub fn with_capacity(cap: usize) -> (r: Mailbox<T>)
        requires
            cap >= 1,
        ensures
            r.wf(),
            r.cap_spec() == cap,
            r.queue_seq().len() == 0,
            !r.is_closed(),
    {
        Mailbox { cap, queue: Vec::new(), closed: false }
    }

    pub fn len(&self) -> (r: usize)
        ensures
            r == self.queue_seq().len(),
    {
        self.queue.len()
    }

    /// Enqueues without ever blocking: `Busy` exactly when the mailbox
    /// is open but full, `Disconnected` exactly when it is closed.
    pub fn try_send(&mut self, v: T) -> (r: Result<()>)
        requires
            old(self).wf(),
        ensures
            final(self).wf(),
            old(self).is_closed() ==> (r matches Err(e) && e is Disconnected) && *final(self)
                == *old(self),
            !old(self).is_closed() && old(self).queue_seq().len() == old(self).cap_spec() ==> (
            r matches Err(e) && e is Busy) && *final(self) == *old(self),
            !old(self).is_closed() && old(self).queue_seq().len() < old(self).cap_spec() ==> r
                is Ok && final(self).queue_seq() == old(self).queue_seq().push(v)
                && final(self).cap_spec() == old(self).cap_spec() && !final(self).is_closed(),
    {
        if self.closed {
            return Err(Error::Disconnected);
        }
        if self.queue.len() >= self.cap {
            return Err(Error::Busy);
        }
        self.queue.push(v);
        Ok(())
    }

    /// Takes the oldest pending request, if any.
    pub fn try_recv(&mut self) -> (r: Option<T>)
        requires
            old(self).wf(),
        ensures
            final(self).wf(),
            old(self).queue_seq().len() == 0 ==> r is None && *final(self) == *old(self),
            old(self).queue_seq().len() > 0 ==> (r matches Some(v)
                && v == old(self).queue_seq()[0])
                && final(self).queue_seq() == old(self).queue_seq().subrange(
                1,
                old(self).queue_seq().len() as int,
            ) && final(self).cap_spec() == old(self).cap_spec()
                && final(self).is_closed() == old(self).is_closed(),
    {
        if self.queue.len() == 0 {
            return None;
        }
        let v = self.queue.remove(0);
        proof {
            assert(self.queue@ =~= old(self).queue@.subrange(1, old(self).queue@.len() as int));
        }
        Some(v)
    }

    /// Closes the mailbox; senders see `Disconnected` from here on.
    pub fn close(&mut self)
        requires
            old(self).wf(),
        ensures
            final(self).wf(),
            final(self).is_closed(),
            final(self).queue_seq() == old(self).queue_seq(),
            final(self).cap_spec() == old(self).cap_spec(),
    {
        self.closed = true;
    }
}

/// The state of a single-use answer slot.
pub enum SlotState<T> {
    /// The caller is waiting and the owner has not answered yet.
    Waiting,
    /// The owner answered; the caller has not read it yet.
    Answered(T),
    /// The caller took the answer.
    Taken,
    /// The owner dropped the request without answering.
    Abandoned,
}

/// A single-use answer slot carried with a request: answered exactly
/// once, read exactly once, and readable as `Disconnected` when the
/// owner walks away.
pub struct Slot<T> {
    state: SlotState<T>,
}

impl<T> Slot<T> {
    pub closed spec fn state_spec(self) -> SlotState<T> {
        self.state
    }

    /// A fresh slot with its caller waiting.
    pub fn new() -> (r: Slot<T>)
        ensures
            r.state_spec() is Waiting,
    {
        Slot { state: SlotState::Waiting }
    }

    /// Delivers the answer.  Succeeds exactly once: only while the
    /// caller is still waiting.
    pub fn respond(&mut self, v: T) -> (r: Result<()>)
        ensures
            old(self).state_spec() is Waiting ==> r is Ok && (final(self).state_spec()
                matches SlotState::Answered(a) && a == v),
            !(old(self).state_spec() is Waiting) ==> (r matches Err(e) && e is Disconnected)
                && *final(self) == *old(self),
    {
        match &self.state {
            SlotState::Waiting => {
                self.state = SlotState::Answered(v);
                Ok(())
            },
            _ => Err(Error::Disconnected),
        }
    }

    /// Reads the answer, once: `TimedOut` while none has arrived yet,
    /// `Disconnected` when the owner abandoned the request or the
    /// answer was already taken — the caller never hangs.
    pub fn take(&mut self) -> (r: Result<T>)
        ensures
            (old(self).state_spec() matches SlotState::Answered(v) ==> (r matches Ok(a) && a == v)
                && final(self).state_spec() is Taken),
            old(self).state_spec() is Waiting ==> (r matches Err(e) && e is TimedOut)
                && *final(self) == *old(self),
            old(self).state_spec() is Abandoned || old(self).state_spec() is Taken ==> (r
                matches Err(e) && e is Disconnected) && *final(self) == *old(self),
    {
        let mut prev = SlotState::Taken;
        core::mem::swap(&mut prev, &mut self.state);
        match prev {
            SlotState::Answered(v) => Ok(v),
            SlotState::Waiting => {
                self.state = SlotState::Waiting;
                Err(Error::TimedOut)
            },
            SlotState::Taken => {
                Err(Error::Disconnected)
            },
            SlotState::Abandoned => {
                self.state = SlotState::Abandoned;
                Err(Error::Disconnected)
            },
        }
    }

    /// Walks away without answering; a waiting caller will read
    /// `Disconnected`.
    pub fn abandon(&mut self)
        ensures
            old(self).state_spec() is Waiting ==> final(self).state_spec() is Abandoned,
            !(old(self).state_spec() is Waiting) ==> *final(self) == *old(self),
    {
        match &self.state {
            SlotState::Waiting => {
                self.state = SlotState::Abandoned;
            },
            _ => {},
        }
    }
}

} // verus!
