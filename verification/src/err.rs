//! Error taxonomy shared by the cache, the event log, the channels and the
//! transport sessions.
use vstd::prelude::*;

verus! {

/// Every failure the core can report.  Transport and persistence problems
/// carry a human-readable message; structured failures carry their data.
#[derive(Debug, Clone)]
pub enum Error {
    /// A clock position outside the 12-hour dial.
    BadClock(u16, u16),
    /// A calendar or offset component outside its valid range.
    TimeOutOfRange(String),
    /// A packet that the APRS grammar rejects, with the offending text.
    AprsParse { what: String, why: String },
    /// An insertion whose timestamp precedes the newest accepted entry.
    AprsOrder { new_ts: String, last_ts: String },
    /// Arithmetic that would leave the representable timestamp range.
    OutOfRange { msg: String },
    /// An operation that outlived its deadline.
    TimedOut,
    /// A channel whose other side is gone.
    Disconnected,
    /// A bounded mailbox that is full right now.
    Busy,
    /// The shared shutdown signal fired.
    Cancelled,
    /// An I/O failure reported by the surrounding runtime.
    IOError(String),
    /// Anything else, described in prose.
    Other(String),
}

pub type Result<T> = core::result::Result<T, Error>;

impl Error {
    /// Wraps a plain message.
    pub fn msg(v: &str) -> (r: Error)
        ensures
            r matches Error::Other(s) && s@ == v@,
    {
        Error::Other(v.to_owned())
    }
}

} // verus!

