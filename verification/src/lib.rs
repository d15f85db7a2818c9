//! Live APRS telemetry broker core: a bounded, order-enforcing packet cache,
//! an append-only event log with replay, the request/response channel and
//! transport-session state machines, and the time arithmetic they share.
pub mod aprs;
pub mod clockpos;
pub mod err;
pub mod jsonlog;
pub mod reader;
pub mod time;
pub mod twoway;
pub mod worker;
