//! Verified core of a log-ingestion relay.
//!
//! Clients open a streaming session and send structured access-log records.
//! Each record is rendered to a textual payload and handed to a broker
//! publisher.  This crate holds the verified logic of that pipeline: the
//! record model, the payload codec, the per-session state machine that
//! decides how encode and publish outcomes drive the session, and the
//! server-side configuration rules.  The transport, the broker client and
//! the process plumbing live outside the crate and drive these functions.

pub mod codec;
pub mod record;
pub mod server;
pub mod session;
