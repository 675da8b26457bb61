//! Read-only subscriber client for an append-only message channel.
//!
//! The library holds the verified core: the payload codec, the channel
//! session state machine, and the incremental-delivery reporter. The
//! network transport itself is driven by the surrounding application,
//! which feeds its outcomes into the session as plain values.

pub mod codec;
pub mod config;
pub mod report;
pub mod session;
