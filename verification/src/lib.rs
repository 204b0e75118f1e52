//! Verified core of an event-forwarding chat server.
//!
//! An _event source_ sends numbered events; the server applies them strictly
//! in sequence to the chat state (followers, blocks) and forwards each one to
//! the user clients that must receive it, keeping messages for users that are
//! not connected yet.
use vstd::prelude::*;

pub mod clients_processing;
pub mod event;
pub mod misc;
pub mod number;
pub mod sequenced_queue;
pub mod server;
pub mod user;

pub use event::Event;

verus! {

/// Number of events the event source sends in one run.
pub const TOTAL_EVENTS: u32 = 100000;

/// How long a client connection waits for its last messages once all events
/// have been processed.
pub const CLIENT_RECEIVER_TIMEOUT_MILLIS: u64 = 10;

/// The progress of the event source is logged every this many events.
pub const LOG_EVERY: u32 = TOTAL_EVENTS / 10;

/// Seconds between two log lines while the server waits for clients.
pub const ACCEPTING_LOG_INTERVAL: u64 = 5;

/// Seconds after which accepting a client connection is given up.
pub const ACCEPT_TIMEOUT: u64 = 5;

} // verus!
