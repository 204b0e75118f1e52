//! The events that the event source sends.
use vstd::prelude::*;

verus! {

/// An event of the chat, as the event source sends it.
#[derive(Debug, Clone, Copy, PartialEq, Eq, Structural)]
pub enum Event {
    /// `from` starts following `to`; `to` receives the event.
    Follow { from: u32, to: u32 },
    /// `from` stops following `to`; `to` receives the event.
    Unfollow { from: u32, to: u32 },
    /// A status update of `from`; all followers of `from` receive it.
    StatusUpdate { from: u32 },
    /// A private message from `from` to `to`; `to` receives it.
    PrivateMessage { from: u32, to: u32 },
    /// `from` stops receiving follows, status updates and private messages of `to`.
    Block { from: u32, to: u32 },
}

impl Event {
    /// The user whose action the event reports.
    pub open spec fn actor(self) -> u32 {
        match self {
            Event::Follow { from, .. } => from,
            Event::Unfollow { from, .. } => from,
            Event::StatusUpdate { from } => from,
            Event::PrivateMessage { from, .. } => from,
            Event::Block { from, .. } => from,
        }
    }
}

} // verus!
