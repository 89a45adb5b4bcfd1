use vstd::prelude::*;

pub mod dedup;
pub mod ingest;
pub mod persist;
pub mod sched;
pub mod text;

verus! {

/// A message reference on the platform: the channel and the message within it.
#[derive(Clone, Copy, PartialEq, Eq, Structural, Debug)]
pub struct MessageRef {
    pub channel_id: u64,
    pub message_id: u64,
}

/// A platform message as the core reads it. The core never changes a message;
/// it only normalizes the content and may ask for the message's deletion.
pub struct InboundMessage {
    pub id: u64,
    pub channel_id: u64,
    pub author_id: u64,
    pub content: String,
    pub timestamp: u64,
}

} // verus!
