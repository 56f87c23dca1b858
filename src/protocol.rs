use vstd::prelude::*;

use crate::identity::UserId;

verus! {

/// Unix time in microseconds.
pub type Timestamp = u64;

/// The 128-bit value of a message's UUID.
pub type MessageId = u128;

/// A message being composed: its identifier, what has been typed so far and
/// when composition started.
#[derive(Debug, PartialEq, Eq)]
pub struct Draft {
    pub id: MessageId,
    pub content: String,
    pub start_time: Timestamp,
}

/// A finalized message as storage keeps it.
#[derive(Debug, PartialEq, Eq)]
pub struct Message {
    pub sender: UserId,
    pub content: String,
    pub id: MessageId,
    pub start_time: Timestamp,
    pub end_time: Timestamp,
}

/// The message that a draft becomes when `sender` finalizes it at `time`.
pub open spec fn message_of_draft(draft: Draft, sender: UserId, time: Timestamp) -> Message {
    Message {
        sender,
        content: draft.content,
        id: draft.id,
        start_time: draft.start_time,
        end_time: time,
    }
}

impl Draft {
    /// Finalizes the draft: same id, content and start time, ending at `time`.
    pub fn into_message(self, sender: UserId, time: Timestamp) -> (r: Message)
        ensures
            r == message_of_draft(self, sender, time),
    {
        Message {
            sender,
            content: self.content,
            id: self.id,
            start_time: self.start_time,
            end_time: time,
        }
    }
}

} // verus!
