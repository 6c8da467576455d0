//! The typed values returned by the runtime when reading an input.

use vstd::prelude::*;

verus! {

/// An input either comes from the inbox, or from a slot the rollup is
/// subscribed to.
#[derive(Debug, PartialEq, Eq)]
pub enum Input {
    /// The input came from a slot.
    Slot(SlotData),
    /// The input came from an inbox message.
    Message(MessageData),
}

/// A slot input: the inbox level, slot identifier, and payload.
#[derive(Debug, PartialEq, Eq)]
pub struct SlotData {
    /// Inbox level of this input.
    pub level: i32,
    /// Slot identifier corresponding to one of the subscribed slots.
    pub id: i32,
    /// The carried payload bytes.
    pub payload: Vec<u8>,
}

impl SlotData {
    /// Create a slot input.
    pub fn new(level: i32, id: i32, payload: Vec<u8>) -> (r: SlotData)
        ensures
            r.level == level,
            r.id == id,
            r.payload == payload,
    {
        SlotData { level, id, payload }
    }

    /// Returns the payload bytes.
    pub fn as_ref(&self) -> (r: &[u8])
        ensures
            r@ == self.payload@,
    {
        self.payload.as_slice()
    }
}

/// An inbox message input: the inbox level, message index, and payload.
#[derive(Debug, PartialEq, Eq)]
pub struct MessageData {
    /// Inbox level of this input.
    pub level: i32,
    /// The message index in the inbox.
    pub id: i32,
    /// The carried payload bytes.
    pub payload: Vec<u8>,
}

impl MessageData {
    /// Create a message input.
    pub fn new(level: i32, id: i32, payload: Vec<u8>) -> (r: MessageData)
        ensures
            r.level == level,
            r.id == id,
            r.payload == payload,
    {
        MessageData { level, id, payload }
    }

    /// Returns the payload bytes.
    pub fn as_ref(&self) -> (r: &[u8])
        ensures
            r@ == self.payload@,
    {
        self.payload.as_slice()
    }
}

} // verus!
