//! The units a channel moves: messages, and the bookkeeping kept for them.
use vstd::prelude::*;

verus! {

/// Bytes that frame a message on the wire: its 16-bit id and a 64-bit
/// payload length.
pub const MESSAGE_HEADER_BYTES: u128 = 10;

/// Size in bits of a serialized message whose payload has `len` bytes.
pub open spec fn serialized_size_bits(len: nat) -> nat {
    ((MESSAGE_HEADER_BYTES as nat + len) * 8) as nat
}

/// An application payload tagged with its channel id.
pub struct Message {
    pub id: u16,
    pub payload: Vec<u8>,
}

impl View for Message {
    type V = (u16, Seq<u8>);

    open spec fn view(&self) -> (u16, Seq<u8>) {
        (self.id, self.payload@)
    }
}

impl Message {
    pub fn new(id: u16, payload: Vec<u8>) -> (r: Message)
        ensures
            r.id == id,
            r.payload@ == payload@,
    {
        Message { id, payload }
    }

    /// The size in bits that this message takes once serialized.
    pub fn serialized_size_bits(&self) -> (r: u128)
        ensures
            r == serialized_size_bits(self.payload@.len()),
    {
        (MESSAGE_HEADER_BYTES + self.payload.len() as u128) * 8
    }

    pub fn duplicate(&self) -> (r: Message)
        ensures
            r@ == self@,
    {
        Message { id: self.id, payload: self.payload.clone() }
    }
}

/// An outgoing message waiting for acknowledgment.
pub struct MessageSend {
    pub message: Message,
    /// When it was last put in a packet, in milliseconds; `None` if never.
    pub last_time_sent: Option<u64>,
    pub serialized_size_bits: u128,
}

impl MessageSend {
    pub fn new(message: Message) -> (r: MessageSend)
        ensures
            r.message@ == message@,
            r.last_time_sent is None,
            r.serialized_size_bits == serialized_size_bits(message.payload@.len()),
    {
        let serialized_size_bits = message.serialized_size_bits();
        MessageSend { message, last_time_sent: None, serialized_size_bits }
    }
}

/// The ids of the messages that went out in one packet, and whether that
/// packet has been acknowledged.
pub struct PacketSent {
    pub messages_id: Vec<u16>,
    pub acked: bool,
}

impl PacketSent {
    pub fn new(messages_id: Vec<u16>) -> (r: PacketSent)
        ensures
            r.messages_id@ == messages_id@,
            !r.acked,
    {
        PacketSent { messages_id, acked: false }
    }
}

} // verus!
