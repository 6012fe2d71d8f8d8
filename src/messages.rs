use vstd::prelude::*;
use vstd::slice::slice_to_vec;
use vstd::utf8::encode_utf8;

verus! {

/// The kind of a message on the bus.
#[derive(Debug, Clone, Copy, PartialEq, Eq, Structural)]
pub enum MessageType {
    Error,
    Status,
    System,
}

/// A message that a monitor publishes, or that the relay sends.
#[derive(Debug)]
pub struct Message {
    pub payload: Vec<u8>,
    pub channel: Vec<u8>,
    pub message_type: MessageType,
}

/// The channel of the relay's own messages: the bytes of `SYSTEM`.
pub open spec fn system_channel() -> Seq<u8> {
    seq![83u8, 89u8, 83u8, 84u8, 69u8, 77u8]
}

/// A status message with the text `msg` on the relay's own channel.
pub fn status_msg(msg: &str) -> (r: Message)
    ensures
        r.payload@ == encode_utf8(msg@),
        r.channel@ == system_channel(),
        r.message_type == MessageType::Status,
{
    let channel: Vec<u8> = vec![83u8, 89u8, 83u8, 84u8, 69u8, 77u8];
    assert(channel@ =~= system_channel());
    Message { payload: slice_to_vec(msg.as_bytes()), channel, message_type: MessageType::Status }
}

} // verus!
