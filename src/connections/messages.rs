//! The replies that the relay sends to a peer.

pub use crate::connections2::{status_msg, Message, MessageType};
