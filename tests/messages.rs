use remonitor::connections::messages as replies;
use remonitor::messages::{status_msg, MessageType};

#[test]
fn status_message_on_system_channel() {
    let m = status_msg("OK");
    assert_eq!(m.payload, b"OK".to_vec());
    assert_eq!(m.channel, b"SYSTEM".to_vec());
    assert_eq!(m.message_type, MessageType::Status);
}

#[test]
fn status_reply() {
    let m = replies::status_msg("OK");
    assert_eq!(m.payload, "OK");
    assert_eq!(m.message_type, replies::MessageType::Status);
}
