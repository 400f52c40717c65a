use potato::message::{Message, Sendable};

const ALL: [Message; 4] = [
    Message::Ping,
    Message::Pong,
    Message::RequestFds,
    Message::Quit,
];

#[test]
fn messages_are_json_strings_on_lines() {
    assert_eq!(Message::Ping.encode(), b"\"Ping\"\n".to_vec());
    assert_eq!(Message::Pong.encode(), b"\"Pong\"\n".to_vec());
    assert_eq!(Message::RequestFds.encode(), b"\"RequestFds\"\n".to_vec());
    assert_eq!(Message::Quit.encode(), b"\"Quit\"\n".to_vec());
}

#[test]
fn messages_are_read_back_as_json() {
    for m in ALL {
        let bytes = m.encode();
        let name: String = serde_json::from_slice(&bytes).unwrap();
        assert_eq!(name, m.name());
    }
}

#[test]
fn messages_differ_on_the_wire() {
    for a in ALL {
        for b in ALL {
            assert_eq!(a == b, a.encode() == b.encode());
        }
    }
}

#[test]
fn a_message_can_be_queued() {
    assert_eq!(
        Sendable::from(Message::Pong),
        Sendable::Message(Message::Pong)
    );
}
