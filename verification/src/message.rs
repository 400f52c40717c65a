//! The messages that two processes exchange, and their bytes on the wire.
use crate::lines::{is_line, NEWLINE};
use vstd::prelude::*;
use vstd::std_specs::convert::{FromSpec, FromSpecImpl};
use vstd::utf8::{
    decode_utf8, encode_utf8, encode_utf8_decode_utf8, encode_utf8_valid_utf8,
    is_ascii_chars_encode_utf8, valid_utf8,
};

verus! {

/// A message between the running process and its successor.
#[derive(Clone, Copy, Debug, PartialEq, Eq, Structural)]
pub enum Message {
    Ping,
    Pong,
    RequestFds,
    Quit,
}

/// Something that waits to be sent to the peer.
#[derive(Clone, Copy, Debug, PartialEq, Eq, Structural)]
pub enum Sendable {
    /// The descriptor of the chat connection, if there is one.
    Fds,
    Message(Message),
}

impl From<Message> for Sendable {
    fn from(m: Message) -> (s: Self) {
        Sendable::Message(m)
    }
}

impl FromSpecImpl<Message> for Sendable {
    open spec fn obeys_from_spec() -> bool {
        true
    }

    open spec fn from_spec(m: Message) -> Self {
        Sendable::Message(m)
    }
}

/// The byte that opens and closes a JSON string.
pub const QUOTE: u8 = 34;

/// `c` stands in a JSON string as itself.
pub open spec fn is_plain_in_json(c: char) -> bool {
    c >= ' ' && c != '"' && c != '\\'
}

/// Declares `serde_json::Error`, which carries nothing that the library reads.
#[verifier::external_type_specification]
#[verifier::external_body]
pub struct ExJsonError(serde_json::Error);

/// Calls `serde_json::to_vec` on a string. Where no character needs an escape it succeeds, and
/// the result is the string's UTF-8 bytes between two quotes.
#[verifier::external_body]
fn json_string(s: &str) -> (bytes: Result<Vec<u8>, serde_json::Error>)
    requires
        forall|i: int| 0 <= i < s@.len() ==> is_plain_in_json(#[trigger] s@[i]),
    ensures
        bytes is Ok,
        bytes->Ok_0@ == seq![QUOTE] + encode_utf8(s@) + seq![QUOTE],
{
    serde_json::to_vec(s)
}

impl Message {
    /// The name that stands for the message on the wire.
    pub open spec fn name_spec(self) -> Seq<char> {
        match self {
            Message::Ping => "Ping"@,
            Message::Pong => "Pong"@,
            Message::RequestFds => "RequestFds"@,
            Message::Quit => "Quit"@,
        }
    }

    /// The message on the wire: its name as a JSON string, and a newline.
    pub open spec fn wire(self) -> Seq<u8> {
        seq![QUOTE] + encode_utf8(self.name_spec()) + seq![QUOTE, NEWLINE]
    }

    /// The line that a reader of the message sees.
    pub open spec fn text(self) -> Seq<char> {
        seq!['"'] + self.name_spec() + seq!['"', '\n']
    }

    /// The name that stands for the message on the wire.
    pub fn name(self) -> (name: &'static str)
        ensures
            name@ == self.name_spec(),
            self == Message::Ping ==> name@ == "Ping"@,
            self == Message::Pong ==> name@ == "Pong"@,
            self == Message::RequestFds ==> name@ == "RequestFds"@,
            self == Message::Quit ==> name@ == "Quit"@,
    {
        match self {
            Message::Ping => "Ping",
            Message::Pong => "Pong",
            Message::RequestFds => "RequestFds",
            Message::Quit => "Quit",
        }
    }

    /// The bytes that are sent for the message.
    pub fn encode(self) -> (bytes: Vec<u8>)
        ensures
            bytes@ == self.wire(),
    {
        proof {
            lemma_names(self);
        }
        let mut bytes = json_string(self.name()).unwrap();
        bytes.push(NEWLINE);
        assert(bytes@ =~= self.wire());
        bytes
    }
}

/// A message on the wire is exactly one line, and its text is the name between quotes and a
/// newline.
pub proof fn law_message_is_one_line(m: Message)
    ensures
        is_line(m.wire()),
        valid_utf8(m.wire()),
        decode_utf8(m.wire()) == m.text(),
{
    lemma_names(m);
    lemma_text(m);
    encode_utf8_valid_utf8(m.text());
    encode_utf8_decode_utf8(m.text());
}

/// No two messages look the same on the wire.
pub proof fn law_messages_differ_on_the_wire(m: Message, other: Message)
    requires
        m != other,
    ensures
        m.wire() != other.wire(),
        m.text() != other.text(),
{
    reveal_strlit("Ping");
    reveal_strlit("Pong");
    reveal_strlit("RequestFds");
    reveal_strlit("Quit");
    assert(m.name_spec().len() != other.name_spec().len() || m.name_spec()[1]
        != other.name_spec()[1]);
    assert(m.text().len() != other.text().len() || m.text()[2] != other.text()[2]);
    law_message_is_one_line(m);
    law_message_is_one_line(other);
}

/// The bytes of a message are the UTF-8 encoding of its text.
proof fn lemma_text(m: Message)
    ensures
        encode_utf8(m.text()) == m.wire(),
        is_line(m.wire()),
{
    let name = m.name_spec();
    let text = m.text();
    lemma_names(m);
    is_ascii_chars_encode_utf8(name);
    is_ascii_chars_encode_utf8(text);
    assert forall|i: int| 0 <= i < text.len() implies encode_utf8(text)[i] == m.wire()[i] by {
        assert(text[i] as u8 == encode_utf8(text)[i]);
        if 0 < i <= name.len() {
            assert(text[i] == name[i - 1]);
            assert(name[i - 1] as u8 == encode_utf8(name)[i - 1]);
        }
    }
    assert(encode_utf8(text) =~= m.wire());
}

/// Every name consists of ASCII letters.
proof fn lemma_names(m: Message)
    ensures
        forall|i: int|
            0 <= i < m.name_spec().len() ==> 'A' <= #[trigger] m.name_spec()[i] <= 'z'
                && is_plain_in_json(m.name_spec()[i]),
{
    reveal_strlit("Ping");
    reveal_strlit("Pong");
    reveal_strlit("RequestFds");
    reveal_strlit("Quit");
}

/// Every message has its own fixed text: its name between quotes, and a newline.
pub proof fn law_texts_are_fixed(m: Message)
    ensures
        m.text() == match m {
            Message::Ping => seq!['"', 'P', 'i', 'n', 'g', '"', '\n'],
            Message::Pong => seq!['"', 'P', 'o', 'n', 'g', '"', '\n'],
            Message::RequestFds => seq![
                '"', 'R', 'e', 'q', 'u', 'e', 's', 't', 'F', 'd', 's', '"', '\n',
            ],
            Message::Quit => seq!['"', 'Q', 'u', 'i', 't', '"', '\n'],
        },
{
    reveal_strlit("Ping");
    reveal_strlit("Pong");
    reveal_strlit("RequestFds");
    reveal_strlit("Quit");
    match m {
        Message::Ping => assert(m.text() =~= seq!['"', 'P', 'i', 'n', 'g', '"', '\n']),
        Message::Pong => assert(m.text() =~= seq!['"', 'P', 'o', 'n', 'g', '"', '\n']),
        Message::RequestFds => assert(m.text() =~= seq![
            '"', 'R', 'e', 'q', 'u', 'e', 's', 't', 'F', 'd', 's', '"', '\n',
        ]),
        Message::Quit => assert(m.text() =~= seq!['"', 'Q', 'u', 'i', 't', '"', '\n']),
    }
}

/// A queued message is that message.
pub proof fn law_message_is_queued_as_itself(m: Message)
    ensures
        <Sendable as FromSpec<Message>>::obeys_from_spec(),
        <Sendable as FromSpec<Message>>::from_spec(m) == Sendable::Message(m),
{
}

} // verus!
