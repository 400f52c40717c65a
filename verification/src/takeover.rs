//! How a new process takes the chat connection over from a running one.
use crate::error::{invalid_data, ErrorKind, Failure};
use crate::ipc::{fds_of, ReadOutcome, Session};
use crate::ipc_laws::{
    law_messages_are_answered_in_order, law_quit_ends_the_session, reads_back, replies, session_of,
    wires,
};
use crate::message::{Message, Sendable};
use vstd::prelude::*;

verus! {

/// Whether a new process takes over from a running one.
#[derive(Clone, Copy, Debug, PartialEq, Eq, Structural)]
pub enum Replace {
    /// It does not ask.
    Nope,
    /// It starts afresh where it cannot.
    Try,
    /// It gives up where it cannot.
    Must,
}

impl Replace {
    /// The choice that goes by this name.
    pub fn parse(name: &str) -> (choice: Option<Replace>)
        ensures
            choice == if name@ == "nope"@ {
                Some(Replace::Nope)
            } else if name@ == "try"@ {
                Some(Replace::Try)
            } else if name@ == "must"@ {
                Some(Replace::Must)
            } else {
                None::<Replace>
            },
    {
        let name = name.to_owned();
        if name == "nope".to_owned() {
            Some(Replace::Nope)
        } else if name == "try".to_owned() {
            Some(Replace::Try)
        } else if name == "must".to_owned() {
            Some(Replace::Must)
        } else {
            None
        }
    }

    /// Whether a running process is asked at all.
    pub fn asks(self) -> (asks: bool)
        ensures
            asks <==> self != Replace::Nope,
    {
        match self {
            Replace::Nope => false,
            Replace::Try | Replace::Must => true,
        }
    }

    /// What asking came to: a failure counts only where taking over is a must.
    pub fn settle<E>(self, outcome: Result<Option<i32>, E>) -> (fd: Result<Option<i32>, E>)
        ensures
            fd == match self {
                Replace::Nope => Ok::<Option<i32>, E>(None),
                Replace::Try => Ok::<Option<i32>, E>(
                    match outcome {
                        Ok(fd) => fd,
                        Err(_) => None,
                    },
                ),
                Replace::Must => outcome,
            },
    {
        match self {
            Replace::Nope => Ok(None),
            Replace::Try => match outcome {
                Ok(fd) => Ok(fd),
                Err(_) => Ok(None),
            },
            Replace::Must => outcome,
        }
    }
}

/// The control data that came with a datagram.
#[derive(Debug, PartialEq, Eq)]
pub enum ControlData {
    /// Descriptors.
    Rights(Vec<i32>),
    /// Anything else.
    Other,
}

/// The bytes that descriptors travel with.
pub open spec fn fds_payload_spec() -> Seq<u8> {
    seq![104u8, 105u8]
}

/// The bytes that descriptors travel with, as something has to be sent.
pub fn fds_payload() -> (bytes: Vec<u8>)
    ensures
        bytes@ == fds_payload_spec(),
        bytes@ == seq![104u8, 105u8],
{
    let bytes: Vec<u8> = vec![104u8, 105u8];
    assert(bytes@ =~= fds_payload_spec());
    bytes
}

/// The descriptors in the first control data that was received, if there was any.
pub fn recv_fds(first: Option<ControlData>) -> (fds: Result<Vec<i32>, Failure>)
    ensures
        match first {
            Some(ControlData::Rights(sent)) => fds == Ok::<Vec<i32>, Failure>(sent),
            Some(ControlData::Other) => fds == Err::<Vec<i32>, Failure>(
                Failure {
                    kind: ErrorKind::InvalidData,
                    message: "unexpected control message",
                },
            ),
            None => fds == Err::<Vec<i32>, Failure>(
                Failure { kind: ErrorKind::InvalidData, message: "no control message found" },
            ),
        },
{
    match first {
        Some(ControlData::Rights(sent)) => Ok(sent),
        Some(ControlData::Other) => Err(invalid_data("unexpected control message")),
        None => Err(invalid_data("no control message found")),
    }
}

/// The descriptor that is used of those received: the first.
pub open spec fn first_fd(fds: Seq<i32>) -> Option<i32> {
    if fds.len() == 0 {
        None
    } else {
        Some(fds[0])
    }
}

/// Where the exchange with the running process stands.
#[derive(Clone, Copy, Debug, PartialEq, Eq, Structural)]
pub enum Takeover {
    /// It has to be asked for its descriptors.
    Asking,
    /// Its descriptors are awaited.
    Receiving,
    /// It has to be told to quit.
    Leaving(Option<i32>),
    /// Its stream has to end.
    Draining(Option<i32>),
    Done(Option<i32>),
}

/// What the exchange calls for next.
#[derive(Debug, PartialEq, Eq)]
pub enum TakeoverStep {
    /// Send these bytes, then call `sent`.
    Send(Vec<u8>),
    /// Receive descriptors, then call `received`.
    Receive,
    /// Read once more, then call `drained`.
    Drain,
    /// It is over, and this is the descriptor.
    Finish(Option<i32>),
}

impl Takeover {
    /// The message that is to be sent now.
    pub open spec fn message(self) -> Option<Message> {
        match self {
            Takeover::Asking => Some(Message::RequestFds),
            Takeover::Leaving(_) => Some(Message::Quit),
            _ => None,
        }
    }

    /// The state once the message is sent.
    pub open spec fn after_sent(self) -> Takeover {
        match self {
            Takeover::Asking => Takeover::Receiving,
            Takeover::Leaving(fd) => Takeover::Draining(fd),
            _ => self,
        }
    }

    /// The state once the descriptors are there.
    pub open spec fn after_received(self, fds: Seq<i32>) -> Takeover {
        match self {
            Takeover::Receiving => Takeover::Leaving(first_fd(fds)),
            _ => self,
        }
    }

    /// The state once the stream was read to its end.
    pub open spec fn after_drained(self) -> Takeover {
        match self {
            Takeover::Draining(fd) => Takeover::Done(fd),
            _ => self,
        }
    }

    /// The exchange before its first step.
    pub fn new() -> (takeover: Takeover)
        ensures
            takeover == Takeover::Asking,
    {
        Takeover::Asking
    }

    /// What to do next.
    pub fn step(self) -> (step: TakeoverStep)
        ensures
            match self {
                Takeover::Receiving => step == TakeoverStep::Receive,
                Takeover::Draining(_) => step == TakeoverStep::Drain,
                Takeover::Done(fd) => step == TakeoverStep::Finish(fd),
                _ => step matches TakeoverStep::Send(bytes) && bytes@ == self.message()->0.wire(),
            },
            self is Asking ==> (step matches TakeoverStep::Send(bytes) && bytes@
                == Message::RequestFds.wire()),
            self is Leaving ==> (step matches TakeoverStep::Send(bytes) && bytes@
                == Message::Quit.wire()),
    {
        match self {
            Takeover::Asking => TakeoverStep::Send(Message::RequestFds.encode()),
            Takeover::Receiving => TakeoverStep::Receive,
            Takeover::Leaving(_) => TakeoverStep::Send(Message::Quit.encode()),
            Takeover::Draining(_) => TakeoverStep::Drain,
            Takeover::Done(fd) => TakeoverStep::Finish(fd),
        }
    }

    /// The message was sent.
    pub fn sent(self) -> (next: Takeover)
        requires
            self.message() is Some,
        ensures
            next == self.after_sent(),
            self is Asking ==> next == Takeover::Receiving,
            self matches Takeover::Leaving(fd) ==> next == Takeover::Draining(fd),
    {
        match self {
            Takeover::Asking => Takeover::Receiving,
            Takeover::Leaving(fd) => Takeover::Draining(fd),
            _ => self,
        }
    }

    /// The descriptors were received.
    pub fn received(self, fds: &[i32]) -> (next: Takeover)
        requires
            self is Receiving,
        ensures
            next == self.after_received(fds@),
            fds@.len() == 0 ==> next == Takeover::Leaving(None),
            fds@.len() > 0 ==> next == Takeover::Leaving(Some(fds@[0])),
    {
        if fds.len() == 0 {
            Takeover::Leaving(None)
        } else {
            Takeover::Leaving(Some(fds[0]))
        }
    }

    /// Reading once more gave `n` bytes. Also returns whether that is worth a report: the running
    /// process should have nothing more to say.
    pub fn drained(self, n: usize) -> (next: (Takeover, bool))
        requires
            self is Draining,
        ensures
            next == (self.after_drained(), n != 0),
            self matches Takeover::Draining(fd) && next.0 == Takeover::Done(fd),
    {
        match self {
            Takeover::Draining(fd) => (Takeover::Done(fd), n != 0),
            _ => (self, n != 0),
        }
    }
}

/// The exchange asks first, tells the other process to quit only once the descriptors are there,
/// and ends with the first of them.
pub proof fn law_takeover_asks_then_quits(fds: Seq<i32>)
    ensures
        ({
            let asking = Takeover::Asking;
            let receiving = asking.after_sent();
            let leaving = receiving.after_received(fds);
            let draining = leaving.after_sent();
            &&& asking.message() == Some(Message::RequestFds)
            &&& receiving is Receiving
            &&& leaving.message() == Some(Message::Quit)
            &&& draining is Draining
            &&& draining.after_drained() == Takeover::Done(first_fd(fds))
        }),
{
}

/// A running process that waits for messages, with nothing else received and nothing queued,
/// answers the exchange: the request queues its descriptors, what is sent for them makes the new
/// process take over the same chat connection, and the last message makes the old one quit.
pub proof fn law_connection_is_handed_over(
    parse: spec_fn(Seq<char>) -> Option<Message>,
    chat_fd: Option<i32>,
    tally: nat,
)
    requires
        reads_back(parse),
    ensures
        ({
            let none = Seq::<Sendable>::empty();
            let receiving = Takeover::Asking.after_sent();
            let leaving = receiving.after_received(fds_of(chat_fd));
            &&& session_of(parse, Takeover::Asking.message()->0.wire(), tally, none) == (Session {
                outcome: ReadOutcome::Rearm,
                pending: Seq::empty(),
                tally,
                queue: seq![Sendable::Fds],
            })
            &&& leaving.after_sent().after_drained() == Takeover::Done(chat_fd)
            &&& session_of(parse, leaving.message()->0.wire(), tally, none) == (Session {
                outcome: ReadOutcome::Quit,
                pending: Seq::empty(),
                tally,
                queue: none,
            })
        }),
{
    let none = Seq::<Sendable>::empty();
    let rest = Seq::<u8>::empty();
    let ask = seq![Message::RequestFds];
    reveal_with_fuel(replies, 2);
    reveal_with_fuel(crate::lines::join, 2);
    law_messages_are_answered_in_order(parse, ask, rest, tally, none);
    assert(wires(ask) + rest =~= Message::RequestFds.wire());
    assert(none + replies(ask) =~= seq![Sendable::Fds]);
    let nothing = Seq::<Message>::empty();
    law_quit_ends_the_session(parse, nothing, rest, tally, none);
    assert(wires(nothing) + (Message::Quit.wire() + rest) =~= Message::Quit.wire());
    assert(none + replies(nothing) =~= none);
}

/// An exchange that receives descriptors ends with the first of them, however many there are; one
/// that receives none ends with none.
pub proof fn law_takeover_ends_with_the_first_descriptor(fds: Seq<i32>)
    ensures
        ({
            let received = Takeover::Asking.after_sent().after_received(fds);
            let end = received.after_sent().after_drained();
            &&& fds.len() == 0 ==> end == Takeover::Done(None)
            &&& fds.len() > 0 ==> end == Takeover::Done(Some(fds[0]))
        }),
{
}

/// An exchange that receives exactly one descriptor ends with it, whatever its number.
pub proof fn law_a_single_descriptor_is_taken_over(fd: i32)
    ensures
        Takeover::Receiving.after_received(seq![fd]) == Takeover::Leaving(Some(fd)),
        Takeover::Receiving.after_received(seq![fd]).after_sent().after_drained()
            == Takeover::Done(Some(fd)),
{
}

/// The request for the descriptors and the request to quit are all that is said in the exchange,
/// and once the descriptors are there, nothing changes which of them is used.
pub proof fn law_exchange_keeps_its_descriptor(fd: Option<i32>, fds: Seq<i32>)
    ensures
        Takeover::Asking.message() == Some(Message::RequestFds),
        Takeover::Leaving(fd).message() == Some(Message::Quit),
        Takeover::Receiving.message() is None,
        Takeover::Draining(fd).message() is None,
        Takeover::Done(fd).message() is None,
        Takeover::Asking.after_sent() == Takeover::Receiving,
        Takeover::Leaving(fd).after_sent() == Takeover::Draining(fd),
        Takeover::Draining(fd).after_drained() == Takeover::Done(fd),
        Takeover::Leaving(fd).after_received(fds) == Takeover::Leaving(fd),
        Takeover::Draining(fd).after_received(fds) == Takeover::Draining(fd),
        Takeover::Done(fd).after_received(fds) == Takeover::Done(fd),
{
}

} // verus!
