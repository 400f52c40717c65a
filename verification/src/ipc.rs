//! The peer process: its messages are read line by line and answered in order.
use crate::error::ErrorKind;
use crate::lineio::LineIo;
use crate::lines::{first_line, lemma_first_line};
use crate::message::{Message, Sendable};
use crate::poll::{Mode, Readiness, Registration, IPC_PEER_TOKEN, IPC_SERVER_TOKEN};
use std::collections::VecDeque;
use vstd::prelude::*;
use vstd::utf8::{decode_utf8, valid_utf8};

verus! {

/// A peer is cut off with this many undecodable lines.
pub const NAUGHTY_LIMIT: u8 = 8;

/// The next thing that the received bytes give rise to.
#[derive(Debug)]
pub enum NextLine {
    /// A line of text, its newline included.
    Line(String),
    /// The peer has sent too many undecodable lines: cut it off.
    Shutdown,
    /// No complete line is left.
    Drained,
}

/// `NextLine` with its text as a sequence.
pub enum LineEvent {
    Line(Seq<char>),
    Shutdown,
    Drained,
}

impl View for NextLine {
    type V = LineEvent;

    open spec fn view(&self) -> LineEvent {
        match *self {
            NextLine::Line(text) => LineEvent::Line(text@),
            NextLine::Shutdown => LineEvent::Shutdown,
            NextLine::Drained => LineEvent::Drained,
        }
    }
}

/// Where the search for the next line ends.
pub struct Scan {
    pub event: LineEvent,
    /// The bytes that remain.
    pub pending: Seq<u8>,
    /// How many undecodable lines the peer has sent so far.
    pub tally: nat,
}

/// Searches `pending` for the first line that is text. Lines that are not are dropped and
/// counted, and one that brings the count to the limit or over it ends the search.
pub open spec fn scan(pending: Seq<u8>, tally: nat) -> Scan
    decreases pending.len(),
{
    match first_line(pending) {
        None => Scan { event: LineEvent::Drained, pending, tally },
        Some(line) => {
            proof {
                lemma_first_line(pending);
            }
            let rest = pending.skip(line.len() as int);
            if valid_utf8(line) {
                Scan { event: LineEvent::Line(decode_utf8(line)), pending: rest, tally }
            } else if tally + 1 >= NAUGHTY_LIMIT {
                Scan { event: LineEvent::Shutdown, pending: rest, tally: tally + 1 }
            } else {
                scan(rest, tally + 1)
            }
        },
    }
}

/// The answer that is queued for a line, `parsed` being the message that it holds, if any.
pub open spec fn reply_to(parsed: Option<Message>) -> Seq<Sendable> {
    match parsed {
        Some(Message::Ping) => seq![Sendable::Message(Message::Pong)],
        Some(Message::RequestFds) => seq![Sendable::Fds],
        _ => Seq::empty(),
    }
}

/// How the handling of received bytes ends.
#[derive(Clone, Copy, Debug, PartialEq, Eq, Structural)]
pub enum ReadOutcome {
    /// The stream could not be read: nothing was handled.
    Failed(ErrorKind),
    /// Every complete line was handled: wait for the peer again.
    Rearm,
    /// The peer has to be cut off; then wait for the stream again.
    Shutdown,
    /// The peer asks this process to quit.
    Quit,
}

/// A read came to nothing for another reason than that there was nothing to read.
pub open spec fn read_failed(filled: Result<usize, ErrorKind>) -> bool {
    filled matches Err(kind) && kind != ErrorKind::WouldBlock
}

/// What handling the received bytes leaves behind.
pub struct Session {
    pub outcome: ReadOutcome,
    pub pending: Seq<u8>,
    pub tally: nat,
    pub queue: Seq<Sendable>,
}

/// `out` is where handling `pending` line by line can end, `parses` relating a text to the message
/// that it may be taken for: a request to quit ends it at once, and the answer to any other line
/// is queued.
pub open spec fn reads_to(
    parses: spec_fn(Seq<char>, Option<Message>) -> bool,
    pending: Seq<u8>,
    tally: nat,
    queue: Seq<Sendable>,
    out: Session,
) -> bool
    decreases pending.len(),
{
    proof {
        lemma_scan_bounds(pending, tally);
    }
    let found = scan(pending, tally);
    match found.event {
        LineEvent::Drained => out == (Session {
            outcome: ReadOutcome::Rearm,
            pending: found.pending,
            tally: found.tally,
            queue,
        }),
        LineEvent::Shutdown => out == (Session {
            outcome: ReadOutcome::Shutdown,
            pending: found.pending,
            tally: found.tally,
            queue,
        }),
        LineEvent::Line(text) => exists|parsed: Option<Message>|
            {
                &&& #[trigger] parses(text, parsed)
                &&& if parsed == Some(Message::Quit) {
                    out == (Session {
                        outcome: ReadOutcome::Quit,
                        pending: found.pending,
                        tally: found.tally,
                        queue,
                    })
                } else {
                    reads_to(parses, found.pending, found.tally, queue + reply_to(parsed), out)
                }
            },
    }
}

/// What to write to the peer.
#[derive(Debug, PartialEq, Eq)]
pub enum WriteStep {
    /// These bytes.
    Send(Vec<u8>),
    /// These descriptors.
    SendFds(Vec<i32>),
    /// Nothing is left.
    Idle,
}

/// How writing goes on.
#[derive(Clone, Copy, Debug, PartialEq, Eq, Structural)]
pub enum Wrote {
    /// With what is due next.
    Again,
    /// Not now: the stream takes no more.
    Blocked,
    /// Not at all: the stream failed.
    Failed(ErrorKind),
}

/// The descriptors that answer a request for them.
pub open spec fn fds_of(chat_fd: Option<i32>) -> Seq<i32> {
    match chat_fd {
        Some(fd) => seq![fd],
        None => Seq::empty(),
    }
}

/// How writing goes on after `result`: an interrupted write is tried again.
pub open spec fn wrote_next(result: Result<usize, ErrorKind>) -> Wrote {
    match result {
        Ok(_) => Wrote::Again,
        Err(ErrorKind::Interrupted) => Wrote::Again,
        Err(ErrorKind::WouldBlock) => Wrote::Blocked,
        Err(kind) => Wrote::Failed(kind),
    }
}

/// What waits after `result`: only what was written leaves the queue.
pub open spec fn wrote_queue(
    queue: Seq<Sendable>,
    result: Result<usize, ErrorKind>,
) -> Seq<Sendable> {
    if result is Ok {
        queue.drop_first()
    } else {
        queue
    }
}

/// A connection to a peer process over a stream of type `S`.
pub struct IpcConnection<S> {
    /// How many undecodable lines the peer has sent.
    pub naughtyness: u8,
    /// What waits to be sent, the oldest first.
    pub writebuf: VecDeque<Sendable>,
    /// What was received.
    pub readbuf: Box<LineIo>,
    pub stream: S,
}

impl<S> IpcConnection<S> {
    /// How many undecodable lines the peer has sent.
    pub open spec fn tally(&self) -> nat {
        self.naughtyness as nat
    }

    /// What waits to be sent, the oldest first.
    pub open spec fn queue(&self) -> Seq<Sendable> {
        self.writebuf@
    }

    /// The bytes received and not looked at yet.
    pub open spec fn pending(&self) -> Seq<u8> {
        self.readbuf.pending()
    }

    /// The receive buffer is in order.
    pub open spec fn wf(&self) -> bool {
        self.readbuf.wf()
    }

    /// Nothing was received over `stream` yet, and nothing waits to be sent.
    pub open spec fn is_fresh(&self, stream: S) -> bool {
        &&& self.wf()
        &&& self.stream == stream
        &&& self.tally() == 0
        &&& self.queue() == Seq::<Sendable>::empty()
        &&& self.pending() == Seq::<u8>::empty()
        &&& self.readbuf.head() == 0
        &&& self.readbuf.tail() == 0
    }

    /// A fresh connection over `stream`.
    pub fn from_stream(stream: S) -> (conn: Self)
        ensures
            conn.is_fresh(stream),
            conn.stream == stream,
            conn.naughtyness == 0,
            conn.writebuf@.len() == 0,
            conn.readbuf.pending().len() == 0,
    {
        IpcConnection {
            naughtyness: 0,
            writebuf: VecDeque::with_capacity(8),
            readbuf: Box::new(LineIo::new()),
            stream,
        }
    }

    /// Takes the next line of text out of the received bytes.
    pub fn next_line(&mut self) -> (next: NextLine)
        requires
            old(self).wf(),
            old(self).tally() < u8::MAX || scan(old(self).pending(), old(self).tally()).tally
                <= u8::MAX,
        ensures
            final(self).wf(),
            (Scan { event: next@, pending: final(self).pending(), tally: final(self).tally() })
                == scan(old(self).pending(), old(self).tally()),
            final(self).readbuf.tail() == old(self).readbuf.tail(),
            final(self).readbuf.bytes() == old(self).readbuf.bytes(),
            final(self).queue() == old(self).queue(),
            final(self).stream == old(self).stream,
    {
        proof {
            lemma_scan_bounds(self.pending(), self.tally());
        }
        loop
            invariant
                self.wf(),
                scan(self.pending(), self.tally()) == scan(old(self).pending(), old(self).tally()),
                scan(self.pending(), self.tally()).tally <= u8::MAX,
                self.readbuf.tail() == old(self).readbuf.tail(),
                self.readbuf.bytes() == old(self).readbuf.bytes(),
                self.queue() == old(self).queue(),
                self.stream == old(self).stream,
            decreases self.pending().len(),
        {
            let ghost before = self.pending();
            let ghost tally = self.tally();
            proof {
                lemma_first_line(before);
                lemma_scan_bounds(before.skip(first_line(before)->0.len() as int), tally + 1);
            }
            match self.readbuf.find_line_utf8() {
                Ok(Some(line)) => {
                    let text = line.to_owned();
                    assert(self.pending() =~= before.skip(first_line(before)->0.len() as int));
                    return NextLine::Line(text);
                },
                Ok(None) => {
                    return NextLine::Drained;
                },
                Err(_) => {},
            }
            assert(self.pending() =~= before.skip(first_line(before)->0.len() as int));
            self.naughtyness = self.naughtyness + 1;
            if self.naughtyness >= NAUGHTY_LIMIT {
                return NextLine::Shutdown;
            }
        }
    }

    /// Queues `s` behind everything that waits already.
    pub fn send_soon(&mut self, s: Sendable)
        ensures
            final(self).queue() == old(self).queue().push(s),
            final(self).readbuf == old(self).readbuf,
            final(self).naughtyness == old(self).naughtyness,
            final(self).stream == old(self).stream,
    {
        self.writebuf.push_back(s);
    }

    /// Answers one line, `parsed` being the message that it holds, if any. Returns whether the
    /// peer asks this process to quit.
    pub fn handle(&mut self, parsed: Option<Message>) -> (quit: bool)
        ensures
            quit == (parsed == Some(Message::Quit)),
            final(self).queue() == old(self).queue() + reply_to(parsed),
            final(self).writebuf@ == match parsed {
                Some(Message::Ping) => old(self).writebuf@.push(Sendable::Message(Message::Pong)),
                Some(Message::RequestFds) => old(self).writebuf@.push(Sendable::Fds),
                _ => old(self).writebuf@,
            },
            final(self).readbuf == old(self).readbuf,
            final(self).naughtyness == old(self).naughtyness,
            final(self).stream == old(self).stream,
    {
        match parsed {
            Some(Message::Ping) => {
                self.send_soon(Sendable::from(Message::Pong));
                false
            },
            Some(Message::Pong) => false,
            Some(Message::RequestFds) => {
                self.send_soon(Sendable::Fds);
                false
            },
            Some(Message::Quit) => true,
            None => false,
        }
    }

    /// Handles what was received, `filled` being the outcome of the read that came before and
    /// `parse` telling what message a line holds.
    pub fn read<F: Fn(&str) -> Option<Message>>(
        &mut self,
        filled: Result<usize, ErrorKind>,
        parse: F,
    ) -> (outcome: ReadOutcome)
        requires
            old(self).wf(),
            forall|line: &str| #[trigger] call_requires(parse, (line,)),
            read_failed(filled) || old(self).tally() < u8::MAX || ({
                let parses = |text: Seq<char>, parsed: Option<Message>|
                    exists|line: &str|
                        line@ == text && #[trigger] call_ensures(parse, (line,), parsed);
                forall|out: Session| #[trigger]
                    reads_to(parses, old(self).pending(), old(self).tally(), old(self).queue(), out)
                        ==> out.tally <= u8::MAX
            }),
        ensures
            final(self).wf(),
            final(self).readbuf.tail() == old(self).readbuf.tail(),
            final(self).readbuf.bytes() == old(self).readbuf.bytes(),
            final(self).stream == old(self).stream,
            read_failed(filled) ==> outcome == ReadOutcome::Failed(filled->Err_0) && *final(self)
                == *old(self),
            !read_failed(filled) ==> ({
                let parses = |text: Seq<char>, parsed: Option<Message>|
                    exists|line: &str|
                        line@ == text && #[trigger] call_ensures(parse, (line,), parsed);
                reads_to(
                    parses,
                    old(self).pending(),
                    old(self).tally(),
                    old(self).queue(),
                    Session {
                        outcome,
                        pending: final(self).pending(),
                        tally: final(self).tally(),
                        queue: final(self).queue(),
                    },
                )
            }),
    {
        match filled {
            Ok(_) => {},
            Err(kind) => {
                if kind != ErrorKind::WouldBlock {
                    return ReadOutcome::Failed(kind);
                }
            },
        }
        let ghost parses = |text: Seq<char>, parsed: Option<Message>|
                exists|line: &str|
                    line@ == text && #[trigger] call_ensures(parse, (line,), parsed);
        loop
            invariant
                parses == (|text: Seq<char>, parsed: Option<Message>|
                    exists|line: &str|
                        line@ == text && #[trigger] call_ensures(parse, (line,), parsed)),
                self.wf(),
                self.readbuf.tail() == old(self).readbuf.tail(),
                self.readbuf.bytes() == old(self).readbuf.bytes(),
                self.stream == old(self).stream,
                !read_failed(filled),
                forall|line: &str| #[trigger] call_requires(parse, (line,)),
                self.tally() < u8::MAX || forall|out: Session| #[trigger]
                    reads_to(parses, old(self).pending(), old(self).tally(), old(self).queue(), out)
                        ==> out.tally <= u8::MAX,
                forall|out: Session| #[trigger]
                    reads_to(parses, self.pending(), self.tally(), self.queue(), out) ==> reads_to(
                        parses,
                        old(self).pending(),
                        old(self).tally(),
                        old(self).queue(),
                        out,
                    ),
            decreases self.pending().len(),
        {
            let ghost before = *self;
            let ghost found = scan(before.pending(), before.tally());
            proof {
                lemma_scan_bounds(before.pending(), before.tally());
                if !(found.event is Line) {
                    let out = Session {
                        outcome: if found.event is Shutdown {
                            ReadOutcome::Shutdown
                        } else {
                            ReadOutcome::Rearm
                        },
                        pending: found.pending,
                        tally: found.tally,
                        queue: before.queue(),
                    };
                    assert(reads_to(
                        parses,
                        before.pending(),
                        before.tally(),
                        before.queue(),
                        out,
                    ));
                }
            }
            match self.next_line() {
                NextLine::Drained => {
                    return ReadOutcome::Rearm;
                },
                NextLine::Shutdown => {
                    return ReadOutcome::Shutdown;
                },
                NextLine::Line(text) => {
                    let line = text.as_str();
                    let parsed = parse(line);
                    let quit = self.handle(parsed);
                    proof {
                        assert(call_ensures(parse, (line,), parsed));
                        lemma_read_step(
                            parses,
                            before.pending(),
                            before.tally(),
                            before.queue(),
                            parsed,
                        );
                    }
                    if quit {
                        assert(self.queue() =~= before.queue());
                        return ReadOutcome::Quit;
                    }
                },
            }
        }
    }

    /// Handles what was received where the count of undecodable lines is full and cannot take
    /// another one. Gives nothing where such a line comes up, which ends the handling: the line is
    /// taken out, but not counted.
    pub fn read_at_full_count<F: Fn(&str) -> Option<Message>>(&mut self, parse: F) -> (outcome:
        Option<ReadOutcome>)
        requires
            old(self).wf(),
            old(self).tally() == u8::MAX,
            forall|line: &str| #[trigger] call_requires(parse, (line,)),
        ensures
            final(self).wf(),
            final(self).readbuf.tail() == old(self).readbuf.tail(),
            final(self).readbuf.bytes() == old(self).readbuf.bytes(),
            final(self).stream == old(self).stream,
            final(self).naughtyness == old(self).naughtyness,
            outcome != Some(ReadOutcome::Shutdown),
            ({
                let parses = |text: Seq<char>, parsed: Option<Message>|
                    exists|line: &str|
                        line@ == text && #[trigger] call_ensures(parse, (line,), parsed);
                reads_to(
                    parses,
                    old(self).pending(),
                    old(self).tally(),
                    old(self).queue(),
                    Session {
                        outcome: match outcome {
                            Some(o) => o,
                            None => ReadOutcome::Shutdown,
                        },
                        pending: final(self).pending(),
                        tally: match outcome {
                            Some(_) => old(self).tally(),
                            None => old(self).tally() + 1,
                        },
                        queue: final(self).queue(),
                    },
                )
            }),
    {
        let ghost parses = |text: Seq<char>, parsed: Option<Message>|
                exists|line: &str|
                    line@ == text && #[trigger] call_ensures(parse, (line,), parsed);
        loop
            invariant
                parses == (|text: Seq<char>, parsed: Option<Message>|
                    exists|line: &str|
                        line@ == text && #[trigger] call_ensures(parse, (line,), parsed)),
                self.wf(),
                self.readbuf.tail() == old(self).readbuf.tail(),
                self.readbuf.bytes() == old(self).readbuf.bytes(),
                self.stream == old(self).stream,
                self.naughtyness == old(self).naughtyness,
                self.naughtyness == u8::MAX,
                forall|line: &str| #[trigger] call_requires(parse, (line,)),
                forall|out: Session| #[trigger]
                    reads_to(parses, self.pending(), self.tally(), self.queue(), out) ==> reads_to(
                        parses,
                        old(self).pending(),
                        old(self).tally(),
                        old(self).queue(),
                        out,
                    ),
            decreases self.pending().len(),
        {
            let ghost before = *self;
            let ghost found = scan(before.pending(), before.tally());
            proof {
                lemma_first_line(before.pending());
                if !(found.event is Line) {
                    let out = Session {
                        outcome: if found.event is Shutdown {
                            ReadOutcome::Shutdown
                        } else {
                            ReadOutcome::Rearm
                        },
                        pending: found.pending,
                        tally: found.tally,
                        queue: before.queue(),
                    };
                    assert(reads_to(
                        parses,
                        before.pending(),
                        before.tally(),
                        before.queue(),
                        out,
                    ));
                }
            }
            let parsed = match self.readbuf.find_line_utf8() {
                Ok(Some(line)) => {
                    let parsed = parse(line);
                    assert(call_ensures(parse, (line,), parsed));
                    parsed
                },
                Ok(None) => {
                    return Some(ReadOutcome::Rearm);
                },
                Err(_) => {
                    assert(self.pending() =~= found.pending);
                    return None;
                },
            };
            assert(self.pending() =~= found.pending);
            let quit = self.handle(parsed);
            proof {
                lemma_read_step(
                    parses,
                    before.pending(),
                    before.tally(),
                    before.queue(),
                    parsed,
                );
            }
            if quit {
                assert(self.queue() =~= before.queue());
                return Some(ReadOutcome::Quit);
            }
        }
    }

    /// What the stream is registered for: always for reading, and for writing while something
    /// waits to be sent.
    pub fn registration(&self) -> (r: Registration)
        ensures
            r == (Registration {
                token: IPC_PEER_TOKEN,
                readable: true,
                writable: self.queue().len() > 0,
                mode: Mode::Level,
            }),
    {
        Registration {
            token: IPC_PEER_TOKEN,
            readable: true,
            writable: self.writebuf.len() > 0,
            mode: Mode::Level,
        }
    }

    /// What to write next, `chat_fd` being the descriptor of the chat connection, if there is one.
    pub fn write(&self, chat_fd: Option<i32>) -> (step: WriteStep)
        ensures
            step is Idle <==> self.queue().len() == 0,
            self.queue().len() > 0 ==> match self.queue()[0] {
                Sendable::Message(m) => step matches WriteStep::Send(bytes) && bytes@ == m.wire(),
                Sendable::Fds => step matches WriteStep::SendFds(fds) && fds@ == fds_of(chat_fd),
            },
            self.writebuf@.len() > 0 && self.writebuf@[0] == Sendable::Fds ==> match chat_fd {
                Some(fd) => step matches WriteStep::SendFds(fds) && fds@.len() == 1 && fds@[0]
                    == fd,
                None => step matches WriteStep::SendFds(fds) && fds@.len() == 0,
            },
    {
        if self.writebuf.len() == 0 {
            return WriteStep::Idle;
        }
        match self.writebuf[0] {
            Sendable::Message(msg) => WriteStep::Send(msg.encode()),
            Sendable::Fds => {
                let mut fds: Vec<i32> = Vec::new();
                if let Some(fd) = chat_fd {
                    fds.push(fd);
                }
                assert(fds@ =~= fds_of(chat_fd));
                WriteStep::SendFds(fds)
            },
        }
    }

    /// Takes the outcome of writing what `write` gave.
    pub fn wrote(&mut self, result: Result<usize, ErrorKind>) -> (next: Wrote)
        requires
            old(self).queue().len() > 0,
        ensures
            next == wrote_next(result),
            final(self).queue() == wrote_queue(old(self).queue(), result),
            match result {
                Ok(_) => next == Wrote::Again && final(self).writebuf@ == old(
                    self,
                ).writebuf@.drop_first(),
                Err(kind) => {
                    &&& final(self).writebuf@ == old(self).writebuf@
                    &&& next == if kind == ErrorKind::Interrupted {
                        Wrote::Again
                    } else if kind == ErrorKind::WouldBlock {
                        Wrote::Blocked
                    } else {
                        Wrote::Failed(kind)
                    }
                },
            },
            final(self).readbuf == old(self).readbuf,
            final(self).naughtyness == old(self).naughtyness,
            final(self).stream == old(self).stream,
    {
        match result {
            Ok(_) => {
                let _ = self.writebuf.pop_front();
                Wrote::Again
            },
            Err(ErrorKind::Interrupted) => Wrote::Again,
            Err(ErrorKind::WouldBlock) => Wrote::Blocked,
            Err(kind) => Wrote::Failed(kind),
        }
    }
}

/// Handling one line that is taken for `parsed` is a step of handling all of them.
proof fn lemma_read_step(
    parses: spec_fn(Seq<char>, Option<Message>) -> bool,
    pending: Seq<u8>,
    tally: nat,
    queue: Seq<Sendable>,
    parsed: Option<Message>,
)
    requires
        scan(pending, tally).event matches LineEvent::Line(text) && parses(text, parsed),
    ensures
        ({
            let found = scan(pending, tally);
            if parsed == Some(Message::Quit) {
                let out = Session {
                    outcome: ReadOutcome::Quit,
                    pending: found.pending,
                    tally: found.tally,
                    queue,
                };
                reads_to(parses, pending, tally, queue, out)
            } else {
                forall|out: Session| #[trigger]
                    reads_to(parses, found.pending, found.tally, queue + reply_to(parsed), out)
                        ==> reads_to(parses, pending, tally, queue, out)
            }
        }),
{
    let text = scan(pending, tally).event->Line_0;
    assert(parses(text, parsed));
}

/// What becomes of a connection attempt.
pub enum Admission<S> {
    /// There was nobody to accept.
    NoPeer,
    /// A peer is connected already: shut this stream down.
    Reject(S),
    /// Register the new connection, then hand it to `attach`.
    Admit(IpcConnection<S>),
}

/// What an event of the peer's stream calls for.
#[derive(Clone, Copy, Debug, PartialEq, Eq, Structural)]
pub enum PeerAction {
    Write,
    Read,
    /// No peer is connected.
    Ignore,
}

/// The listening side: at most one peer is connected at any time.
pub struct Ipc<S> {
    pub peer: Option<IpcConnection<S>>,
}

impl<S> Ipc<S> {
    /// The connected peer's receive buffer is in order.
    pub open spec fn wf(&self) -> bool {
        self.peer matches Some(peer) ==> peer.wf()
    }

    /// Listens, with nobody connected yet.
    pub fn listening() -> (ipc: Self)
        ensures
            ipc.wf(),
            ipc.peer is None,
    {
        Ipc { peer: None }
    }

    /// What the listening socket is registered for.
    pub fn registration() -> (r: Registration)
        ensures
            r == (Registration {
                token: IPC_SERVER_TOKEN,
                readable: true,
                writable: false,
                mode: Mode::Level,
            }),
    {
        Registration {
            token: IPC_SERVER_TOKEN,
            readable: true,
            writable: false,
            mode: Mode::Level,
        }
    }

    /// Whether failing to remove an old socket is worth a report: it is not where there was none.
    pub fn is_removal_problem(kind: ErrorKind) -> (problem: bool)
        ensures
            problem <==> kind != ErrorKind::NotFound,
    {
        kind != ErrorKind::NotFound
    }

    /// Decides what becomes of an accepted stream. A peer that is connected stays connected.
    pub fn connect(&self, accepted: Option<S>) -> (admission: Admission<S>)
        ensures
            match accepted {
                None => admission is NoPeer,
                Some(stream) => if self.peer is Some {
                    admission == Admission::<S>::Reject(stream)
                } else {
                    admission matches Admission::Admit(conn) && conn.is_fresh(stream)
                },
            },
            admission matches Admission::Admit(conn) ==> {
                &&& accepted == Some(conn.stream)
                &&& conn.naughtyness == 0
                &&& conn.writebuf@.len() == 0
                &&& conn.readbuf.pending().len() == 0
            },
    {
        match accepted {
            None => Admission::NoPeer,
            Some(stream) => {
                if self.peer.is_some() {
                    Admission::Reject(stream)
                } else {
                    Admission::Admit(IpcConnection::from_stream(stream))
                }
            },
        }
    }

    /// Keeps a connection that `connect` admitted.
    pub fn attach(&mut self, conn: IpcConnection<S>)
        requires
            old(self).peer is None,
            conn.wf(),
        ensures
            final(self).wf(),
            final(self).peer == Some(conn),
    {
        self.peer = Some(conn);
    }

    /// Decides what an event of the peer's stream calls for.
    pub fn peer_event(&self, ready: Readiness) -> (action: PeerAction)
        ensures
            action == if self.peer is None {
                PeerAction::Ignore
            } else if ready.writable {
                PeerAction::Write
            } else {
                PeerAction::Read
            },
    {
        if self.peer.is_some() {
            if ready.writable {
                PeerAction::Write
            } else {
                PeerAction::Read
            }
        } else {
            PeerAction::Ignore
        }
    }

    /// Gives the connection of a lost peer up.
    pub fn lost_peer(&mut self) -> (lost: IpcConnection<S>)
        requires
            old(self).wf(),
            old(self).peer is Some,
        ensures
            final(self).wf(),
            final(self).peer is None,
            old(self).peer == Some(lost),
            lost.wf(),
    {
        self.peer.take().unwrap()
    }
}

/// The count never falls, exceeds neither the limit nor its old value by more than one, and rises
/// to the limit or over it only where the search ends with a shutdown; and a search that finds
/// anything takes bytes out.
pub proof fn lemma_scan_bounds(pending: Seq<u8>, tally: nat)
    ensures
        tally <= scan(pending, tally).tally,
        scan(pending, tally).tally <= tally + 1 || scan(pending, tally).tally <= NAUGHTY_LIMIT,
        scan(pending, tally).tally > tally && scan(pending, tally).tally >= NAUGHTY_LIMIT ==> scan(
            pending,
            tally,
        ).event is Shutdown,
        scan(pending, tally).event is Drained || scan(pending, tally).pending.len() < pending.len(),
    decreases pending.len(),
{
    lemma_first_line(pending);
    if let Some(line) = first_line(pending) {
        lemma_scan_bounds(pending.skip(line.len() as int), tally + 1);
    }
}

/// A connection with nothing to look back on: its stream is the one it was made of, nothing is due
/// to the peer, no line of it was refused, and none of its bytes waits to be looked at.
pub proof fn law_fresh_connection_owes_nothing<S>(conn: IpcConnection<S>, stream: S)
    ensures
        conn.is_fresh(stream) <==> {
            &&& conn.stream == stream
            &&& conn.writebuf@.len() == 0
            &&& conn.naughtyness == 0
            &&& conn.readbuf.wf()
            &&& conn.readbuf.head() == 0
            &&& conn.readbuf.tail() == 0
        },
        conn.is_fresh(stream) ==> conn.readbuf.pending().len() == 0,
{
    if conn.writebuf@.len() == 0 && conn.readbuf.head() == 0 && conn.readbuf.tail() == 0
        && conn.readbuf.wf() {
        assert(conn.queue() =~= Seq::<Sendable>::empty());
        assert(conn.pending() =~= Seq::<u8>::empty());
    }
}

/// What is said of a connection is said of what it holds.
pub proof fn law_connection_is_what_it_holds<S>(conn: IpcConnection<S>)
    ensures
        conn.queue() == conn.writebuf@,
        conn.tally() == conn.naughtyness,
        conn.pending() == conn.readbuf.pending(),
        conn.wf() <==> conn.readbuf.wf(),
{
}

/// A listener is in order unless the peer that it holds is not.
pub proof fn law_listener_is_in_order_with_its_peer<S>(ipc: Ipc<S>)
    ensures
        ipc.peer is None ==> ipc.wf(),
        ipc.peer is Some ==> (ipc.wf() <==> ipc.peer->0.readbuf.wf()),
{
}

/// An answer is one thing at most: a pong for a ping, the descriptors for a request for them, and
/// nothing for anything else.
pub proof fn law_only_pings_and_requests_are_answered(parsed: Option<Message>)
    ensures
        parsed == Some(Message::Ping) <==> reply_to(parsed).len() == 1 && reply_to(parsed)[0]
            == Sendable::Message(Message::Pong),
        parsed == Some(Message::RequestFds) <==> reply_to(parsed).len() == 1 && reply_to(parsed)[0]
            == Sendable::Fds,
        parsed != Some(Message::Ping) && parsed != Some(Message::RequestFds) <==> reply_to(
            parsed,
        ).len() == 0,
{
}

/// The descriptor of the chat connection is handed over alone, whatever its number, and without a
/// connection nothing is.
pub proof fn law_only_the_chat_descriptor_is_handed_over(chat_fd: Option<i32>)
    ensures
        chat_fd matches Some(fd) ==> fds_of(chat_fd).len() == 1 && fds_of(chat_fd)[0] == fd,
        chat_fd is None ==> fds_of(chat_fd).len() == 0,
{
}

/// The first entry of the queue leaves it exactly where the write succeeded, and nothing else
/// changes; only a stream that takes no more, or fails, ends the writing.
pub proof fn law_only_success_shortens_the_queue(
    queue: Seq<Sendable>,
    result: Result<usize, ErrorKind>,
)
    requires
        queue.len() > 0,
    ensures
        result is Ok ==> seq![queue[0]] + wrote_queue(queue, result) == queue,
        result is Err ==> wrote_queue(queue, result) == queue,
        wrote_next(result) == Wrote::Again <==> result is Ok || result->Err_0
            == ErrorKind::Interrupted,
        wrote_next(result) == Wrote::Blocked <==> result is Err && result->Err_0
            == ErrorKind::WouldBlock,
        wrote_next(result) matches Wrote::Failed(kind) ==> result is Err && result->Err_0 == kind,
{
    if result is Ok {
        assert(seq![queue[0]] + wrote_queue(queue, result) =~= queue);
    }
}

/// A read that would block is no failure, and any other error is.
pub proof fn law_blocking_is_no_failure(filled: Result<usize, ErrorKind>)
    ensures
        filled is Ok ==> !read_failed(filled),
        filled matches Err(kind) ==> (read_failed(filled) <==> kind != ErrorKind::WouldBlock),
{
}

/// A line that was found keeps its text.
pub proof fn law_found_text_is_kept(next: NextLine)
    ensures
        next matches NextLine::Line(text) ==> next@ == LineEvent::Line(text@),
        next is Shutdown <==> next@ is Shutdown,
        next is Drained <==> next@ is Drained,
{
}

} // verus!
