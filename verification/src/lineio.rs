//! A fixed buffer that collects received bytes and hands them out line by line.
use crate::error::{invalid_data, ErrorKind, Failure};
use crate::lines::{first_line, is_line, lemma_first_line, lemma_first_line_unique, NEWLINE};
use crate::text::{decimal, decimal_text};
use vstd::prelude::*;
use vstd::utf8::{decode_utf8, encode_utf8, encode_utf8_decode_utf8, valid_utf8};

verus! {

/// How many bytes a buffer holds.
pub const CAPACITY: usize = 16384;

/// Specifies `memchr::memchr`: the index of the first `needle` in `haystack`, or `None` where
/// there is none.
pub assume_specification[ memchr::memchr ](needle: u8, haystack: &[u8]) -> (found: Option<usize>)
    ensures
        match found {
            Some(i) => {
                &&& i < haystack@.len()
                &&& haystack@[i as int] == needle
                &&& forall|j: int| 0 <= j < i ==> haystack@[j] != needle
            },
            None => !haystack@.contains(needle),
        },
;

/// Declares `std::str::Utf8Error`, which carries nothing that the library reads.
#[verifier::external_type_specification]
#[verifier::external_body]
pub struct ExUtf8Error(std::str::Utf8Error);

/// Specifies `std::str::from_utf8`: it succeeds exactly on valid UTF-8, and then the string's
/// bytes are the given ones.
pub assume_specification[ std::str::from_utf8 ](v: &[u8]) -> (res: Result<
    &str,
    std::str::Utf8Error,
>)
    ensures
        res is Ok <==> valid_utf8(v@),
        res matches Ok(s) ==> encode_utf8(s@) == v@,
;

/// Received bytes between `head` and `tail` that were not handed out as lines yet.
pub struct LineIo {
    head: usize,
    tail: usize,
    buf: [u8; CAPACITY],
}

/// Room for the next read, as `LineIo::prepare_read` leaves it.
#[derive(Clone, Copy, Debug, PartialEq, Eq, Structural)]
pub struct Room {
    /// How many bytes the next read may deliver.
    pub space: usize,
    /// Whether unread bytes were thrown away to make room.
    pub discarded: bool,
}

/// What became of one answer of a reader.
#[derive(Clone, Copy, Debug, PartialEq, Eq, Structural)]
pub enum ReadFrom {
    /// So many bytes were appended.
    Read(usize),
    /// The read was interrupted: ask the reader again.
    Retry,
    /// The read failed: nothing was appended.
    Failed(ErrorKind),
}

/// Head and tail after realigning: an empty buffer starts over, and bytes whose head has reached
/// the upper half of the buffer move to its start.
pub open spec fn realigned(head: nat, tail: nat) -> (nat, nat) {
    if head == tail {
        (0, 0)
    } else if head >= CAPACITY / 2 {
        (0, (tail - head) as nat)
    } else {
        (head, tail)
    }
}

/// The buffer's bytes after realigning: where unread bytes move, they are copied over the start of
/// the buffer, and nothing else is written.
pub open spec fn realigned_bytes(head: nat, tail: nat, bytes: Seq<u8>) -> Seq<u8> {
    if head != tail && head >= CAPACITY / 2 {
        bytes.subrange(head as int, tail as int) + bytes.skip(tail - head)
    } else {
        bytes
    }
}

/// Realigning leaves no room at all, so that the bytes in the buffer have to go.
pub open spec fn is_stuck(head: nat, tail: nat) -> bool {
    realigned(head, tail).1 >= CAPACITY
}

/// The failure reported for a line that is not UTF-8.
pub open spec fn not_utf8() -> Failure {
    Failure { kind: ErrorKind::InvalidData, message: "stream did not contain valid UTF-8" }
}

impl LineIo {
    /// Where the first byte that was not handed out stands in the buffer.
    pub closed spec fn head(&self) -> nat {
        self.head as nat
    }

    /// Where the next received byte goes.
    pub closed spec fn tail(&self) -> nat {
        self.tail as nat
    }

    /// All bytes of the buffer, those in front of the head and from the tail on included.
    pub closed spec fn bytes(&self) -> Seq<u8> {
        self.buf@
    }

    /// The bytes received and not handed out yet.
    pub open spec fn pending(&self) -> Seq<u8> {
        self.bytes().subrange(self.head() as int, self.tail() as int)
    }

    /// The unread bytes lie inside the buffer.
    pub open spec fn wf(&self) -> bool {
        &&& self.head() <= self.tail() <= CAPACITY
        &&& self.bytes().len() == CAPACITY
    }

    /// An empty buffer.
    pub fn new() -> (io: Self)
        ensures
            io.wf(),
            io.head() == 0,
            io.tail() == 0,
            io.pending() == Seq::<u8>::empty(),
            io.bytes() == Seq::new(CAPACITY as nat, |i: int| 0u8),
    {
        LineIo { head: 0, tail: 0, buf: [0u8; CAPACITY] }
    }

    /// Makes room for the next read: realigns the buffer, and where that leaves no room because
    /// an overlong line fills the buffer, throws the unread bytes away.
    pub fn prepare_read(&mut self) -> (room: Room)
        requires
            old(self).wf(),
        ensures
            final(self).wf(),
            room.space == CAPACITY - final(self).tail(),
            room.space > 0,
            room.discarded <==> old(self).tail() == 16384 && old(self).head() < 8192,
            !room.discarded ==> final(self).pending() == old(self).pending(),
            room.discarded ==> final(self).pending().len() == 0,
            room.discarded <==> is_stuck(old(self).head(), old(self).tail()),
            final(self).bytes() == realigned_bytes(
                old(self).head(),
                old(self).tail(),
                old(self).bytes(),
            ),
            if is_stuck(old(self).head(), old(self).tail()) {
                &&& final(self).head() == 0
                &&& final(self).tail() == 0
                &&& final(self).pending() == Seq::<u8>::empty()
            } else {
                &&& (final(self).head(), final(self).tail()) == realigned(
                    old(self).head(),
                    old(self).tail(),
                )
                &&& final(self).pending() == old(self).pending()
            },
    {
        self.realign_buffer();
        let discarded = self.tail >= CAPACITY;
        if discarded {
            self.head = 0;
            self.tail = 0;
            assert(self.pending() =~= Seq::<u8>::empty());
        }
        Room { space: CAPACITY - self.tail, discarded }
    }

    /// Takes a reader's answer: appends the bytes that it delivered, asks for another attempt
    /// after an interruption, and passes every other failure on.
    pub fn read_from(&mut self, answer: Result<&[u8], ErrorKind>) -> (outcome: ReadFrom)
        requires
            old(self).wf(),
            answer matches Ok(data) ==> data@.len() <= CAPACITY - old(self).tail(),
        ensures
            final(self).wf(),
            match answer {
                Ok(data) => {
                    &&& outcome == ReadFrom::Read(data@.len() as usize)
                    &&& final(self).pending() == old(self).pending() + data@
                    &&& final(self).head() == old(self).head()
                    &&& final(self).tail() == old(self).tail() + data@.len()
                    &&& final(self).bytes() == old(self).bytes().take(old(self).tail() as int)
                        + data@ + old(self).bytes().skip(final(self).tail() as int)
                },
                Err(ErrorKind::Interrupted) => outcome == ReadFrom::Retry && *final(self) == *old(
                    self,
                ),
                Err(kind) => outcome == ReadFrom::Failed(kind) && *final(self) == *old(self),
            },
    {
        match answer {
            Ok(data) => {
                let n: usize = data.len();
                let mut i: usize = 0;
                while i < n
                    invariant
                        n == data@.len(),
                        i <= n,
                        n <= CAPACITY - self.tail,
                        self.head == old(self).head,
                        self.tail == old(self).tail,
                        forall|j: int| 0 <= j < self.tail ==> self.buf@[j] == old(self).buf@[j],
                        forall|j: int| 0 <= j < i ==> self.buf@[self.tail + j] == data@[j],
                        forall|j: int|
                            self.tail + i <= j < CAPACITY ==> self.buf@[j] == old(self).buf@[j],
                    decreases n - i,
                {
                    self.buf[self.tail + i] = data[i];
                    i = i + 1;
                }
                self.tail = self.tail + n;
                assert(self.bytes() =~= old(self).bytes().take(old(self).tail() as int) + data@ + old(
                    self,
                ).bytes().skip(self.tail() as int));
                assert(self.pending() =~= old(self).pending() + data@);
                ReadFrom::Read(n)
            },
            Err(ErrorKind::Interrupted) => ReadFrom::Retry,
            Err(kind) => ReadFrom::Failed(kind),
        }
    }

    /// Takes the first complete line out of the buffer, its newline included.
    pub fn find_line(&mut self) -> (line: Option<&[u8]>)
        requires
            old(self).wf(),
        ensures
            final(self).wf(),
            final(self).tail() == old(self).tail(),
            final(self).bytes() == old(self).bytes(),
            match line {
                Some(l) => {
                    &&& is_line(l@)
                    &&& l@.len() > 0
                    &&& l@[l@.len() - 1] == 10
                    &&& forall|i: int| 0 <= i < l@.len() - 1 ==> l@[i] != 10
                    &&& first_line(old(self).pending()) == Some(l@)
                    &&& old(self).pending() == l@ + final(self).pending()
                    &&& final(self).head() == old(self).head() + l@.len()
                },
                None => {
                    &&& first_line(old(self).pending()) is None
                    &&& !old(self).pending().contains(NEWLINE)
                    &&& *final(self) == *old(self)
                },
            },
    {
        proof {
            lemma_first_line(self.pending());
        }
        if self.head < self.tail {
            match memchr::memchr(NEWLINE, &self.buf[self.head..self.tail]) {
                Some(i) => {
                    let line = &self.buf[self.head..self.head + i + 1];
                    let ghost before = *self;
                    self.head = self.head + i + 1;
                    proof {
                        assert(line@ =~= before.pending().take(i + 1));
                        assert(before.pending() =~= line@ + self.pending());
                        lemma_first_line_unique(line@, self.pending());
                    }
                    Some(line)
                },
                None => None,
            }
        } else {
            None
        }
    }

    /// Takes the first complete line out of the buffer as text. A line that is not UTF-8 is taken
    /// out too, and reported.
    pub fn find_line_utf8(&mut self) -> (line: Result<Option<&str>, Failure>)
        requires
            old(self).wf(),
        ensures
            final(self).wf(),
            final(self).tail() == old(self).tail(),
            final(self).bytes() == old(self).bytes(),
            match first_line(old(self).pending()) {
                Some(l) => {
                    &&& is_line(l)
                    &&& old(self).pending() == l + final(self).pending()
                    &&& final(self).head() == old(self).head() + l.len()
                    &&& line is Ok <==> valid_utf8(l)
                    &&& line matches Ok(text) ==> text is Some && text->0@ == decode_utf8(l)
                    &&& line matches Err(e) ==> e == not_utf8() && e.kind == ErrorKind::InvalidData
                        && e.message@ == "stream did not contain valid UTF-8"@
                },
                None => {
                    &&& line is Ok
                    &&& line->Ok_0 is None
                    &&& !old(self).pending().contains(NEWLINE)
                    &&& *final(self) == *old(self)
                },
            },
    {
        match self.find_line() {
            Some(line) => match std::str::from_utf8(line) {
                Ok(text) => {
                    proof {
                        encode_utf8_decode_utf8(text@);
                    }
                    Ok(Some(text))
                },
                Err(_) => Err(invalid_data("stream did not contain valid UTF-8")),
            },
            None => Ok(None),
        }
    }

    /// Moves the unread bytes to the start of the buffer where they have reached its upper half.
    pub fn realign_buffer(&mut self)
        requires
            old(self).wf(),
        ensures
            final(self).wf(),
            (final(self).head(), final(self).tail()) == realigned(
                old(self).head(),
                old(self).tail(),
            ),
            final(self).pending() == old(self).pending(),
            final(self).bytes() == realigned_bytes(
                old(self).head(),
                old(self).tail(),
                old(self).bytes(),
            ),
            realigned(old(self).head(), old(self).tail()) == (old(self).head(), old(self).tail())
                ==> *final(self) == *old(self),
            old(self).head() == old(self).tail() ==> final(self).head() == 0 && final(self).tail()
                == 0,
            old(self).head() < old(self).tail() && old(self).head() >= 8192 ==> {
                &&& final(self).head() == 0
                &&& final(self).tail() == old(self).tail() - old(self).head()
            },
            old(self).head() < old(self).tail() && old(self).head() < 8192 ==> *final(self)
                == *old(self),
    {
        if self.head == self.tail {
            self.head = 0;
            self.tail = 0;
        } else if self.head >= CAPACITY / 2 {
            let n: usize = self.tail - self.head;
            let mut i: usize = 0;
            while i < n
                invariant
                    n == self.tail - self.head,
                    i <= n <= self.head,
                    self.tail <= CAPACITY,
                    self.head == old(self).head,
                    self.tail == old(self).tail,
                    forall|j: int| 0 <= j < i ==> self.buf@[j] == old(self).buf@[self.head + j],
                    forall|j: int| i <= j < CAPACITY ==> self.buf@[j] == old(self).buf@[j],
                decreases n - i,
            {
                self.buf[i] = self.buf[self.head + i];
                i = i + 1;
            }
            self.tail = n;
            self.head = 0;
            assert(self.bytes() =~= realigned_bytes(
                old(self).head(),
                old(self).tail(),
                old(self).bytes(),
            ));
        }
        assert(self.pending() =~= old(self).pending());
    }

    /// Where the unread bytes stand, as text.
    pub fn describe(&self) -> (text: String)
        ensures
            text@ == "LineIo { head: "@ + decimal_text(self.head()) + ", tail: "@ + decimal_text(
                self.tail(),
            ) + " }"@,
    {
        let mut text = String::from_str("LineIo { head: ");
        text.append(decimal(self.head).as_str());
        text.append(", tail: ");
        text.append(decimal(self.tail).as_str());
        text.append(" }");
        text
    }
}

/// Realigning a second time changes nothing: head, tail and every byte of the buffer stay as the
/// first time left them.
pub proof fn law_realigning_again_changes_nothing(head: nat, tail: nat, bytes: Seq<u8>)
    requires
        head <= tail <= CAPACITY,
    ensures
        ({
            let (h, t) = realigned(head, tail);
            let b = realigned_bytes(head, tail, bytes);
            &&& realigned(h, t) == (h, t)
            &&& realigned_bytes(h, t, b) == b
        }),
{
}

/// Making room never throws away unread bytes that fill no more than half of the buffer.
pub proof fn law_short_remainder_is_kept(io: LineIo)
    requires
        io.wf(),
        io.pending().len() <= CAPACITY / 2,
    ensures
        !is_stuck(io.head(), io.tail()),
{
}

/// The beginning of a line that in the end takes up no more than half of the buffer is never
/// thrown away, however its bytes arrive.
pub proof fn law_short_lines_are_never_discarded(io: LineIo, more: Seq<u8>)
    requires
        io.wf(),
        !io.pending().contains(NEWLINE),
        first_line(io.pending() + more) matches Some(line) && line.len() <= CAPACITY / 2,
    ensures
        !is_stuck(io.head(), io.tail()),
{
    let bytes = io.pending() + more;
    lemma_first_line(bytes);
    let line = first_line(bytes)->0;
    assert(bytes[line.len() - 1] == line.last());
    if line.len() <= io.pending().len() {
        assert(io.pending()[line.len() - 1] == NEWLINE);
    }
    law_short_remainder_is_kept(io);
}

/// Making room throws bytes away exactly where the buffer is filled to its end and less than half
/// of it was handed out.
pub proof fn law_only_an_overlong_line_is_discarded(io: LineIo)
    requires
        io.wf(),
    ensures
        is_stuck(io.head(), io.tail()) <==> io.tail() == CAPACITY && io.head() < CAPACITY / 2,
{
}

/// An empty buffer starts over; unread bytes whose head has reached the upper half move to the
/// start, all of them and in order, over bytes that were handed out; nothing else moves.
pub proof fn law_realigning_moves_only_unread_bytes(head: nat, tail: nat, bytes: Seq<u8>)
    requires
        head <= tail <= 16384,
        bytes.len() == 16384,
    ensures
        ({
            let (h, t) = realigned(head, tail);
            let b = realigned_bytes(head, tail, bytes);
            &&& b.len() == bytes.len()
            &&& t - h == tail - head
            &&& h == if head == tail || head >= 8192 {
                0
            } else {
                head
            }
            &&& b.subrange(h as int, t as int) == bytes.subrange(head as int, tail as int)
            &&& forall|i: int| t <= i < 16384 ==> b[i] == bytes[i]
            &&& h == head || head == tail ==> b == bytes
        }),
{
}

/// The unread bytes are those between head and tail, which lie in this order inside the buffer.
pub proof fn law_unread_bytes_lie_between_head_and_tail(io: LineIo)
    ensures
        io.wf() <==> io.head() <= io.tail() <= 16384 && io.bytes().len() == 16384,
        io.wf() ==> io.pending().len() == io.tail() - io.head() && forall|i: int|
            0 <= i < io.pending().len() ==> io.pending()[i] == io.bytes()[io.head() + i],
{
}

/// The failure for a line that is not text says so.
pub proof fn law_failure_names_the_encoding()
    ensures
        not_utf8().kind == ErrorKind::InvalidData,
        not_utf8().message@ == "stream did not contain valid UTF-8"@,
{
}

} // verus!
