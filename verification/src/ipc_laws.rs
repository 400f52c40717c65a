//! What holds of whole conversations with a peer.
use crate::error::ErrorKind;
use crate::ipc::{
    lemma_scan_bounds, reads_to, reply_to, scan, wrote_next, wrote_queue, IpcConnection, LineEvent,
    ReadOutcome, Session, Wrote, NAUGHTY_LIMIT,
};
use crate::lines::{
    first_line, is_line, join, law_split_is_irrelevant, lemma_first_line, lemma_first_line_unique,
    lines_of, rest_of, NEWLINE,
};
use crate::message::{law_message_is_one_line, Message, Sendable};
use vstd::prelude::*;
use vstd::utf8::{decode_utf8, valid_utf8};

verus! {

/// Where handling `pending` ends, `parse` being the message that a text holds.
pub open spec fn session_of(
    parse: spec_fn(Seq<char>) -> Option<Message>,
    pending: Seq<u8>,
    tally: nat,
    queue: Seq<Sendable>,
) -> Session
    decreases pending.len(),
{
    proof {
        lemma_scan_bounds(pending, tally);
    }
    let found = scan(pending, tally);
    let end = |outcome: ReadOutcome|
        Session { outcome, pending: found.pending, tally: found.tally, queue };
    match found.event {
        LineEvent::Drained => end(ReadOutcome::Rearm),
        LineEvent::Shutdown => end(ReadOutcome::Shutdown),
        LineEvent::Line(text) => if parse(text) == Some(Message::Quit) {
            end(ReadOutcome::Quit)
        } else {
            session_of(parse, found.pending, found.tally, queue + reply_to(parse(text)))
        },
    }
}

/// What the first line of text was taken for on the way to `out`.
proof fn lemma_step_of(
    parses: spec_fn(Seq<char>, Option<Message>) -> bool,
    pending: Seq<u8>,
    tally: nat,
    queue: Seq<Sendable>,
    out: Session,
) -> (parsed: Option<Message>)
    requires
        reads_to(parses, pending, tally, queue, out),
        scan(pending, tally).event is Line,
    ensures
        parses(scan(pending, tally).event->Line_0, parsed),
        ({
            let found = scan(pending, tally);
            if parsed == Some(Message::Quit) {
                out == (Session {
                    outcome: ReadOutcome::Quit,
                    pending: found.pending,
                    tally: found.tally,
                    queue,
                })
            } else {
                reads_to(parses, found.pending, found.tally, queue + reply_to(parsed), out)
            }
        }),
{
    let found = scan(pending, tally);
    choose|parsed: Option<Message>|
        {
            &&& #[trigger] parses(found.event->Line_0, parsed)
            &&& if parsed == Some(Message::Quit) {
                out == (Session {
                    outcome: ReadOutcome::Quit,
                    pending: found.pending,
                    tally: found.tally,
                    queue,
                })
            } else {
                reads_to(parses, found.pending, found.tally, queue + reply_to(parsed), out)
            }
        }
}

/// Where a text can be taken for one thing only, handling what was received can end in one way
/// only.
pub proof fn law_session_is_determined(
    parses: spec_fn(Seq<char>, Option<Message>) -> bool,
    meaning: spec_fn(Seq<char>) -> Option<Message>,
    pending: Seq<u8>,
    tally: nat,
    queue: Seq<Sendable>,
    out: Session,
)
    requires
        forall|text: Seq<char>, parsed: Option<Message>| #[trigger]
            parses(text, parsed) ==> parsed == meaning(text),
        reads_to(parses, pending, tally, queue, out),
    ensures
        out == session_of(meaning, pending, tally, queue),
    decreases pending.len(),
{
    lemma_scan_bounds(pending, tally);
    let found = scan(pending, tally);
    if found.event is Line {
        let parsed = lemma_step_of(parses, pending, tally, queue, out);
        if parsed != Some(Message::Quit) {
            law_session_is_determined(
                parses,
                meaning,
                found.pending,
                found.tally,
                queue + reply_to(parsed),
                out,
            );
        }
    }
}

/// However lines are parsed: the queue is only ever extended, the count of undecodable lines
/// never falls, what remains is the end of what was received, the peer is cut off exactly where a
/// further undecodable line brings the count to the limit, and waiting for the peer again means
/// that no complete line is left.
pub proof fn law_session_keeps_faith(
    parses: spec_fn(Seq<char>, Option<Message>) -> bool,
    pending: Seq<u8>,
    tally: nat,
    queue: Seq<Sendable>,
    out: Session,
)
    requires
        reads_to(parses, pending, tally, queue, out),
    ensures
        queue.is_prefix_of(out.queue),
        out.pending.is_suffix_of(pending),
        tally <= out.tally,
        out.outcome == ReadOutcome::Shutdown <==> out.tally > tally && out.tally >= NAUGHTY_LIMIT,
        out.outcome == ReadOutcome::Rearm ==> !out.pending.contains(NEWLINE),
        !(out.outcome is Failed),
    decreases pending.len(),
{
    lemma_scan_bounds(pending, tally);
    lemma_scan_takes_front(pending, tally);
    let found = scan(pending, tally);
    if found.event is Line {
        let parsed = lemma_step_of(parses, pending, tally, queue, out);
        if parsed != Some(Message::Quit) {
            let longer = queue + reply_to(parsed);
            law_session_keeps_faith(parses, found.pending, found.tally, longer, out);
            assert(queue =~= longer.take(queue.len() as int));
            assert(queue =~= out.queue.take(queue.len() as int));
            lemma_suffix_of_suffix(out.pending, found.pending, pending);
        }
    }
}

/// How many of `lines` are not text.
pub open spec fn undecodable(lines: Seq<Seq<u8>>) -> nat
    decreases lines.len(),
{
    if lines.len() == 0 {
        0
    } else {
        let others = undecodable(lines.drop_first());
        if valid_utf8(lines[0]) {
            others
        } else {
            others + 1
        }
    }
}

/// What was taken out of `before` where `after` remains of it.
pub open spec fn taken(before: Seq<u8>, after: Seq<u8>) -> Seq<u8> {
    before.take(before.len() - after.len())
}

/// Handling what was received takes out whole lines, and the count rises by exactly as many of
/// them as are not text: lines that are text never count, whatever they are taken for.
pub proof fn law_every_undecodable_line_counts_once(
    parses: spec_fn(Seq<char>, Option<Message>) -> bool,
    pending: Seq<u8>,
    tally: nat,
    queue: Seq<Sendable>,
    out: Session,
)
    requires
        reads_to(parses, pending, tally, queue, out),
    ensures
        taken(pending, out.pending) + out.pending == pending,
        rest_of(taken(pending, out.pending)) == Seq::<u8>::empty(),
        out.tally == tally + undecodable(lines_of(taken(pending, out.pending))),
    decreases pending.len(),
{
    lemma_scan_bounds(pending, tally);
    lemma_scan_counts(pending, tally);
    let found = scan(pending, tally);
    if found.event is Line {
        let parsed = lemma_step_of(parses, pending, tally, queue, out);
        if parsed != Some(Message::Quit) {
            law_every_undecodable_line_counts_once(
                parses,
                found.pending,
                found.tally,
                queue + reply_to(parsed),
                out,
            );
            let first = taken(pending, found.pending);
            let later = taken(found.pending, out.pending);
            assert(taken(pending, out.pending) =~= first + later);
            assert(pending =~= first + later + out.pending);
            law_split_is_irrelevant(first, later);
            assert(rest_of(first) + later =~= later);
            lemma_undecodable_of_parts(lines_of(first), lines_of(later));
        }
    }
}

/// A search takes out whole lines and counts those of them that are not text.
proof fn lemma_scan_counts(pending: Seq<u8>, tally: nat)
    ensures
        ({
            let found = scan(pending, tally);
            let front = taken(pending, found.pending);
            &&& found.pending.len() <= pending.len()
            &&& front + found.pending == pending
            &&& rest_of(front) == Seq::<u8>::empty()
            &&& found.tally == tally + undecodable(lines_of(front))
        }),
    decreases pending.len(),
{
    let found = scan(pending, tally);
    let front = taken(pending, found.pending);
    let none = Seq::<u8>::empty();
    lemma_first_line(pending);
    lemma_first_line(none);
    assert(undecodable(lines_of(none)) == 0);
    assert(rest_of(none) =~= none);
    if let Some(line) = first_line(pending) {
        let rest = pending.skip(line.len() as int);
        let skipped = if !valid_utf8(line) && tally + 1 < NAUGHTY_LIMIT {
            lemma_scan_counts(rest, tally + 1);
            taken(rest, found.pending)
        } else {
            none
        };
        assert(front =~= line + skipped);
        lemma_first_line_unique(line, skipped);
        assert(lines_of(front) =~= seq![line] + lines_of(skipped));
        assert(lines_of(front).drop_first() =~= lines_of(skipped));
        assert(front + found.pending =~= pending);
    } else {
        assert(front =~= none);
        assert(front + found.pending =~= pending);
    }
}

/// The lines of two parts that are not text are those of the one and those of the other.
proof fn lemma_undecodable_of_parts(a: Seq<Seq<u8>>, b: Seq<Seq<u8>>)
    ensures
        undecodable(a + b) == undecodable(a) + undecodable(b),
    decreases a.len(),
{
    if a.len() == 0 {
        assert(a + b =~= b);
    } else {
        lemma_undecodable_of_parts(a.drop_first(), b);
        assert((a + b).drop_first() =~= a.drop_first() + b);
    }
}

/// One call that handles what was received: what it finds, how it takes texts, and what it leaves
/// behind.
pub struct Call {
    pub parses: spec_fn(Seq<char>, Option<Message>) -> bool,
    pub pending: Seq<u8>,
    pub queue: Seq<Sendable>,
    pub out: Session,
}

/// The count that the first `n` of `calls` lead to on a fresh connection.
pub open spec fn tally_after(calls: Seq<Call>, n: int) -> nat {
    if n <= 0 {
        0
    } else {
        calls[n - 1].out.tally
    }
}

/// A call that starts with the count `tally` can end like this: it handles what it finds, or leaves
/// everything alone as the stream failed.
pub open spec fn is_call_from(call: Call, tally: nat) -> bool {
    ||| reads_to(call.parses, call.pending, tally, call.queue, call.out)
    ||| {
        &&& call.out.outcome is Failed
        &&& call.out.pending == call.pending
        &&& call.out.tally == tally
        &&& call.out.queue == call.queue
    }
}

/// `calls` were made one after the other on a fresh connection, each going on with the count of
/// the one before. What is found, and what waits to be sent, may change in between.
pub open spec fn is_conversation(calls: Seq<Call>) -> bool {
    forall|i: int|
        0 <= i < calls.len() ==> is_call_from(#[trigger] calls[i], tally_after(calls, i))
}

/// How many undecodable lines `calls` have met in all.
pub open spec fn undecodable_met(calls: Seq<Call>) -> nat
    decreases calls.len(),
{
    if calls.len() == 0 {
        0
    } else {
        let call = calls.last();
        undecodable_met(calls.drop_last()) + undecodable(
            lines_of(taken(call.pending, call.out.pending)),
        )
    }
}

/// Over any number of calls the count is the number of undecodable lines met so far, which neither
/// good lines nor new calls set back, and the peer was cut off exactly if that number has reached
/// the limit.
pub proof fn law_peer_is_cut_off_at_the_limit(calls: Seq<Call>)
    requires
        is_conversation(calls),
    ensures
        tally_after(calls, calls.len() as int) == undecodable_met(calls),
        (exists|i: int|
            0 <= i < calls.len() && (#[trigger] calls[i]).out.outcome == ReadOutcome::Shutdown)
            <==> undecodable_met(calls) >= NAUGHTY_LIMIT,
    decreases calls.len(),
{
    if calls.len() > 0 {
        let n = calls.len() as int;
        let earlier = calls.drop_last();
        let call = calls[n - 1];
        assert forall|i: int| 0 <= i < n implies tally_after(earlier, i) == #[trigger] tally_after(
            calls,
            i,
        ) by {
            if i > 0 {
                assert(earlier[i - 1] == calls[i - 1]);
            }
        }
        assert forall|i: int| 0 <= i < earlier.len() implies is_call_from(
            #[trigger] earlier[i],
            tally_after(earlier, i),
        ) by {
            assert(is_call_from(calls[i], tally_after(calls, i)));
        }
        law_peer_is_cut_off_at_the_limit(earlier);
        let before = tally_after(calls, n - 1);
        assert(is_call_from(call, before));
        assert(before == tally_after(earlier, n - 1));
        if reads_to(call.parses, call.pending, before, call.queue, call.out) {
            law_every_undecodable_line_counts_once(
                call.parses,
                call.pending,
                before,
                call.queue,
                call.out,
            );
            law_session_keeps_faith(call.parses, call.pending, before, call.queue, call.out);
        } else {
            lemma_first_line(Seq::<u8>::empty());
            assert(taken(call.pending, call.out.pending) =~= Seq::<u8>::empty());
        }
        assert forall|i: int| 0 <= i < n - 1 implies #[trigger] calls[i] == earlier[i] by {}
        if exists|i: int|
            0 <= i < earlier.len() && (#[trigger] earlier[i]).out.outcome
                == ReadOutcome::Shutdown {
            let i = choose|i: int|
                0 <= i < earlier.len() && (#[trigger] earlier[i]).out.outcome
                    == ReadOutcome::Shutdown;
            assert(calls[i].out.outcome == ReadOutcome::Shutdown);
        }
        if call.out.outcome == ReadOutcome::Shutdown {
            assert(calls[n - 1].out.outcome == ReadOutcome::Shutdown);
        }
    }
}

/// A search leaves the end of what it searched, and no newline where it found nothing.
proof fn lemma_scan_takes_front(pending: Seq<u8>, tally: nat)
    ensures
        scan(pending, tally).pending.is_suffix_of(pending),
        scan(pending, tally).event is Drained ==> !scan(pending, tally).pending.contains(NEWLINE),
        scan(pending, tally).event is Shutdown ==> scan(pending, tally).tally > tally && scan(
            pending,
            tally,
        ).tally >= NAUGHTY_LIMIT,
    decreases pending.len(),
{
    lemma_first_line(pending);
    if let Some(line) = first_line(pending) {
        let rest = pending.skip(line.len() as int);
        assert(rest =~= pending.skip(pending.len() - rest.len()));
        if !valid_utf8(line) && tally + 1 < NAUGHTY_LIMIT {
            lemma_scan_takes_front(rest, tally + 1);
            lemma_suffix_of_suffix(scan(rest, tally + 1).pending, rest, pending);
        }
    } else {
        assert(pending =~= pending.skip(0));
    }
}

proof fn lemma_suffix_of_suffix(a: Seq<u8>, b: Seq<u8>, c: Seq<u8>)
    requires
        a.is_suffix_of(b),
        b.is_suffix_of(c),
    ensures
        a.is_suffix_of(c),
{
    assert(a =~= c.subrange(c.len() - a.len(), c.len() as int));
}

/// The bytes of `messages`, one behind the other.
pub open spec fn wires(messages: Seq<Message>) -> Seq<u8> {
    join(messages.map_values(|m: Message| m.wire()))
}

/// The answers to `messages`, in order.
pub open spec fn replies(messages: Seq<Message>) -> Seq<Sendable>
    decreases messages.len(),
{
    if messages.len() == 0 {
        Seq::empty()
    } else {
        reply_to(Some(messages[0])) + replies(messages.drop_first())
    }
}

/// `parse` gives back the message that a text was made from.
pub open spec fn reads_back(parse: spec_fn(Seq<char>) -> Option<Message>) -> bool {
    forall|m: Message| parse(#[trigger] m.text()) == Some(m)
}

/// What a peer sends is what is answered: the answers to its messages are queued in order behind
/// what waits already, all of the messages are used up, and an incomplete line stays for later.
pub proof fn law_messages_are_answered_in_order(
    parse: spec_fn(Seq<char>) -> Option<Message>,
    messages: Seq<Message>,
    rest: Seq<u8>,
    tally: nat,
    queue: Seq<Sendable>,
)
    requires
        reads_back(parse),
        !messages.contains(Message::Quit),
        !rest.contains(NEWLINE),
    ensures
        session_of(parse, wires(messages) + rest, tally, queue) == (Session {
            outcome: ReadOutcome::Rearm,
            pending: rest,
            tally,
            queue: queue + replies(messages),
        }),
{
    lemma_messages_first(parse, messages, rest, tally, queue);
    lemma_first_line(rest);
}

/// A request to quit is honoured as soon as the messages before it are answered; what follows it
/// is not looked at.
pub proof fn law_quit_ends_the_session(
    parse: spec_fn(Seq<char>) -> Option<Message>,
    messages: Seq<Message>,
    rest: Seq<u8>,
    tally: nat,
    queue: Seq<Sendable>,
)
    requires
        reads_back(parse),
        !messages.contains(Message::Quit),
    ensures
        session_of(parse, wires(messages) + (Message::Quit.wire() + rest), tally, queue) == (
        Session {
            outcome: ReadOutcome::Quit,
            pending: rest,
            tally,
            queue: queue + replies(messages),
        }),
{
    let quit = Message::Quit;
    lemma_messages_first(parse, messages, quit.wire() + rest, tally, queue);
    law_message_is_one_line(quit);
    lemma_first_line_unique(quit.wire(), rest);
    assert(parse(quit.text()) == Some(quit));
}

/// Messages in front are answered before anything else is looked at.
proof fn lemma_messages_first(
    parse: spec_fn(Seq<char>) -> Option<Message>,
    messages: Seq<Message>,
    rest: Seq<u8>,
    tally: nat,
    queue: Seq<Sendable>,
)
    requires
        reads_back(parse),
        !messages.contains(Message::Quit),
    ensures
        session_of(parse, wires(messages) + rest, tally, queue) == session_of(
            parse,
            rest,
            tally,
            queue + replies(messages),
        ),
    decreases messages.len(),
{
    if messages.len() == 0 {
        assert(wires(messages) + rest =~= rest);
        assert(queue + replies(messages) =~= queue);
    } else {
        let m = messages[0];
        let later = messages.drop_first();
        assert(messages.contains(m));
        assert forall|x: Message| later.contains(x) implies messages.contains(x) by {
            let i = choose|i: int| 0 <= i < later.len() && later[i] == x;
            assert(messages[i + 1] == x);
        }
        assert(messages.map_values(|m: Message| m.wire()).drop_first() =~= later.map_values(
            |m: Message| m.wire(),
        ));
        let tail = wires(later) + rest;
        assert(wires(messages) + rest =~= m.wire() + tail);
        law_message_is_one_line(m);
        lemma_first_line_unique(m.wire(), tail);
        assert(parse(m.text()) == Some(m));
        let answered = queue + reply_to(Some(m));
        lemma_messages_first(parse, later, rest, tally, answered);
        assert(answered + replies(later) =~= queue + replies(messages));
    }
}

/// Handling what was received in two parts is handling it all at once: where the first part
/// leaves the conversation going, the second carries on from there; where it ends it, the second
/// is not looked at.
pub proof fn law_sessions_compose(
    parse: spec_fn(Seq<char>) -> Option<Message>,
    a: Seq<u8>,
    b: Seq<u8>,
    tally: nat,
    queue: Seq<Sendable>,
)
    ensures
        ({
            let first = session_of(parse, a, tally, queue);
            session_of(parse, a + b, tally, queue) == if first.outcome == ReadOutcome::Rearm {
                session_of(parse, first.pending + b, first.tally, first.queue)
            } else {
                Session { pending: first.pending + b, ..first }
            }
        }),
    decreases a.len(),
{
    lemma_scan_bounds(a, tally);
    lemma_scan_extends(a, b, tally);
    let found = scan(a, tally);
    if let LineEvent::Line(text) = found.event {
        if parse(text) != Some(Message::Quit) {
            law_sessions_compose(
                parse,
                found.pending,
                b,
                found.tally,
                queue + reply_to(parse(text)),
            );
        }
    }
}

/// A search that ends before the end of `a` does not see what follows; one that does not carries
/// on into it.
proof fn lemma_scan_extends(a: Seq<u8>, b: Seq<u8>, tally: nat)
    ensures
        ({
            let found = scan(a, tally);
            scan(a + b, tally) == if found.event is Drained {
                scan(found.pending + b, found.tally)
            } else {
                crate::ipc::Scan { pending: found.pending + b, ..found }
            }
        }),
    decreases a.len(),
{
    lemma_first_line(a);
    if let Some(line) = first_line(a) {
        let rest = a.skip(line.len() as int);
        assert(a + b =~= line + (rest + b));
        lemma_first_line_unique(line, rest + b);
        lemma_scan_extends(rest, b, tally + 1);
    }
}

/// The answers to `lines`, in order: a line that is not text, or holds no message, has none.
pub open spec fn answers(
    parse: spec_fn(Seq<char>) -> Option<Message>,
    lines: Seq<Seq<u8>>,
) -> Seq<Sendable>
    decreases lines.len(),
{
    if lines.len() == 0 {
        Seq::empty()
    } else {
        let others = answers(parse, lines.drop_first());
        if valid_utf8(lines[0]) {
            reply_to(parse(decode_utf8(lines[0]))) + others
        } else {
            others
        }
    }
}

/// `line` asks this process to quit.
pub open spec fn asks_to_quit(
    parse: spec_fn(Seq<char>) -> Option<Message>,
    line: Seq<u8>,
) -> bool {
    valid_utf8(line) && parse(decode_utf8(line)) == Some(Message::Quit)
}

/// The undecodable ones among `lines` do not bring the count from `tally` to the limit.
pub open spec fn stays_below_limit(lines: Seq<Seq<u8>>, tally: nat) -> bool {
    undecodable(lines) == 0 || tally + undecodable(lines) < NAUGHTY_LIMIT
}

/// Whatever was received: unless a line asks to quit, or undecodable lines bring the count to the
/// limit, every complete line is handled, the answers are queued in order behind what waits
/// already, undecodable lines and lines without a message add nothing to them, and what follows
/// the last newline stays for later.
pub proof fn law_lines_are_answered_in_order(
    parse: spec_fn(Seq<char>) -> Option<Message>,
    pending: Seq<u8>,
    tally: nat,
    queue: Seq<Sendable>,
)
    requires
        forall|i: int|
            0 <= i < lines_of(pending).len() ==> !asks_to_quit(
                parse,
                #[trigger] lines_of(pending)[i],
            ),
        stays_below_limit(lines_of(pending), tally),
    ensures
        session_of(parse, pending, tally, queue) == (Session {
            outcome: ReadOutcome::Rearm,
            pending: rest_of(pending),
            tally: tally + undecodable(lines_of(pending)),
            queue: queue + answers(parse, lines_of(pending)),
        }),
    decreases pending.len(),
{
    lemma_first_line(pending);
    let lines = lines_of(pending);
    if let Some(line) = first_line(pending) {
        let tail = pending.skip(line.len() as int);
        let others = lines_of(tail);
        assert(lines =~= seq![line] + others);
        assert(lines.drop_first() =~= others);
        assert(!asks_to_quit(parse, lines[0]));
        assert forall|i: int| 0 <= i < others.len() implies !asks_to_quit(
            parse,
            #[trigger] others[i],
        ) by {
            assert(others[i] == lines[i + 1]);
        }
        if valid_utf8(line) {
            let answered = queue + reply_to(parse(decode_utf8(line)));
            law_lines_are_answered_in_order(parse, tail, tally, answered);
            assert(answered + answers(parse, others) =~= queue + answers(parse, lines));
        } else {
            law_lines_are_answered_in_order(parse, tail, tally + 1, queue);
            assert(scan(pending, tally) == scan(tail, tally + 1));
            assert(session_of(parse, pending, tally, queue) == session_of(
                parse,
                tail,
                tally + 1,
                queue,
            ));
        }
    } else {
        assert(queue + answers(parse, lines) =~= queue);
    }
}

/// Whatever lines come before: a line that asks to quit ends the session as soon as they are
/// handled, and what follows it is not looked at.
pub proof fn law_any_request_to_quit_is_honoured(
    parse: spec_fn(Seq<char>) -> Option<Message>,
    front: Seq<u8>,
    line: Seq<u8>,
    rest: Seq<u8>,
    tally: nat,
    queue: Seq<Sendable>,
)
    requires
        rest_of(front) == Seq::<u8>::empty(),
        forall|i: int|
            0 <= i < lines_of(front).len() ==> !asks_to_quit(parse, #[trigger] lines_of(front)[i]),
        stays_below_limit(lines_of(front), tally),
        is_line(line),
        asks_to_quit(parse, line),
    ensures
        session_of(parse, front + (line + rest), tally, queue) == (Session {
            outcome: ReadOutcome::Quit,
            pending: rest,
            tally: tally + undecodable(lines_of(front)),
            queue: queue + answers(parse, lines_of(front)),
        }),
{
    law_lines_are_answered_in_order(parse, front, tally, queue);
    law_sessions_compose(parse, front, line + rest, tally, queue);
    assert(rest_of(front) + (line + rest) =~= line + rest);
    lemma_first_line_unique(line, rest);
}

/// What was sent, and what still waits, after writes with these results.
pub open spec fn written(
    queue: Seq<Sendable>,
    results: Seq<Result<usize, ErrorKind>>,
) -> (Seq<Sendable>, Seq<Sendable>)
    decreases results.len(),
{
    if queue.len() == 0 || results.len() == 0 {
        (Seq::empty(), queue)
    } else if wrote_next(results[0]) != Wrote::Again {
        (Seq::empty(), wrote_queue(queue, results[0]))
    } else {
        let (sent, left) = written(wrote_queue(queue, results[0]), results.drop_first());
        if results[0] is Ok {
            (seq![queue[0]] + sent, left)
        } else {
            (sent, left)
        }
    }
}

/// Whatever the results of the writes: what was sent and what still waits are together what
/// waited before, in the same order, so that nothing is sent twice, lost or overtaken.
pub proof fn law_queue_is_sent_in_order(
    queue: Seq<Sendable>,
    results: Seq<Result<usize, ErrorKind>>,
)
    ensures
        written(queue, results).0 + written(queue, results).1 == queue,
    decreases results.len(),
{
    if queue.len() > 0 && results.len() > 0 && wrote_next(results[0]) == Wrote::Again {
        let next = wrote_queue(queue, results[0]);
        law_queue_is_sent_in_order(next, results.drop_first());
        let (sent, left) = written(next, results.drop_first());
        if results[0] is Ok {
            assert(queue =~= seq![queue[0]] + (sent + left));
            assert(written(queue, results).0 + written(queue, results).1 =~= seq![queue[0]] + (sent
                + left));
        }
    } else {
        assert(written(queue, results).0 + written(queue, results).1 =~= queue);
    }
}

/// How many of `results` are successes.
pub open spec fn successes(results: Seq<Result<usize, ErrorKind>>) -> nat
    decreases results.len(),
{
    if results.len() == 0 {
        0
    } else {
        let others = successes(results.drop_first());
        if results[0] is Ok {
            others + 1
        } else {
            others
        }
    }
}

/// Where writes are interrupted at most, and enough of them succeed, all of the queue is sent.
pub proof fn law_queue_is_sent_entirely(
    queue: Seq<Sendable>,
    results: Seq<Result<usize, ErrorKind>>,
)
    requires
        successes(results) >= queue.len(),
        forall|i: int|
            0 <= i < results.len() ==> (#[trigger] results[i]) is Ok || results[i]->Err_0
                == ErrorKind::Interrupted,
    ensures
        written(queue, results).0 == queue,
        written(queue, results).1.len() == 0,
    decreases results.len(),
{
    if queue.len() > 0 {
        assert(results[0] is Ok || results[0]->Err_0 == ErrorKind::Interrupted);
        let later = results.drop_first();
        assert forall|i: int| 0 <= i < later.len() implies (#[trigger] later[i]) is Ok
            || later[i]->Err_0 == ErrorKind::Interrupted by {
            assert(later[i] == results[i + 1]);
        }
        law_queue_is_sent_entirely(wrote_queue(queue, results[0]), later);
    }
    law_queue_is_sent_in_order(queue, results);
    assert(written(queue, results).0 =~= queue);
}

/// A search takes out whole lines and stops behind the first that is text, which it gives, or
/// behind the one that is not text and brings the count to eight or over it; it finds nothing only
/// where no line is left. Every line that is not text counts.
pub proof fn law_search_stops_behind_the_first_text(pending: Seq<u8>, tally: nat)
    ensures
        ({
            let found = scan(pending, tally);
            let front = taken(pending, found.pending);
            let lines = lines_of(front);
            let n = lines.len() as int;
            &&& front + found.pending == pending
            &&& rest_of(front).len() == 0
            &&& forall|i: int|
                0 <= i < n - 1 ==> !valid_utf8(#[trigger] lines[i]) && tally + i + 1 < 8
            &&& match found.event {
                LineEvent::Line(text) => {
                    &&& n > 0
                    &&& valid_utf8(lines[n - 1])
                    &&& text == decode_utf8(lines[n - 1])
                    &&& found.tally == tally + n - 1
                },
                LineEvent::Shutdown => {
                    &&& n > 0
                    &&& !valid_utf8(lines[n - 1])
                    &&& found.tally == tally + n
                    &&& found.tally >= 8
                },
                LineEvent::Drained => {
                    &&& n > 0 ==> !valid_utf8(lines[n - 1]) && tally + n < 8
                    &&& found.tally == tally + n
                    &&& forall|i: int| 0 <= i < found.pending.len() ==> found.pending[i] != 10
                },
            }
        }),
    decreases pending.len(),
{
    let found = scan(pending, tally);
    let front = taken(pending, found.pending);
    let none = Seq::<u8>::empty();
    lemma_scan_counts(pending, tally);
    lemma_first_line(pending);
    lemma_first_line(none);
    assert(lines_of(none).len() == 0);
    if let Some(line) = first_line(pending) {
        let rest = pending.skip(line.len() as int);
        let goes_on = !valid_utf8(line) && tally + 1 < 8;
        let skipped = if goes_on {
            law_search_stops_behind_the_first_text(rest, tally + 1);
            taken(rest, found.pending)
        } else {
            none
        };
        assert(front =~= line + skipped);
        lemma_first_line_unique(line, skipped);
        let later = lines_of(skipped);
        assert(lines_of(front) =~= seq![line] + later);
        let lines = lines_of(front);
        let n = lines.len() as int;
        assert(lines[0] == line);
        assert(n == later.len() + 1);
        assert forall|i: int| 0 <= i < n - 1 implies !valid_utf8(#[trigger] lines[i]) && tally + i
            + 1 < 8 by {
            if i > 0 {
                assert(lines[i] == later[i - 1]);
            }
        }
        if goes_on {
            assert(found == scan(rest, tally + 1));
            if n > 1 {
                assert(lines[n - 1] == later[n - 2]);
            } else {
                assert(lines[n - 1] == line);
            }
            assert(found.event is Drained ==> forall|i: int|
                0 <= i < found.pending.len() ==> found.pending[i] != 10);
        } else {
            assert(n == 1);
        }
    } else {
        assert(front =~= none);
        assert forall|i: int| 0 <= i < found.pending.len() implies found.pending[i] != 10 by {
            if pending[i] == NEWLINE {
                assert(pending.contains(NEWLINE));
            }
        }
    }
}

/// The answers to lines that were taken for `meanings`, in order.
pub open spec fn all_replies(meanings: Seq<Option<Message>>) -> Seq<Sendable>
    decreases meanings.len(),
{
    if meanings.len() == 0 {
        Seq::empty()
    } else {
        reply_to(meanings[0]) + all_replies(meanings.drop_first())
    }
}

/// Taking no line adds no answer, one line adds its own, and two parts add those of the one and
/// then those of the other.
pub proof fn law_replies_follow_each_other(
    a: Seq<Option<Message>>,
    meaning: Option<Message>,
    b: Seq<Option<Message>>,
)
    ensures
        all_replies(Seq::<Option<Message>>::empty()).len() == 0,
        all_replies(seq![meaning]) == match meaning {
            Some(Message::Ping) => seq![Sendable::Message(Message::Pong)],
            Some(Message::RequestFds) => seq![Sendable::Fds],
            _ => Seq::<Sendable>::empty(),
        },
        all_replies(a + b) == all_replies(a) + all_replies(b),
    decreases a.len(),
{
    let none = Seq::<Option<Message>>::empty();
    assert(seq![meaning].drop_first() =~= none);
    assert(all_replies(none) =~= Seq::<Sendable>::empty());
    assert(all_replies(seq![meaning]) =~= reply_to(meaning));
    if a.len() == 0 {
        assert(a + b =~= b);
        assert(all_replies(a) + all_replies(b) =~= all_replies(b));
    } else {
        law_replies_follow_each_other(a.drop_first(), meaning, b);
        assert((a + b).drop_first() =~= a.drop_first() + b);
        assert(all_replies(a + b) =~= all_replies(a) + all_replies(b));
    }
}

/// Of no line none is undecodable, one line counts if it is not text, and the counts of two parts
/// add up.
pub proof fn law_undecodable_lines_add_up(a: Seq<Seq<u8>>, line: Seq<u8>, b: Seq<Seq<u8>>)
    ensures
        undecodable(Seq::<Seq<u8>>::empty()) == 0,
        valid_utf8(line) ==> undecodable(seq![line]) == 0,
        !valid_utf8(line) ==> undecodable(seq![line]) == 1,
        undecodable(a + b) == undecodable(a) + undecodable(b),
{
    assert(seq![line].drop_first() =~= Seq::<Seq<u8>>::empty());
    assert(undecodable(seq![line].drop_first()) == 0);
    lemma_undecodable_of_parts(a, b);
}

/// All that a session does, however lines are taken and however it ends: `meanings` tells what
/// each of the lines that were taken out was taken for. Only whole lines are taken out. Each that
/// is text is taken for something that `parses` allows, and no other is taken for anything. The
/// queue gains exactly the answers to them, and the count exactly those that are not text. The
/// session ends with the first request to quit, with the first line that is not text where it
/// brings the count to eight or over it, or where no line is left.
pub proof fn law_session_in_full(
    parses: spec_fn(Seq<char>, Option<Message>) -> bool,
    pending: Seq<u8>,
    tally: nat,
    queue: Seq<Sendable>,
    out: Session,
) -> (meanings: Seq<Option<Message>>)
    requires
        reads_to(parses, pending, tally, queue, out),
    ensures
        ({
            let front = taken(pending, out.pending);
            let lines = lines_of(front);
            let n = lines.len() as int;
            &&& front + out.pending == pending
            &&& rest_of(front).len() == 0
            &&& meanings.len() == n
            &&& forall|i: int|
                0 <= i < n ==> if valid_utf8(#[trigger] lines[i]) {
                    parses(decode_utf8(lines[i]), meanings[i])
                } else {
                    meanings[i] is None
                }
            &&& forall|i: int| 0 <= i < n - 1 ==> #[trigger] meanings[i] != Some(Message::Quit)
            &&& forall|i: int|
                0 <= i < n - 1 && !valid_utf8(#[trigger] lines[i]) ==> tally + undecodable(
                    lines.take(i + 1),
                ) < 8
            &&& out.queue == queue + all_replies(meanings)
            &&& out.tally == tally + undecodable(lines)
            &&& match out.outcome {
                ReadOutcome::Quit => n > 0 && meanings[n - 1] == Some(Message::Quit),
                ReadOutcome::Shutdown => n > 0 && !valid_utf8(lines[n - 1]) && out.tally >= 8,
                ReadOutcome::Rearm => {
                    &&& n > 0 ==> meanings[n - 1] != Some(Message::Quit)
                    &&& n > 0 && !valid_utf8(lines[n - 1]) ==> out.tally < 8
                    &&& forall|i: int| 0 <= i < out.pending.len() ==> out.pending[i] != 10
                },
                ReadOutcome::Failed(_) => false,
            }
        }),
    decreases pending.len(),
{
    let none = Seq::<u8>::empty();
    let found = scan(pending, tally);
    lemma_first_line(pending);
    lemma_first_line(none);
    assert(lines_of(none).len() == 0);
    if let Some(line) = first_line(pending) {
        let rest = pending.skip(line.len() as int);
        assert(pending =~= line + rest);
        assert(taken(rest, rest) =~= none);
        assert(none + rest =~= rest);
        if !valid_utf8(line) && tally + 1 < 8 {
            assert(found == scan(rest, tally + 1));
            assert(reads_to(parses, rest, tally + 1, queue, out));
            let later = law_session_in_full(parses, rest, tally + 1, queue, out);
            lemma_session_goes_on(line, None, rest, out.pending, later);
            assert(queue + all_replies(later) =~= queue + all_replies(seq![None] + later));
            let lines = lines_of(taken(pending, out.pending));
            let others = lines_of(taken(rest, out.pending));
            assert forall|i: int| 0 <= i < lines.len() - 1 && !valid_utf8(
                #[trigger] lines[i],
            ) implies tally + undecodable(lines.take(i + 1)) < 8 by {
                if i > 0 {
                    assert(!valid_utf8(others[i - 1]));
                }
                law_undecodable_lines_add_up(seq![line], line, others.take(i));
                assert(lines.take(i + 1) =~= seq![line] + others.take(i));
                if i == 0 {
                    assert(others.take(i) =~= Seq::<Seq<u8>>::empty());
                }
            }
            seq![None] + later
        } else if !valid_utf8(line) {
            let nothing = Seq::<Option<Message>>::empty();
            lemma_session_goes_on(line, None, rest, rest, nothing);
            assert(queue =~= queue + all_replies(seq![None] + nothing));
            seq![None] + nothing
        } else {
            let parsed = lemma_step_of(parses, pending, tally, queue, out);
            if parsed == Some(Message::Quit) {
                let nothing = Seq::<Option<Message>>::empty();
                lemma_session_goes_on(line, parsed, rest, rest, nothing);
                assert(queue =~= queue + all_replies(seq![parsed] + nothing));
                seq![parsed] + nothing
            } else {
                let longer = queue + reply_to(parsed);
                let later = law_session_in_full(parses, rest, tally, longer, out);
                lemma_session_goes_on(line, parsed, rest, out.pending, later);
                assert(longer + all_replies(later) =~= queue + all_replies(seq![parsed] + later));
                let lines = lines_of(taken(pending, out.pending));
                let others = lines_of(taken(rest, out.pending));
                assert forall|i: int| 0 <= i < lines.len() - 1 && !valid_utf8(
                    #[trigger] lines[i],
                ) implies tally + undecodable(lines.take(i + 1)) < 8 by {
                    assert(!valid_utf8(others[i - 1]));
                    law_undecodable_lines_add_up(seq![line], line, others.take(i));
                    assert(lines.take(i + 1) =~= seq![line] + others.take(i));
                }
                seq![parsed] + later
            }
        }
    } else {
        assert(taken(pending, out.pending) =~= none);
        assert(none + pending =~= pending);
        let nothing = Seq::<Option<Message>>::empty();
        assert(queue =~= queue + all_replies(nothing));
        assert forall|i: int| 0 <= i < out.pending.len() implies out.pending[i] != 10 by {
            if pending[i] == NEWLINE {
                assert(pending.contains(NEWLINE));
            }
        }
        nothing
    }
}

/// A line in front of what a session takes out is the first of its lines, and what it is taken for
/// is answered first.
proof fn lemma_session_goes_on(
    line: Seq<u8>,
    meaning: Option<Message>,
    rest: Seq<u8>,
    left: Seq<u8>,
    later: Seq<Option<Message>>,
)
    requires
        is_line(line),
        taken(rest, left) + left == rest,
        left.len() <= rest.len(),
        rest_of(taken(rest, left)).len() == 0,
    ensures
        ({
            let front = taken(line + rest, left);
            let lines = lines_of(front);
            let others = lines_of(taken(rest, left));
            &&& front + left == line + rest
            &&& rest_of(front).len() == 0
            &&& lines == seq![line] + others
            &&& lines.len() == others.len() + 1
            &&& lines[0] == line
            &&& forall|i: int| 0 < i < lines.len() ==> #[trigger] lines[i] == others[i - 1]
            &&& undecodable(lines) == undecodable(seq![line]) + undecodable(others)
            &&& undecodable(seq![line]) == if valid_utf8(line) {
                0nat
            } else {
                1nat
            }
        }),
        all_replies(seq![meaning] + later) == reply_to(meaning) + all_replies(later),
{
    let front = taken(line + rest, left);
    let part = taken(rest, left);
    assert(front =~= line + part);
    assert(front + left =~= line + rest);
    lemma_first_line_unique(line, part);
    assert(lines_of(front) =~= seq![line] + lines_of(part));
    law_undecodable_lines_add_up(seq![line], line, lines_of(part));
    law_replies_follow_each_other(seq![meaning], meaning, later);
}

/// Where every text has one meaning, the session is one that taking texts for their meanings
/// leads to.
pub proof fn law_session_takes_texts_for_their_meanings(
    parse: spec_fn(Seq<char>) -> Option<Message>,
    pending: Seq<u8>,
    tally: nat,
    queue: Seq<Sendable>,
)
    ensures
        reads_to(
            |text: Seq<char>, parsed: Option<Message>| parsed == parse(text),
            pending,
            tally,
            queue,
            session_of(parse, pending, tally, queue),
        ),
    decreases pending.len(),
{
    let parses = |text: Seq<char>, parsed: Option<Message>| parsed == parse(text);
    lemma_scan_bounds(pending, tally);
    let found = scan(pending, tally);
    if let LineEvent::Line(text) = found.event {
        assert(parses(text, parse(text)));
        if parse(text) != Some(Message::Quit) {
            law_session_takes_texts_for_their_meanings(
                parse,
                found.pending,
                found.tally,
                queue + reply_to(parse(text)),
            );
        }
    }
}

/// No line has no answer; one line is answered with a pong if it is text that holds a ping, with
/// the descriptors if it is text that asks for them, and not at all otherwise; and the answers to
/// two parts are those to the one and then those to the other.
pub proof fn law_answers_follow_each_other(
    parse: spec_fn(Seq<char>) -> Option<Message>,
    a: Seq<Seq<u8>>,
    line: Seq<u8>,
    b: Seq<Seq<u8>>,
)
    ensures
        answers(parse, Seq::<Seq<u8>>::empty()).len() == 0,
        answers(parse, seq![line]) == if valid_utf8(line) && parse(decode_utf8(line)) == Some(
            Message::Ping,
        ) {
            seq![Sendable::Message(Message::Pong)]
        } else if valid_utf8(line) && parse(decode_utf8(line)) == Some(Message::RequestFds) {
            seq![Sendable::Fds]
        } else {
            Seq::<Sendable>::empty()
        },
        answers(parse, a + b) == answers(parse, a) + answers(parse, b),
    decreases a.len(),
{
    let none = Seq::<Seq<u8>>::empty();
    assert(seq![line].drop_first() =~= none);
    assert(answers(parse, none) =~= Seq::<Sendable>::empty());
    if valid_utf8(line) {
        assert(answers(parse, seq![line]) =~= reply_to(parse(decode_utf8(line))));
    }
    if a.len() == 0 {
        assert(a + b =~= b);
        assert(answers(parse, a) + answers(parse, b) =~= answers(parse, b));
    } else {
        law_answers_follow_each_other(parse, a.drop_first(), line, b);
        assert((a + b).drop_first() =~= a.drop_first() + b);
        assert(answers(parse, a + b) =~= answers(parse, a) + answers(parse, b));
    }
}

/// The answers to messages that follow each other do so too, and one message has its own answer.
pub proof fn law_replies_to_messages_follow_each_other(
    a: Seq<Message>,
    m: Message,
    b: Seq<Message>,
)
    ensures
        replies(Seq::<Message>::empty()).len() == 0,
        replies(seq![m]) == match m {
            Message::Ping => seq![Sendable::Message(Message::Pong)],
            Message::RequestFds => seq![Sendable::Fds],
            _ => Seq::<Sendable>::empty(),
        },
        replies(a + b) == replies(a) + replies(b),
    decreases a.len(),
{
    let none = Seq::<Message>::empty();
    assert(seq![m].drop_first() =~= none);
    assert(replies(none) =~= Seq::<Sendable>::empty());
    assert(replies(seq![m]) =~= reply_to(Some(m)));
    if a.len() == 0 {
        assert(a + b =~= b);
        assert(replies(a) + replies(b) =~= replies(b));
    } else {
        law_replies_to_messages_follow_each_other(a.drop_first(), m, b);
        assert((a + b).drop_first() =~= a.drop_first() + b);
        assert(replies(a + b) =~= replies(a) + replies(b));
    }
}

/// The answers to lines are the replies to what they are taken for.
proof fn lemma_answers_are_replies(
    parse: spec_fn(Seq<char>) -> Option<Message>,
    lines: Seq<Seq<u8>>,
    meanings: Seq<Option<Message>>,
)
    requires
        lines.len() == meanings.len(),
        forall|i: int|
            0 <= i < lines.len() ==> #[trigger] meanings[i] == if valid_utf8(lines[i]) {
                parse(decode_utf8(lines[i]))
            } else {
                None
            },
    ensures
        answers(parse, lines) == all_replies(meanings),
    decreases lines.len(),
{
    if lines.len() > 0 {
        let (others, later) = (lines.drop_first(), meanings.drop_first());
        assert forall|i: int| 0 <= i < others.len() implies #[trigger] later[i] == if valid_utf8(
            others[i],
        ) {
            parse(decode_utf8(others[i]))
        } else {
            None
        } by {
            assert(later[i] == meanings[i + 1]);
        }
        lemma_answers_are_replies(parse, others, later);
        assert(meanings[0] == meanings.first());
        assert(answers(parse, lines) =~= all_replies(meanings));
    }
}

/// Whatever was received, and however the session ends: the queue gains exactly the answers to the
/// lines that were taken out, in order. So a peer that is cut off, or one that asks to quit, is
/// owed what its earlier lines have earned and nothing else. The session ends with a request to
/// quit only at the line that asks for it, and with the peer being cut off only at a line that is
/// not text.
pub proof fn law_queue_gains_exactly_the_answers(
    parse: spec_fn(Seq<char>) -> Option<Message>,
    pending: Seq<u8>,
    tally: nat,
    queue: Seq<Sendable>,
)
    ensures
        ({
            let out = session_of(parse, pending, tally, queue);
            let front = taken(pending, out.pending);
            let lines = lines_of(front);
            let n = lines.len() as int;
            let quits = |line: Seq<u8>|
                valid_utf8(line) && parse(decode_utf8(line)) == Some(Message::Quit);
            &&& front + out.pending == pending
            &&& rest_of(front).len() == 0
            &&& out.queue == queue + answers(parse, lines)
            &&& out.tally == tally + undecodable(lines)
            &&& forall|i: int| 0 <= i < n - 1 ==> !quits(#[trigger] lines[i])
            &&& out.outcome == ReadOutcome::Quit <==> n > 0 && quits(lines[n - 1])
            &&& out.outcome == ReadOutcome::Shutdown <==> n > 0 && !valid_utf8(lines[n - 1])
                && out.tally >= 8
            &&& out.outcome == ReadOutcome::Rearm ==> !out.pending.contains(10)
            &&& !(out.outcome is Failed)
        }),
{
    let parses = |text: Seq<char>, parsed: Option<Message>| parsed == parse(text);
    let out = session_of(parse, pending, tally, queue);
    law_session_takes_texts_for_their_meanings(parse, pending, tally, queue);
    let meanings = law_session_in_full(parses, pending, tally, queue, out);
    let lines = lines_of(taken(pending, out.pending));
    assert forall|i: int| 0 <= i < lines.len() implies #[trigger] meanings[i] == if valid_utf8(
        lines[i],
    ) {
        parse(decode_utf8(lines[i]))
    } else {
        None
    } by {}
    lemma_answers_are_replies(parse, lines, meanings);
    assert forall|i: int| 0 <= i < lines.len() - 1 implies !(valid_utf8(#[trigger] lines[i])
        && parse(decode_utf8(lines[i])) == Some(Message::Quit)) by {
        assert(meanings[i] != Some(Message::Quit));
    }
}

/// Every answer has a line that it answers: the one with which the answers reach it.
proof fn lemma_reply_has_a_cause(meanings: Seq<Option<Message>>, k: int) -> (at: int)
    requires
        0 <= k < all_replies(meanings).len(),
    ensures
        0 <= at < meanings.len(),
        match all_replies(meanings)[k] {
            Sendable::Message(m) => m == Message::Pong && meanings[at] == Some(Message::Ping),
            Sendable::Fds => meanings[at] == Some(Message::RequestFds),
        },
    decreases meanings.len(),
{
    let own = reply_to(meanings[0]);
    if k < own.len() {
        assert(all_replies(meanings)[k] == own[k]);
        0
    } else {
        let at = lemma_reply_has_a_cause(meanings.drop_first(), k - own.len());
        at + 1
    }
}

/// Nothing is ever due to a peer that was just admitted but answers to its own lines: whatever
/// waits to be sent after its first bytes were handled, the first of it included, is a pong to a
/// line of it that was taken for a ping, or the descriptors for a line of it that was taken for a
/// request for them.
pub proof fn law_first_words_answer_the_peer<S>(
    conn: IpcConnection<S>,
    stream: S,
    parses: spec_fn(Seq<char>, Option<Message>) -> bool,
    received: Seq<u8>,
    out: Session,
    k: int,
) -> (at: int)
    requires
        conn.is_fresh(stream),
        reads_to(parses, received, conn.tally(), conn.queue(), out),
        0 <= k < out.queue.len(),
    ensures
        conn.writebuf@.len() == 0,
        ({
            let lines = lines_of(taken(received, out.pending));
            &&& 0 <= at < lines.len()
            &&& valid_utf8(lines[at])
            &&& out.queue[k] == Sendable::Message(Message::Pong) || out.queue[k] == Sendable::Fds
            &&& out.queue[k] == Sendable::Message(Message::Pong) ==> parses(
                decode_utf8(lines[at]),
                Some(Message::Ping),
            )
            &&& out.queue[k] == Sendable::Fds ==> parses(
                decode_utf8(lines[at]),
                Some(Message::RequestFds),
            )
        }),
{
    let meanings = law_session_in_full(parses, received, conn.tally(), conn.queue(), out);
    assert(conn.queue() + all_replies(meanings) =~= all_replies(meanings));
    let at = lemma_reply_has_a_cause(meanings, k);
    let lines = lines_of(taken(received, out.pending));
    assert(valid_utf8(lines[at]) || meanings[at] is None);
    at
}

} // verus!
