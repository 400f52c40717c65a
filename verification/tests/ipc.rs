use potato::error::ErrorKind;
use potato::ipc::{
    Admission, Ipc, IpcConnection, NextLine, PeerAction, ReadOutcome, WriteStep, Wrote,
};
use potato::lineio::ReadFrom;
use potato::message::{Message, Sendable};
use potato::poll::{Mode, Readiness, Registration};

fn feed(conn: &mut IpcConnection<u32>, data: &[u8]) {
    let room = conn.readbuf.prepare_read();
    assert!(data.len() <= room.space);
    assert_eq!(
        conn.readbuf.read_from(Ok(data)),
        ReadFrom::Read(data.len())
    );
}

fn parse(line: &str) -> Option<Message> {
    let name: String = serde_json::from_str(line).ok()?;
    match name.as_str() {
        "Ping" => Some(Message::Ping),
        "Pong" => Some(Message::Pong),
        "RequestFds" => Some(Message::RequestFds),
        "Quit" => Some(Message::Quit),
        _ => None,
    }
}

fn queue(conn: &IpcConnection<u32>) -> Vec<Sendable> {
    conn.writebuf.iter().copied().collect()
}

fn ready(readable: bool, writable: bool) -> Readiness {
    Readiness {
        readable,
        writable,
        hup: false,
        error: false,
    }
}

const PONG: Sendable = Sendable::Message(Message::Pong);

#[test]
fn a_fresh_connection_has_nothing_to_do() {
    let mut conn = IpcConnection::from_stream(7u32);
    assert_eq!(conn.stream, 7);
    assert_eq!(conn.read(Ok(0), parse), ReadOutcome::Rearm);
    assert_eq!(conn.write(None), WriteStep::Idle);
    assert!(!conn.registration().writable);
}

#[test]
fn requests_are_answered_in_order() {
    let mut conn = IpcConnection::from_stream(1u32);
    feed(&mut conn, b"\"Ping\"\n\"RequestFds\"\n\"Pong\"\n\"Ping\"\n\"Pi");
    assert_eq!(conn.read(Ok(40), parse), ReadOutcome::Rearm);
    assert_eq!(queue(&conn), vec![PONG, Sendable::Fds, PONG]);
    feed(&mut conn, b"ng\"\n");
    assert_eq!(conn.read(Ok(4), parse), ReadOutcome::Rearm);
    assert_eq!(queue(&conn), vec![PONG, Sendable::Fds, PONG, PONG]);
}

#[test]
fn quit_leaves_what_follows_alone() {
    let mut conn = IpcConnection::from_stream(1u32);
    feed(&mut conn, b"\"Ping\"\n\"Quit\"\n\"Ping\"\n");
    assert_eq!(conn.read(Ok(22), parse), ReadOutcome::Quit);
    assert_eq!(queue(&conn), vec![PONG]);
    assert_eq!(conn.readbuf.find_line(), Some(&b"\"Ping\"\n"[..]));
}

#[test]
fn lines_that_hold_no_message_are_skipped() {
    let mut conn = IpcConnection::from_stream(1u32);
    feed(&mut conn, b"hello\n\n\"Nope\"\n\"Ping\"\n");
    assert_eq!(conn.read(Ok(22), parse), ReadOutcome::Rearm);
    assert_eq!(queue(&conn), vec![PONG]);
    assert_eq!(conn.naughtyness, 0);
}

#[test]
fn a_blocked_read_still_handles_what_is_there() {
    let mut conn = IpcConnection::from_stream(1u32);
    feed(&mut conn, b"\"Ping\"\n");
    assert_eq!(
        conn.read(Err(ErrorKind::WouldBlock), parse),
        ReadOutcome::Rearm
    );
    assert_eq!(queue(&conn), vec![PONG]);
}

#[test]
fn a_failed_read_handles_nothing() {
    let mut conn = IpcConnection::from_stream(1u32);
    feed(&mut conn, b"\"Ping\"\n");
    assert_eq!(
        conn.read(Err(ErrorKind::Other), parse),
        ReadOutcome::Failed(ErrorKind::Other)
    );
    assert_eq!(queue(&conn), vec![]);
    assert_eq!(conn.readbuf.find_line(), Some(&b"\"Ping\"\n"[..]));
}

#[test]
fn the_eighth_undecodable_line_cuts_the_peer_off() {
    let mut conn = IpcConnection::from_stream(1u32);
    feed(&mut conn, &b"\xff\n".repeat(7));
    assert_eq!(conn.read(Ok(14), parse), ReadOutcome::Rearm);
    assert_eq!(conn.naughtyness, 7);
    feed(&mut conn, b"\"Ping\"\n\xff\n\"Ping\"\n");
    assert_eq!(conn.read(Ok(16), parse), ReadOutcome::Shutdown);
    assert_eq!(conn.naughtyness, 8);
    assert_eq!(queue(&conn), vec![PONG]);
}

#[test]
fn a_peer_that_was_cut_off_stays_naughty() {
    let mut conn = IpcConnection::from_stream(1u32);
    feed(&mut conn, &b"\xff\n".repeat(10));
    assert_eq!(conn.read(Ok(20), parse), ReadOutcome::Shutdown);
    assert_eq!(conn.naughtyness, 8);
    assert_eq!(conn.read(Ok(0), parse), ReadOutcome::Shutdown);
    assert_eq!(conn.naughtyness, 9);
}

#[test]
fn lines_one_by_one() {
    let mut conn = IpcConnection::from_stream(1u32);
    feed(&mut conn, b"\xff\nabc\nd");
    assert!(matches!(conn.next_line(), NextLine::Line(text) if text == "abc\n"));
    assert_eq!(conn.naughtyness, 1);
    assert!(matches!(conn.next_line(), NextLine::Drained));
}

#[test]
fn two_parts_are_handled_like_one() {
    let stream = b"\"Ping\"\n\xff\n\"RequestFds\"\nx\n\"Ping\"\n\"Quit\"\n\"Ping\"\n";
    let mut whole = IpcConnection::from_stream(1u32);
    feed(&mut whole, stream);
    let expected = whole.read(Ok(1), parse);
    for cut in 0..stream.len() {
        let mut conn = IpcConnection::from_stream(1u32);
        feed(&mut conn, &stream[..cut]);
        let mut outcome = conn.read(Ok(1), parse);
        if outcome == ReadOutcome::Rearm {
            feed(&mut conn, &stream[cut..]);
            outcome = conn.read(Ok(1), parse);
        }
        assert_eq!(outcome, expected);
        assert_eq!(queue(&conn), queue(&whole));
        assert_eq!(conn.naughtyness, whole.naughtyness);
    }
}

#[test]
fn only_a_queue_waits_for_writing() {
    let mut conn = IpcConnection::from_stream(1u32);
    let idle = Registration {
        token: 1,
        readable: true,
        writable: false,
        mode: Mode::Level,
    };
    assert_eq!(conn.registration(), idle);
    conn.send_soon(Sendable::Fds);
    assert_eq!(
        conn.registration(),
        Registration {
            writable: true,
            ..idle
        }
    );
}

#[test]
fn the_queue_is_written_in_order() {
    let mut conn = IpcConnection::from_stream(1u32);
    assert!(!conn.handle(Some(Message::Ping)));
    assert!(!conn.handle(Some(Message::RequestFds)));
    assert!(!conn.handle(Some(Message::Pong)));
    assert!(!conn.handle(None));
    assert!(conn.handle(Some(Message::Quit)));
    assert_eq!(conn.write(Some(5)), WriteStep::Send(b"\"Pong\"\n".to_vec()));
    assert_eq!(conn.wrote(Ok(3)), Wrote::Again);
    assert_eq!(conn.write(Some(5)), WriteStep::SendFds(vec![5]));
    assert_eq!(conn.write(None), WriteStep::SendFds(vec![]));
    assert_eq!(conn.wrote(Ok(2)), Wrote::Again);
    assert_eq!(conn.write(Some(5)), WriteStep::Idle);
}

#[test]
fn failed_writes_lose_nothing() {
    let mut conn = IpcConnection::from_stream(1u32);
    conn.send_soon(PONG);
    conn.send_soon(Sendable::Fds);
    assert_eq!(conn.wrote(Err(ErrorKind::Interrupted)), Wrote::Again);
    assert_eq!(conn.wrote(Err(ErrorKind::WouldBlock)), Wrote::Blocked);
    assert_eq!(
        conn.wrote(Err(ErrorKind::Other)),
        Wrote::Failed(ErrorKind::Other)
    );
    assert_eq!(queue(&conn), vec![PONG, Sendable::Fds]);
    assert_eq!(conn.wrote(Ok(7)), Wrote::Again);
    assert_eq!(queue(&conn), vec![Sendable::Fds]);
}

#[test]
fn only_one_peer_is_admitted() {
    let mut ipc: Ipc<u32> = Ipc::listening();
    assert!(matches!(ipc.connect(None), Admission::NoPeer));
    match ipc.connect(Some(3)) {
        Admission::Admit(conn) => ipc.attach(conn),
        _ => panic!("not admitted"),
    }
    assert!(matches!(ipc.connect(Some(4)), Admission::Reject(4)));
    let lost = ipc.lost_peer();
    assert_eq!(lost.stream, 3);
    assert!(ipc.peer.is_none());
    assert!(matches!(ipc.connect(Some(5)), Admission::Admit(conn) if conn.stream == 5));
}

#[test]
fn writing_comes_before_reading() {
    let mut ipc: Ipc<u32> = Ipc::listening();
    assert_eq!(ipc.peer_event(ready(true, true)), PeerAction::Ignore);
    ipc.attach(IpcConnection::from_stream(1));
    assert_eq!(ipc.peer_event(ready(true, true)), PeerAction::Write);
    assert_eq!(ipc.peer_event(ready(true, false)), PeerAction::Read);
    assert_eq!(ipc.peer_event(ready(false, false)), PeerAction::Read);
}

#[test]
fn a_missing_socket_is_no_problem() {
    assert!(!Ipc::<u32>::is_removal_problem(ErrorKind::NotFound));
    assert!(Ipc::<u32>::is_removal_problem(ErrorKind::Other));
}

#[test]
fn listening_waits_for_peers() {
    let r = Ipc::<u32>::registration();
    assert_eq!((r.token, r.readable, r.writable), (0, true, false));
    assert_eq!(r.mode, Mode::Level);
}

#[test]
fn the_count_runs_over_all_calls() {
    let mut conn = IpcConnection::from_stream(1u32);
    let mut bad = 0;
    for round in 0..12 {
        feed(&mut conn, b"\"Ping\"\nnot a message\n\xff\n\"Pong\"\n");
        let outcome = conn.read(Ok(1), parse);
        bad += 1;
        assert_eq!(conn.naughtyness, bad);
        assert_eq!(outcome == ReadOutcome::Shutdown, bad >= 8);
        assert_eq!(conn.writebuf.len(), round + 1);
        if outcome == ReadOutcome::Shutdown {
            assert_eq!(conn.readbuf.find_line(), Some(&b"\"Pong\"\n"[..]));
        } else {
            assert_eq!(
                conn.read(Err(ErrorKind::Other), parse),
                ReadOutcome::Failed(ErrorKind::Other)
            );
        }
    }
}

#[test]
fn a_full_count_admits_a_failed_read() {
    let mut conn = IpcConnection::from_stream(1u32);
    conn.naughtyness = u8::MAX;
    feed(&mut conn, b"\xff\n");
    assert_eq!(
        conn.read(Err(ErrorKind::Other), parse),
        ReadOutcome::Failed(ErrorKind::Other)
    );
    assert_eq!(conn.naughtyness, u8::MAX);
}

#[test]
fn a_full_count_handles_good_lines() {
    let mut conn = IpcConnection::from_stream(1u32);
    conn.naughtyness = u8::MAX;
    feed(&mut conn, b"\"Ping\"\nfoo\n\"RequestFds\"\nrest");
    assert_eq!(conn.read_at_full_count(parse), Some(ReadOutcome::Rearm));
    assert_eq!(queue(&conn), vec![PONG, Sendable::Fds]);
    feed(&mut conn, b"\n\"Quit\"\n\xff\n");
    assert_eq!(conn.read_at_full_count(parse), Some(ReadOutcome::Quit));
    assert_eq!(conn.naughtyness, u8::MAX);
}

#[test]
fn a_full_count_takes_no_further_bad_line() {
    let mut conn = IpcConnection::from_stream(1u32);
    conn.naughtyness = u8::MAX;
    feed(&mut conn, b"\"Ping\"\n\xff\n\"Ping\"\n");
    assert_eq!(conn.read_at_full_count(parse), None);
    assert_eq!(queue(&conn), vec![PONG]);
    assert_eq!(conn.naughtyness, u8::MAX);
    assert_eq!(conn.readbuf.find_line(), Some(&b"\"Ping\"\n"[..]));
}

#[test]
fn any_lines_are_answered_in_order() {
    let mut conn = IpcConnection::from_stream(1u32);
    feed(
        &mut conn,
        b"\xff\n\"RequestFds\"\n{}\n\xfe\n\"Ping\"\n\nwhat\n\"Pong\"\n\"Ping\"\n\"Qu",
    );
    assert_eq!(conn.read(Ok(1), parse), ReadOutcome::Rearm);
    assert_eq!(queue(&conn), vec![Sendable::Fds, PONG, PONG]);
    assert_eq!(conn.naughtyness, 2);
    feed(&mut conn, b"it\"\n\xff\n");
    assert_eq!(conn.read(Ok(1), parse), ReadOutcome::Quit);
    assert_eq!(conn.naughtyness, 2);
    assert_eq!(conn.readbuf.find_line(), Some(&b"\xff\n"[..]));
}

#[test]
fn interruptions_do_not_keep_the_queue_from_being_sent() {
    let mut conn = IpcConnection::from_stream(1u32);
    conn.send_soon(PONG);
    conn.send_soon(Sendable::Fds);
    let interrupted = Err(ErrorKind::Interrupted);
    for result in [interrupted, Ok(7), interrupted, interrupted, Ok(2)] {
        assert!(conn.write(None) != WriteStep::Idle);
        assert_eq!(conn.wrote(result), Wrote::Again);
    }
    assert_eq!(conn.write(None), WriteStep::Idle);
}
