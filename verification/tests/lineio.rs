use potato::error::ErrorKind;
use potato::lineio::{LineIo, ReadFrom, Room, CAPACITY};

fn feed(io: &mut LineIo, data: &[u8]) -> Room {
    let room = io.prepare_read();
    assert!(data.len() <= room.space);
    assert_eq!(io.read_from(Ok(data)), ReadFrom::Read(data.len()));
    room
}

fn drain(io: &mut LineIo) -> Vec<Vec<u8>> {
    let mut lines = Vec::new();
    while let Some(line) = io.find_line() {
        lines.push(line.to_vec());
    }
    lines
}

#[test]
fn new_buffer_has_no_line() {
    let mut io = LineIo::new();
    assert_eq!(io.find_line(), None);
    assert_eq!(io.describe(), "LineIo { head: 0, tail: 0 }");
}

#[test]
fn a_line_keeps_its_newline() {
    let mut io = LineIo::new();
    feed(&mut io, b"one\ntwo\nthr");
    assert_eq!(io.find_line(), Some(&b"one\n"[..]));
    assert_eq!(io.find_line(), Some(&b"two\n"[..]));
    assert_eq!(io.find_line(), None);
    assert_eq!(io.describe(), "LineIo { head: 8, tail: 11 }");
    feed(&mut io, b"ee\n");
    assert_eq!(io.find_line(), Some(&b"three\n"[..]));
}

#[test]
fn an_empty_line_is_a_newline() {
    let mut io = LineIo::new();
    feed(&mut io, b"\n\nx");
    assert_eq!(io.find_line(), Some(&b"\n"[..]));
    assert_eq!(io.find_line(), Some(&b"\n"[..]));
    assert_eq!(io.find_line(), None);
}

#[test]
fn no_data_gives_no_line() {
    let mut io = LineIo::new();
    feed(&mut io, b"");
    assert_eq!(io.find_line(), None);
}

#[test]
fn lines_do_not_depend_on_chunks() {
    let stream = b"alpha\n\nbeta gamma\ndelta";
    let mut whole = LineIo::new();
    feed(&mut whole, stream);
    let expected = drain(&mut whole);
    assert_eq!(expected.len(), 3);
    for size in 1..stream.len() {
        let mut io = LineIo::new();
        let mut lines = Vec::new();
        for chunk in stream.chunks(size) {
            feed(&mut io, chunk);
            lines.extend(drain(&mut io));
        }
        assert_eq!(lines, expected);
    }
}

#[test]
fn lines_and_remainder_make_up_the_stream() {
    let stream = b"a\nbb\n\nccc\nrest";
    let mut io = LineIo::new();
    feed(&mut io, stream);
    let mut joined: Vec<u8> = drain(&mut io).concat();
    feed(&mut io, b"\n");
    joined.extend_from_slice(io.find_line().unwrap());
    assert_eq!(joined, b"a\nbb\n\nccc\nrest\n".to_vec());
}

#[test]
fn text_lines() {
    let mut io = LineIo::new();
    feed(&mut io, "gr\u{fc}n\n".as_bytes());
    assert_eq!(io.find_line_utf8().unwrap(), Some("gr\u{fc}n\n"));
    assert_eq!(io.find_line_utf8().unwrap(), None);
}

#[test]
fn a_line_that_is_not_text_is_reported_and_dropped() {
    let mut io = LineIo::new();
    feed(&mut io, b"\xff\xfe\nok\n");
    let e = io.find_line_utf8().unwrap_err();
    assert_eq!(e.kind, ErrorKind::InvalidData);
    assert_eq!(e.message, "stream did not contain valid UTF-8");
    assert_eq!(io.find_line_utf8().unwrap(), Some("ok\n"));
}

#[test]
fn a_cut_character_is_not_text() {
    let mut io = LineIo::new();
    feed(&mut io, b"\xc3\n\xed\xa0\x80\n");
    assert!(io.find_line_utf8().is_err());
    assert!(io.find_line_utf8().is_err());
}

#[test]
fn interrupted_reads_are_tried_again() {
    let mut io = LineIo::new();
    let _ = io.prepare_read();
    assert_eq!(io.read_from(Err(ErrorKind::Interrupted)), ReadFrom::Retry);
    assert_eq!(
        io.read_from(Err(ErrorKind::WouldBlock)),
        ReadFrom::Failed(ErrorKind::WouldBlock)
    );
    assert_eq!(
        io.read_from(Err(ErrorKind::Other)),
        ReadFrom::Failed(ErrorKind::Other)
    );
    assert_eq!(io.describe(), "LineIo { head: 0, tail: 0 }");
}

#[test]
fn an_emptied_buffer_starts_over() {
    let mut io = LineIo::new();
    feed(&mut io, b"abc\n");
    let _ = io.find_line();
    assert_eq!(io.describe(), "LineIo { head: 4, tail: 4 }");
    io.realign_buffer();
    assert_eq!(io.describe(), "LineIo { head: 0, tail: 0 }");
}

#[test]
fn the_lower_half_is_not_moved() {
    let mut io = LineIo::new();
    let mut data = vec![b'x'; CAPACITY / 2 - 2];
    data.extend_from_slice(b"\nyz");
    feed(&mut io, &data);
    let _ = io.find_line();
    io.realign_buffer();
    assert_eq!(io.describe(), "LineIo { head: 8191, tail: 8193 }");
}

#[test]
fn the_upper_half_is_moved_to_the_start() {
    let mut io = LineIo::new();
    let mut data = vec![b'x'; CAPACITY / 2 - 1];
    data.extend_from_slice(b"\nyz");
    feed(&mut io, &data);
    let _ = io.find_line();
    io.realign_buffer();
    assert_eq!(io.describe(), "LineIo { head: 0, tail: 2 }");
    feed(&mut io, b"!\n");
    assert_eq!(io.find_line(), Some(&b"yz!\n"[..]));
}

#[test]
fn an_overlong_line_is_discarded() {
    let mut io = LineIo::new();
    feed(&mut io, &vec![b'x'; CAPACITY]);
    assert_eq!(io.find_line(), None);
    let room = io.prepare_read();
    assert_eq!(room.space, CAPACITY);
    assert!(room.discarded);
    assert_eq!(io.describe(), "LineIo { head: 0, tail: 0 }");
}

#[test]
fn a_remainder_of_half_the_buffer_is_kept() {
    let mut io = LineIo::new();
    let mut data = vec![b'x'; CAPACITY / 2 - 1];
    data.push(b'\n');
    data.extend_from_slice(&vec![b'y'; CAPACITY / 2]);
    feed(&mut io, &data);
    let _ = io.find_line();
    let room = io.prepare_read();
    assert!(!room.discarded);
    assert_eq!(room.space, CAPACITY / 2);
    assert_eq!(io.read_from(Ok(b"\n")), ReadFrom::Read(1));
    assert_eq!(io.find_line().unwrap().len(), CAPACITY / 2 + 1);
}

#[test]
fn a_longer_remainder_behind_a_short_line_is_discarded() {
    let mut io = LineIo::new();
    let mut data = vec![b'x'; CAPACITY / 2 - 2];
    data.push(b'\n');
    data.extend_from_slice(&vec![b'y'; CAPACITY / 2 + 1]);
    assert_eq!(data.len(), CAPACITY);
    feed(&mut io, &data);
    let _ = io.find_line();
    assert!(io.prepare_read().discarded);
    assert_eq!(io.find_line(), None);
}

#[test]
fn lines_of_half_the_buffer_always_come_through() {
    let mut line = vec![b'z'; CAPACITY / 2 - 1];
    line.push(b'\n');
    let stream = line.repeat(7);
    let mut io = LineIo::new();
    let mut count = 0;
    let mut sent = 0;
    while sent < stream.len() {
        let room = io.prepare_read();
        assert!(!room.discarded);
        let n = room.space.min(5000).min(stream.len() - sent);
        assert_eq!(io.read_from(Ok(&stream[sent..sent + n])), ReadFrom::Read(n));
        sent += n;
        for found in drain(&mut io) {
            assert_eq!(found, line);
            count += 1;
        }
    }
    assert_eq!(count, 7);
}

#[test]
fn realigning_again_changes_nothing() {
    let mut io = LineIo::new();
    let mut data = vec![b'x'; CAPACITY / 2];
    data.extend_from_slice(b"\nyz\nw");
    feed(&mut io, &data);
    let _ = io.find_line();
    io.realign_buffer();
    let once = io.describe();
    assert_eq!(once, "LineIo { head: 0, tail: 4 }");
    io.realign_buffer();
    assert_eq!(io.describe(), once);
    assert_eq!(io.find_line(), Some(&b"yz\n"[..]));
}
