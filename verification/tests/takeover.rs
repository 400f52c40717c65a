use potato::error::ErrorKind;
use potato::ipc::{IpcConnection, ReadOutcome, WriteStep};
use potato::message::Message;
use potato::takeover::{fds_payload, recv_fds, ControlData, Replace, Takeover, TakeoverStep};

#[test]
fn replacing_has_three_names() {
    assert_eq!(Replace::parse("nope"), Some(Replace::Nope));
    assert_eq!(Replace::parse("try"), Some(Replace::Try));
    assert_eq!(Replace::parse("must"), Some(Replace::Must));
    assert_eq!(Replace::parse("Must"), None);
    assert_eq!(Replace::parse(""), None);
    assert!(!Replace::Nope.asks());
    assert!(Replace::Try.asks());
    assert!(Replace::Must.asks());
}

#[test]
fn failing_to_replace_matters_only_where_it_must_work() {
    let found: Result<Option<i32>, u8> = Ok(Some(4));
    let failed: Result<Option<i32>, u8> = Err(1);
    assert_eq!(Replace::Nope.settle(found), Ok(None));
    assert_eq!(Replace::Nope.settle(failed), Ok(None));
    assert_eq!(Replace::Try.settle(found), Ok(Some(4)));
    assert_eq!(Replace::Try.settle(failed), Ok(None));
    assert_eq!(Replace::Must.settle(found), Ok(Some(4)));
    assert_eq!(Replace::Must.settle(failed), Err(1));
}

#[test]
fn descriptors_come_as_rights() {
    assert_eq!(
        recv_fds(Some(ControlData::Rights(vec![3, 4]))).unwrap(),
        vec![3, 4]
    );
    let other = recv_fds(Some(ControlData::Other)).unwrap_err();
    assert_eq!(other.kind, ErrorKind::InvalidData);
    assert_eq!(other.message, "unexpected control message");
    let none = recv_fds(None).unwrap_err();
    assert_eq!(none.kind, ErrorKind::InvalidData);
    assert_eq!(none.message, "no control message found");
    assert_eq!(fds_payload(), b"hi".to_vec());
}

fn exchange(fds: &[i32], n: usize) -> (Option<i32>, bool) {
    let asking = Takeover::new();
    assert_eq!(
        asking.step(),
        TakeoverStep::Send(b"\"RequestFds\"\n".to_vec())
    );
    let receiving = asking.sent();
    assert_eq!(receiving.step(), TakeoverStep::Receive);
    let leaving = receiving.received(fds);
    assert_eq!(leaving.step(), TakeoverStep::Send(b"\"Quit\"\n".to_vec()));
    let draining = leaving.sent();
    assert_eq!(draining.step(), TakeoverStep::Drain);
    let (done, unexpected) = draining.drained(n);
    match done.step() {
        TakeoverStep::Finish(fd) => (fd, unexpected),
        _ => panic!("the exchange is not over"),
    }
}

#[test]
fn the_first_descriptor_is_taken_over() {
    assert_eq!(exchange(&[], 0), (None, false));
    assert_eq!(exchange(&[8], 0), (Some(8), false));
    assert_eq!(exchange(&[8, 9], 0), (Some(8), false));
    assert_eq!(exchange(&[8], 3), (Some(8), true));
}

fn parse(line: &str) -> Option<Message> {
    let name: String = serde_json::from_str(line).ok()?;
    match name.as_str() {
        "RequestFds" => Some(Message::RequestFds),
        "Quit" => Some(Message::Quit),
        _ => None,
    }
}

#[test]
fn the_connection_is_handed_over() {
    for chat_fd in [None, Some(6)] {
        let mut old = IpcConnection::from_stream(0u32);
        let asking = Takeover::new();
        let request = match asking.step() {
            TakeoverStep::Send(bytes) => bytes,
            _ => panic!("nothing is asked"),
        };
        let _ = old.readbuf.prepare_read();
        let _ = old.readbuf.read_from(Ok(&request));
        assert_eq!(old.read(Ok(request.len()), parse), ReadOutcome::Rearm);
        let fds = match old.write(chat_fd) {
            WriteStep::SendFds(fds) => fds,
            _ => panic!("no descriptors are sent"),
        };
        let _ = old.wrote(Ok(2));
        let leaving = asking.sent().received(&fds);
        let quit = match leaving.step() {
            TakeoverStep::Send(bytes) => bytes,
            _ => panic!("nothing is said at last"),
        };
        let _ = old.readbuf.prepare_read();
        let _ = old.readbuf.read_from(Ok(&quit));
        assert_eq!(old.read(Ok(quit.len()), parse), ReadOutcome::Quit);
        let (done, _) = leaving.sent().drained(0);
        assert_eq!(done.step(), TakeoverStep::Finish(chat_fd));
    }
}
