use potato::chat::Client;
use potato::events::{dispatch, timer, Handler, Timer};
use potato::poll::{Readiness, CHAT_TOKEN, IPC_PEER_TOKEN, IPC_SERVER_TOKEN};

const QUIET: Readiness = Readiness {
    readable: false,
    writable: false,
    hup: false,
    error: false,
};

#[test]
fn events_go_to_their_handlers() {
    let hup = Readiness { hup: true, ..QUIET };
    let error = Readiness {
        error: true,
        ..QUIET
    };
    assert_eq!(dispatch(IPC_SERVER_TOKEN, hup), Handler::Connect);
    assert_eq!(dispatch(IPC_PEER_TOKEN, hup), Handler::LostPeer);
    assert_eq!(dispatch(IPC_PEER_TOKEN, error), Handler::LostPeer);
    assert_eq!(dispatch(IPC_PEER_TOKEN, QUIET), Handler::PeerEvent);
    assert_eq!(dispatch(CHAT_TOKEN, hup), Handler::Chat);
    assert_eq!(dispatch(CHAT_TOKEN, QUIET), Handler::Chat);
}

#[test]
fn the_timer_goes_by_the_wake_time() {
    assert_eq!(timer(None, 5), Timer::Forever);
    assert_eq!(timer(Some(4), 5), Timer::Wake);
    assert_eq!(timer(Some(5), 5), Timer::Wait(0));
    assert_eq!(timer(Some(12), 5), Timer::Wait(7));
}

#[test]
fn a_lost_connection_waits_its_delay_out() {
    let mut client = Client::from_stream(0u32);
    let _ = client.reconnect(100);
    client.woken(1);
    assert_eq!(client.reconnect(1_000), Some(8));
    assert_eq!(timer(client.wake_at(), 1_000), Timer::Wait(8_000_000));
    assert_eq!(timer(client.wake_at(), 8_001_000), Timer::Wait(0));
    assert_eq!(timer(client.wake_at(), 8_001_001), Timer::Wake);
    client.woken(2);
    assert_eq!(timer(client.wake_at(), 8_001_001), Timer::Forever);
}
