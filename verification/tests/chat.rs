use potato::chat::{backoff_millis, ChatAction, Client, Copied, State};
use potato::error::ErrorKind;
use potato::poll::{Mode, Readiness, Registration};

const QUIET: Readiness = Readiness {
    readable: false,
    writable: false,
    hup: false,
    error: false,
};

fn failures(client: &Client<u32>) -> usize {
    match client.state {
        State::Waiting { failures, .. } => failures,
        State::Connecteding { failures, .. } => failures,
    }
}

#[test]
fn the_delay_is_a_cube_up_to_half_a_second() {
    let delays: Vec<u64> = (0..10).map(backoff_millis).collect();
    assert_eq!(delays, vec![0, 1, 8, 27, 64, 125, 216, 343, 500, 500]);
    assert_eq!(backoff_millis(1625), 500);
}

#[test]
fn a_new_client_has_a_stream() {
    let client = Client::from_stream(9u32);
    assert_eq!(client.stream(), Some(&9));
    assert_eq!(client.wake_at(), None);
    assert!(!client.wake_up());
}

#[test]
fn a_lost_connection_is_made_anew_later() {
    let mut client = Client::from_stream(9u32);
    assert_eq!(client.reconnect(5_000_000), Some(1));
    assert_eq!(client.stream(), None);
    assert_eq!(client.wake_at(), Some(6_000_000));
    assert!(client.wake_up());
    client.woken(10);
    assert_eq!(client.stream(), Some(&10));
    assert_eq!(client.reconnect(7_000_000), Some(8));
    assert_eq!(client.wake_at(), Some(15_000_000));
}

#[test]
fn a_waiting_client_is_not_lost_again() {
    let mut client = Client::from_stream(9u32);
    let _ = client.reconnect(0);
    assert_eq!(client.reconnect(77), None);
    assert_eq!(client.wake_at(), Some(1_000_000));
    assert_eq!(failures(&client), 1);
}

#[test]
fn failures_add_up_until_success() {
    let mut client = Client::from_stream(0u32);
    for n in 1..12 {
        let _ = client.reconnect(0);
        client.woken(n);
        assert_eq!(failures(&client), n as usize);
    }
    let writable = Readiness {
        writable: true,
        ..QUIET
    };
    assert_eq!(client.event(writable), ChatAction::Connected);
    assert_eq!(failures(&client), 0);
    assert_eq!(client.stream(), Some(&11));
    assert_eq!(client.reconnect(0), Some(1));
}

#[test]
fn events_call_for_one_thing() {
    let mut client = Client::from_stream(0u32);
    let all = Readiness {
        readable: true,
        writable: true,
        hup: true,
        error: true,
    };
    assert_eq!(client.event(all), ChatAction::Reconnect);
    let hup = Readiness { hup: true, ..QUIET };
    assert_eq!(client.event(hup), ChatAction::Reconnect);
    let error = Readiness {
        error: true,
        ..QUIET
    };
    assert_eq!(client.event(error), ChatAction::Reconnect);
    let both = Readiness {
        readable: true,
        writable: true,
        ..QUIET
    };
    assert_eq!(client.event(both), ChatAction::Copy);
    assert_eq!(client.event(QUIET), ChatAction::Nothing);
}

#[test]
fn the_end_of_the_text_is_a_loss() {
    assert_eq!(Client::<u32>::copied(Ok(0)), Copied::Reconnect);
    assert_eq!(Client::<u32>::copied(Ok(1)), Copied::Done);
    assert_eq!(
        Client::<u32>::copied(Err(ErrorKind::WouldBlock)),
        Copied::Done
    );
    assert_eq!(
        Client::<u32>::copied(Err(ErrorKind::Other)),
        Copied::Failed(ErrorKind::Other)
    );
}

#[test]
fn a_connection_is_awaited_once_and_then_read() {
    assert_eq!(
        Client::<u32>::connecting_registration(),
        Registration {
            token: 2,
            readable: false,
            writable: true,
            mode: Mode::Oneshot,
        }
    );
    assert_eq!(
        Client::<u32>::connected_registration(),
        Registration {
            token: 2,
            readable: true,
            writable: false,
            mode: Mode::Level,
        }
    );
}
