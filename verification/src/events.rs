//! How the event loop assigns events and how long it waits for them.
use crate::chat::{delay_millis, law_delay_grows_to_its_limit, State, NANOS_PER_MILLI};
use crate::poll::{Readiness, CHAT_TOKEN, IPC_PEER_TOKEN, IPC_SERVER_TOKEN};
use vstd::prelude::*;

verus! {

/// Who handles an event.
#[derive(Clone, Copy, Debug, PartialEq, Eq, Structural)]
pub enum Handler {
    /// The listening socket: accept a peer.
    Connect,
    /// The peer's stream is gone.
    LostPeer,
    /// The peer's stream is ready.
    PeerEvent,
    /// The chat connection.
    Chat,
}

/// How long to wait for events. Times are nanoseconds.
#[derive(Clone, Copy, Debug, PartialEq, Eq, Structural)]
pub enum Timer {
    /// Wake the chat client up first, then wait without a limit.
    Wake,
    /// No longer than this.
    Wait(u128),
    /// Without a limit.
    Forever,
}

/// Assigns an event to its handler.
pub fn dispatch(token: usize, ready: Readiness) -> (handler: Handler)
    requires
        token == IPC_SERVER_TOKEN || token == IPC_PEER_TOKEN || token == CHAT_TOKEN,
    ensures
        handler == if token == IPC_SERVER_TOKEN {
            Handler::Connect
        } else if token == CHAT_TOKEN {
            Handler::Chat
        } else if ready.hup || ready.error {
            Handler::LostPeer
        } else {
            Handler::PeerEvent
        },
{
    if token == IPC_SERVER_TOKEN {
        Handler::Connect
    } else if token == IPC_PEER_TOKEN {
        if ready.hup || ready.error {
            Handler::LostPeer
        } else {
            Handler::PeerEvent
        }
    } else {
        Handler::Chat
    }
}

/// How long to wait at `now` for events where the chat client is due at `wake_at`, if it waits.
pub open spec fn timer_for(wake_at: Option<u128>, now: u128) -> Timer {
    match wake_at {
        None => Timer::Forever,
        Some(due) => if due < now {
            Timer::Wake
        } else {
            Timer::Wait((due - now) as u128)
        },
    }
}

/// Decides how long to wait at `now`, `wake_at` being when the chat client is due, if it waits.
pub fn timer(wake_at: Option<u128>, now: u128) -> (timer: Timer)
    ensures
        timer == timer_for(wake_at, now),
        wake_at is None ==> timer == Timer::Forever,
        wake_at matches Some(due) ==> if due < now {
            timer == Timer::Wake
        } else {
            timer matches Timer::Wait(span) && now + span == due
        },
{
    match wake_at {
        None => Timer::Forever,
        Some(due) => if due < now {
            Timer::Wake
        } else {
            Timer::Wait(due - now)
        },
    }
}

/// After a connection is lost, the client is woken up only once its delay is over, and until then
/// the event loop waits for no longer than what is left of it.
pub proof fn law_delay_is_waited_out<S>(state: State<S>, lost_at: u128, now: u128)
    requires
        state is Connecteding,
        state.loss_fits(lost_at),
    ensures
        ({
            let due = lost_at + delay_millis(state.failures() + 1) * NANOS_PER_MILLI;
            match state.after_loss(lost_at) {
                State::Waiting { wake_at, .. } => {
                    let timer = timer_for(Some(wake_at), now);
                    &&& timer == Timer::Wake <==> now > due
                    &&& now <= due ==> timer == Timer::Wait((due - now) as u128)
                },
                State::Connecteding { .. } => false,
            }
        }),
{
    law_delay_grows_to_its_limit(0, (state.failures() + 1) as nat);
}

/// A client that waits for no attempt never cuts the wait for events short, whatever the time; and
/// one that waits for an attempt never makes the wait endless.
pub proof fn law_only_a_due_time_limits_the_wait(wake_at: Option<u128>, now: u128)
    ensures
        timer_for(wake_at, now) == Timer::Forever <==> wake_at is None,
{
}

/// The client is woken up exactly when its time has passed, and until then the wait ends at that
/// time, whenever it begins.
pub proof fn law_wait_ends_at_the_due_time(due: u128, now: u128)
    ensures
        timer_for(Some(due), now) == Timer::Wake <==> due < now,
        due >= now ==> (timer_for(Some(due), now) matches Timer::Wait(span) && now + span == due),
{
}

/// Beginning to wait later makes the wait shorter by as much.
pub proof fn law_a_later_wait_is_shorter(due: u128, now: u128, later: u128)
    requires
        now <= later <= due,
    ensures
        ({
            let first = timer_for(Some(due), now);
            let second = timer_for(Some(due), later);
            &&& first is Wait
            &&& second is Wait
            &&& first->Wait_0 - second->Wait_0 == later - now
        }),
{
}

} // verus!
