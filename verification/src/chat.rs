//! The chat connection: when it is lost it is made anew, after a delay that grows with every
//! failure in a row.
use crate::error::ErrorKind;
use crate::poll::{Mode, Readiness, Registration, CHAT_TOKEN};
use vstd::prelude::*;

verus! {

/// The longest delay before a new attempt, in milliseconds.
pub const MAX_DELAY_MILLIS: usize = 500;

/// How many units of time, which are nanoseconds, a millisecond has.
pub const NANOS_PER_MILLI: u128 = 1_000_000;

/// The third power of no number up to this exceeds a machine word.
pub const CUBE_ROOT_LIMIT: usize = 1625;

/// `n` to the third power.
pub open spec fn cube(n: int) -> int {
    n * n * n
}

/// The delay before the next attempt after `failures` failures in a row, in milliseconds.
pub open spec fn delay_millis(failures: int) -> int {
    if cube(failures) < MAX_DELAY_MILLIS {
        cube(failures)
    } else {
        MAX_DELAY_MILLIS as int
    }
}

/// Where the connection stands; `S` is the type of its stream. Times are nanoseconds since a
/// fixed moment.
#[derive(Debug)]
pub enum State<S> {
    /// There is no connection, and the next attempt is due at `wake_at`.
    Waiting { failures: usize, wake_at: u128 },
    /// There is a connection, or an attempt at one.
    Connecteding { failures: usize, stream: S },
}

impl<S> State<S> {
    /// How many attempts have failed since the last success.
    pub open spec fn failures(self) -> usize {
        match self {
            State::Waiting { failures, .. } => failures,
            State::Connecteding { failures, .. } => failures,
        }
    }

    /// The state after the connection is lost at `now`.
    pub open spec fn after_loss(self, now: u128) -> Self {
        match self {
            State::Waiting { .. } => self,
            State::Connecteding { failures, .. } => State::Waiting {
                failures: (failures + 1) as usize,
                wake_at: (now + delay_millis(failures + 1) * NANOS_PER_MILLI) as u128,
            },
        }
    }

    /// The state after a new attempt over `stream` is begun.
    pub open spec fn after_attempt(self, stream: S) -> Self {
        match self {
            State::Waiting { failures, .. } => State::Connecteding { failures, stream },
            State::Connecteding { .. } => self,
        }
    }

    /// The state after the attempt has succeeded.
    pub open spec fn after_success(self) -> Self {
        match self {
            State::Waiting { .. } => self,
            State::Connecteding { stream, .. } => State::Connecteding { failures: 0, stream },
        }
    }

    /// A loss at `now` can be counted and its delay be computed in machine integers.
    pub open spec fn loss_fits(self, now: u128) -> bool {
        self matches State::Connecteding { failures, .. } ==> {
            &&& failures < CUBE_ROOT_LIMIT || cube(failures + 1) <= usize::MAX
            &&& now + delay_millis(failures + 1) * NANOS_PER_MILLI <= u128::MAX
        }
    }
}

/// What an event of the connection calls for.
#[derive(Clone, Copy, Debug, PartialEq, Eq, Structural)]
pub enum ChatAction {
    /// The connection is lost: give it up and call `reconnect`.
    Reconnect,
    /// There is text to copy; its outcome goes to `copied`.
    Copy,
    /// The connection is made: register it for reading.
    Connected,
    Nothing,
}

/// What follows from copying text.
#[derive(Clone, Copy, Debug, PartialEq, Eq, Structural)]
pub enum Copied {
    /// The server has closed the connection.
    Reconnect,
    /// All that there was is copied.
    Done,
    Failed(ErrorKind),
}

/// A client of the chat server.
#[derive(Debug)]
pub struct Client<S> {
    pub state: State<S>,
}

impl<S> Client<S> {
    /// A client that uses `stream`, which may still be connecting.
    pub fn from_stream(stream: S) -> (client: Self)
        ensures
            client.state == (State::Connecteding { failures: 0, stream }),
    {
        Client { state: State::Connecteding { failures: 0, stream } }
    }

    /// What a stream is registered for while it is connecting.
    pub fn connecting_registration() -> (r: Registration)
        ensures
            r == (Registration {
                token: CHAT_TOKEN,
                readable: false,
                writable: true,
                mode: Mode::Oneshot,
            }),
    {
        Registration { token: CHAT_TOKEN, readable: false, writable: true, mode: Mode::Oneshot }
    }

    /// What a stream is registered for once it is connected.
    pub fn connected_registration() -> (r: Registration)
        ensures
            r == (Registration {
                token: CHAT_TOKEN,
                readable: true,
                writable: false,
                mode: Mode::Level,
            }),
    {
        Registration { token: CHAT_TOKEN, readable: true, writable: false, mode: Mode::Level }
    }

    /// The stream, unless the client waits for its next attempt.
    pub fn stream(&self) -> (stream: Option<&S>)
        ensures
            match self.state {
                State::Waiting { .. } => stream is None,
                State::Connecteding { stream: s, .. } => stream == Some(&s),
            },
    {
        match &self.state {
            State::Waiting { .. } => None,
            State::Connecteding { stream, .. } => Some(stream),
        }
    }

    /// When the next attempt is due, if the client waits for one.
    pub fn wake_at(&self) -> (due: Option<u128>)
        ensures
            due == match self.state {
                State::Waiting { wake_at, .. } => Some(wake_at),
                State::Connecteding { .. } => None,
            },
    {
        match &self.state {
            State::Waiting { wake_at, .. } => Some(*wake_at),
            State::Connecteding { .. } => None,
        }
    }

    /// Whether waking the client up calls for a new stream, to be handed to `woken`.
    pub fn wake_up(&self) -> (attempt: bool)
        ensures
            attempt <==> self.state is Waiting,
    {
        match &self.state {
            State::Waiting { .. } => true,
            State::Connecteding { .. } => false,
        }
    }

    /// Begins a new attempt over `stream`. The failures so far stay counted.
    pub fn woken(&mut self, stream: S)
        requires
            old(self).state is Waiting,
        ensures
            final(self).state == old(self).state.after_attempt(stream),
            old(self).state matches State::Waiting { failures, .. } && final(self).state == (
            State::Connecteding { failures, stream }),
    {
        if let State::Waiting { failures, .. } = &self.state {
            let failures: usize = *failures;
            self.state = State::Connecteding { failures, stream };
        }
    }

    /// Decides what an event calls for. An attempt that succeeds ends the run of failures.
    pub fn event(&mut self, ready: Readiness) -> (action: ChatAction)
        requires
            ready.hup || ready.error || !(ready.readable || ready.writable) || old(
                self,
            ).state is Connecteding,
        ensures
            action == if ready.hup || ready.error {
                ChatAction::Reconnect
            } else if ready.readable {
                ChatAction::Copy
            } else if ready.writable {
                ChatAction::Connected
            } else {
                ChatAction::Nothing
            },
            final(self).state == if action == ChatAction::Connected {
                old(self).state.after_success()
            } else {
                old(self).state
            },
            action == ChatAction::Connected ==> (old(self).state matches State::Connecteding {
                stream,
                ..
            } && final(self).state == (State::Connecteding { failures: 0, stream })),
    {
        if ready.hup || ready.error {
            ChatAction::Reconnect
        } else if ready.readable {
            ChatAction::Copy
        } else if ready.writable {
            match &mut self.state {
                State::Connecteding { failures, .. } => {
                    *failures = 0;
                },
                State::Waiting { .. } => {},
            }
            ChatAction::Connected
        } else {
            ChatAction::Nothing
        }
    }

    /// Decides what follows from copying text, `result` being how many bytes were copied.
    pub fn copied(result: Result<u64, ErrorKind>) -> (next: Copied)
        ensures
            next == match result {
                Ok(0) => Copied::Reconnect,
                Ok(_) => Copied::Done,
                Err(ErrorKind::WouldBlock) => Copied::Done,
                Err(kind) => Copied::Failed(kind),
            },
    {
        match result {
            Ok(n) => if n == 0 {
                Copied::Reconnect
            } else {
                Copied::Done
            },
            Err(ErrorKind::WouldBlock) => Copied::Done,
            Err(kind) => Copied::Failed(kind),
        }
    }

    /// Gives the connection up at `now` and waits for the next attempt. Returns the delay in
    /// milliseconds, or nothing where the client waits already.
    pub fn reconnect(&mut self, now: u128) -> (delay: Option<u64>)
        requires
            old(self).state.loss_fits(now),
        ensures
            final(self).state == old(self).state.after_loss(now),
            match old(self).state {
                State::Waiting { .. } => delay is None,
                State::Connecteding { failures, .. } => delay == Some(
                    delay_millis(failures + 1) as u64,
                ),
            },
            match old(self).state {
                State::Waiting { .. } => final(self).state == old(self).state,
                State::Connecteding { failures, .. } => {
                    &&& delay matches Some(d) && d == delay_millis(failures + 1)
                    &&& final(self).state matches State::Waiting { failures: count, wake_at }
                        && count == failures + 1 && wake_at == now + delay->0 * 1_000_000
                },
            },
    {
        let failures: usize = match &self.state {
            State::Waiting { .. } => {
                return None;
            },
            State::Connecteding { failures, .. } => {
                proof {
                    lemma_cube_bounds(*failures + 1);
                }
                *failures + 1
            },
        };
        let delay: u64 = backoff_millis(failures);
        let wake_at: u128 = now + delay as u128 * NANOS_PER_MILLI;
        self.state = State::Waiting { failures, wake_at };
        Some(delay)
    }
}

/// The delay after `failures` failures in a row.
pub fn backoff_millis(failures: usize) -> (delay: u64)
    requires
        failures <= CUBE_ROOT_LIMIT || cube(failures as int) <= usize::MAX,
    ensures
        delay == delay_millis(failures as int),
{
    proof {
        lemma_cube_bounds(failures as int);
    }
    let cubed: usize = failures * failures * failures;
    if cubed < MAX_DELAY_MILLIS {
        cubed as u64
    } else {
        MAX_DELAY_MILLIS as u64
    }
}

/// A natural number and its square are no larger than its cube, which fits a machine word up to
/// the limit.
proof fn lemma_cube_bounds(n: int)
    requires
        n >= 0,
    ensures
        n <= n * n <= cube(n),
        n <= CUBE_ROOT_LIMIT ==> cube(n) <= usize::MAX,
{
    if n <= CUBE_ROOT_LIMIT {
        assert(n * n * n <= 1625 * 1625 * 1625) by (nonlinear_arith)
            requires
                0 <= n <= 1625,
        ;
    }
    assert(n <= n * n) by (nonlinear_arith)
        requires
            n >= 0,
    ;
    assert(n * n <= n * n * n) by (nonlinear_arith)
        requires
            n >= 0,
    ;
}

/// The delay never shrinks while failures follow one another, and never exceeds its limit.
pub proof fn law_delay_grows_to_its_limit(failures: nat, later: nat)
    requires
        failures <= later,
    ensures
        0 <= delay_millis(failures as int) <= delay_millis(later as int) <= MAX_DELAY_MILLIS,
{
    let (a, b) = (failures as int, later as int);
    assert(0 <= a * a * a <= b * b * b) by (nonlinear_arith)
        requires
            0 <= a <= b,
    ;
}

/// The state after losing the connection and beginning a new attempt again and again, at these
/// times and over these streams.
pub open spec fn after_losses<S>(state: State<S>, losses: Seq<(u128, S)>) -> State<S>
    decreases losses.len(),
{
    if losses.len() == 0 {
        state
    } else {
        let (now, stream) = losses.last();
        after_losses(state, losses.drop_last()).after_loss(now).after_attempt(stream)
    }
}

/// Failures add up until an attempt succeeds: a run of losses without a success in between is
/// counted in full, the delay after one more loss goes by that count, and a success starts it
/// over.
pub proof fn law_failures_add_up_until_success<S>(
    state: State<S>,
    losses: Seq<(u128, S)>,
    now: u128,
)
    requires
        state is Connecteding,
        state.failures() + losses.len() < usize::MAX,
    ensures
        ({
            let after = after_losses(state, losses);
            let count = state.failures() + losses.len();
            &&& after is Connecteding
            &&& after.failures() == count
            &&& after.after_loss(now) == (State::<S>::Waiting {
                failures: (count + 1) as usize,
                wake_at: (now + delay_millis(count + 1) * NANOS_PER_MILLI) as u128,
            })
            &&& after.after_success().failures() == 0
        }),
    decreases losses.len(),
{
    if losses.len() > 0 {
        law_failures_add_up_until_success(state, losses.drop_last(), now);
    }
}

/// After fewer than eight failures the delay is their number to the third power, and from the
/// eighth on it is half a second.
pub proof fn law_delay_is_a_cube_up_to_half_a_second(failures: nat)
    ensures
        cube(failures as int) == failures * failures * failures,
        failures < 8 ==> delay_millis(failures as int) == failures * failures * failures,
        failures >= 8 ==> delay_millis(failures as int) == 500,
{
    let n = failures as int;
    if n < 8 {
        assert(n * n * n < 500) by (nonlinear_arith)
            requires
                0 <= n <= 7,
        ;
    } else {
        assert(n * n * n >= 500) by (nonlinear_arith)
            requires
                n >= 8,
        ;
    }
}

/// A loss leaves a client that waits as it is. Of one that has a connection it adds one to the
/// failures, and makes the next attempt due when the delay for that number has passed.
pub proof fn law_loss_adds_one_failure<S>(state: State<S>, now: u128)
    requires
        state.loss_fits(now),
    ensures
        match state {
            State::Waiting { .. } => state.after_loss(now) == state,
            State::Connecteding { failures, .. } => state.after_loss(now) matches State::Waiting {
                failures: count,
                wake_at,
            } && count == failures + 1 && wake_at == now + delay_millis(failures + 1) * 1_000_000,
        },
{
    if let State::Connecteding { failures, .. } = state {
        lemma_cube_bounds(failures + 1);
        law_delay_grows_to_its_limit(0, (failures + 1) as nat);
    }
}

/// An attempt keeps the failures and uses the new stream; a success forgets the failures and keeps
/// the stream; neither does anything to a client in the other state.
pub proof fn law_attempt_keeps_failures_and_success_keeps_the_stream<S>(
    failures: usize,
    wake_at: u128,
    old_stream: S,
    stream: S,
)
    ensures
        ({
            let waiting = State::<S>::Waiting { failures, wake_at };
            let connected = State::Connecteding { failures, stream: old_stream };
            &&& waiting.failures() == failures
            &&& connected.failures() == failures
            &&& waiting.after_attempt(stream) == (State::Connecteding { failures, stream })
            &&& connected.after_attempt(stream) == connected
            &&& connected.after_success() == (State::Connecteding {
                failures: 0,
                stream: old_stream,
            })
            &&& waiting.after_success() == waiting
        }),
{
}

/// A loss can be handled exactly where the third power of the new number of failures fits a
/// machine word and the due time fits the clock.
pub proof fn law_loss_fits_exactly_machine_limits<S>(state: State<S>, now: u128)
    ensures
        state is Waiting ==> state.loss_fits(now),
        state matches State::Connecteding { failures, .. } ==> (state.loss_fits(now) <==> {
            &&& (failures + 1) * (failures + 1) * (failures + 1) <= usize::MAX
            &&& now + delay_millis(failures + 1) * 1_000_000 <= u128::MAX
        }),
{
    if let State::Connecteding { failures, .. } = state {
        lemma_cube_bounds(failures + 1);
    }
}

} // verus!
