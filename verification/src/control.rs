//! Whether the event loop goes on.
use crate::buckets::{
    law_add_one_counts_in_the_round, law_sum_counts_the_recent_rounds,
    lemma_total_with_one_changed, recent_events, records, total, BucketCounts,
};
use crate::text::{decimal, decimal_text};
use vstd::prelude::*;
use vstd::std_specs::convert::{FromSpec, FromSpecImpl};

verus! {

/// Over how many rounds of the event loop errors are counted.
pub const ERROR_ROUNDS: usize = 12;

/// What the event loop does after an event.
#[derive(Debug, PartialEq)]
pub enum Control {
    Continue,
    /// Stop, for this reason.
    Quit(String),
}

impl Default for Control {
    fn default() -> (c: Self)
        ensures
            c == Control::Continue,
    {
        Control::Continue
    }
}

impl From<()> for Control {
    fn from(_unit: ()) -> (c: Control) {
        Control::default()
    }
}

impl FromSpecImpl<()> for Control {
    open spec fn obeys_from_spec() -> bool {
        true
    }

    open spec fn from_spec(_unit: ()) -> Control {
        Control::Continue
    }
}

/// Turns success without a value into success with a default value.
pub trait MapDefault<T, E>: Sized {
    fn map_default(self) -> (mapped: Result<T, E>);
}

impl<D: Default, E> MapDefault<D, E> for Result<(), E> {
    fn map_default(self) -> (mapped: Result<D, E>)
        ensures
            match self {
                Ok(_) => mapped matches Ok(value) && call_ensures(D::default, (), value),
                Err(e) => mapped == Err::<D, E>(e),
            },
    {
        match self {
            Ok(_) => Ok(D::default()),
            Err(e) => Err(e),
        }
    }
}

/// The reason for stopping after too many errors.
pub open spec fn too_many_errors(errors: nat) -> Seq<char> {
    "too many ("@ + decimal_text(errors) + ") errors too quickly"@
}

/// What is known of the peer that asks for a stop.
pub open spec fn peer_label(peer: Result<Seq<char>, Seq<char>>) -> Seq<char> {
    match peer {
        Ok(address) => address,
        Err(error) => "(peer unknown; "@ + error + ")"@,
    }
}

/// Counts an error in the current round, and stops once half as many errors as there are buckets
/// were counted in the rounds that the buckets cover.
pub fn control_for_err(badness: &mut BucketCounts) -> (control: Control)
    requires
        old(badness).wf(),
        total(old(badness).counts()) < usize::MAX,
    ensures
        final(badness).wf(),
        final(badness).current == old(badness).current,
        final(badness).counts() == old(badness).counts().update(
            old(badness).current as int,
            (old(badness).counts()[old(badness).current as int] + 1) as usize,
        ),
        total(final(badness).counts()) == total(old(badness).counts()) + 1,
        final(final(badness).buckets)@ == final(old(badness).buckets)@,
        match control {
            Control::Continue => total(old(badness).counts()) + 1 < old(badness).counts().len() / 2,
            Control::Quit(why) => {
                &&& total(old(badness).counts()) + 1 >= old(badness).counts().len() / 2
                &&& why@ == too_many_errors(total(old(badness).counts()) + 1)
                &&& why@ == "too many ("@ + decimal_text(total(old(badness).counts()) + 1)
                    + ") errors too quickly"@
            },
        },
{
    proof {
        let at = badness.current as int;
        lemma_total_with_one_changed(badness.counts(), at, 0);
        lemma_total_with_one_changed(
            badness.counts(),
            at,
            (badness.counts()[at] + 1) as usize,
        );
    }
    let _ = badness.add_one();
    let errcount = badness.sum();
    if errcount < badness.buckets.len() / 2 {
        Control::Continue
    } else {
        let mut why = String::from_str("too many (");
        why.append(decimal(errcount).as_str());
        why.append(") errors too quickly");
        Control::Quit(why)
    }
}

/// Stops on request of the peer, whose address, or the failure to learn it, is `peer`.
pub fn stop_requested(peer: Result<&str, &str>) -> (control: Control)
    ensures
        control matches Control::Quit(why) && why@ == "stop requested by: "@ + peer_label(
            match peer {
                Ok(address) => Ok(address@),
                Err(error) => Err(error@),
            },
        ),
        control matches Control::Quit(why) && match peer {
            Ok(address) => why@ == "stop requested by: "@ + address@,
            Err(error) => why@ == "stop requested by: "@ + ("(peer unknown; "@ + error@ + ")"@),
        },
{
    let mut why = String::from_str("stop requested by: ");
    match peer {
        Ok(address) => {
            why.append(address);
        },
        Err(error) => {
            why.append("(peer unknown; ");
            why.append(error);
            why.append(")");
        },
    }
    assert(why@ =~= "stop requested by: "@ + peer_label(
        match peer {
            Ok(address) => Ok(address@),
            Err(error) => Err(error@),
        },
    ));
    Control::Quit(why)
}

/// Where the buckets record the errors of the rounds so far, the count that decides about
/// stopping is the number of errors in as many recent rounds as there are buckets, the error at
/// hand included.
pub proof fn law_recent_errors_decide(buckets: Seq<usize>, current: int, history: Seq<nat>)
    requires
        records(buckets, current, history),
        total(buckets) < usize::MAX,
    ensures
        total(buckets) + 1 == recent_events(
            history.update(history.len() - 1, history.last() + 1),
            buckets.len(),
        ),
{
    lemma_total_with_one_changed(buckets, current, (buckets[current] + 1) as usize);
    law_add_one_counts_in_the_round(buckets, current, history);
    law_sum_counts_the_recent_rounds(
        buckets.update(current, (buckets[current] + 1) as usize),
        current,
        history.update(history.len() - 1, history.last() + 1),
    );
}

/// The reason for stopping after errors holds their number between two fixed texts.
pub proof fn law_reason_holds_the_number(errors: nat)
    ensures
        ({
            let why = too_many_errors(errors);
            let (front, back) = ("too many ("@, ") errors too quickly"@);
            let start = front.len() as int;
            let end = start + decimal_text(errors).len();
            &&& why.len() == end + back.len()
            &&& why.take(start) == front
            &&& why.subrange(start, end) == decimal_text(errors)
            &&& why.skip(end) == back
        }),
{
    let why = too_many_errors(errors);
    let (front, back) = ("too many ("@, ") errors too quickly"@);
    let start = front.len() as int;
    let end = start + decimal_text(errors).len();
    assert(why.take(start) =~= front);
    assert(why.subrange(start, end) =~= decimal_text(errors));
    assert(why.skip(end) =~= back);
}

/// A peer whose address is known goes by it; one whose address is not goes by the failure to learn
/// it.
pub proof fn law_peer_goes_by_its_address(known: Seq<char>)
    ensures
        peer_label(Ok(known)) == known,
        peer_label(Err(known)) == "(peer unknown; "@ + known + ")"@,
{
}

/// Success without a value means to go on.
pub proof fn law_success_means_to_go_on()
    ensures
        <Control as FromSpec<()>>::obeys_from_spec(),
        <Control as FromSpec<()>>::from_spec(()) == Control::Continue,
{
}

/// Where errors are counted over the rounds that the event loop counts them over, it stops exactly
/// with an error that is at least the sixth within twelve rounds.
pub proof fn law_six_errors_in_twelve_rounds_stop(
    buckets: Seq<usize>,
    current: int,
    history: Seq<nat>,
)
    requires
        buckets.len() == ERROR_ROUNDS,
        records(buckets, current, history),
        total(buckets) < usize::MAX,
    ensures
        total(buckets) + 1 < buckets.len() / 2 <==> recent_events(
            history.update(history.len() - 1, history.last() + 1),
            12,
        ) < 6,
{
    law_recent_errors_decide(buckets, current, history);
}

} // verus!
