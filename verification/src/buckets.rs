//! Counts of recent events, kept in one bucket per round.
use vstd::prelude::*;

verus! {

/// The total of `counts`.
pub open spec fn total(counts: Seq<usize>) -> nat
    decreases counts.len(),
{
    if counts.len() == 0 {
        0
    } else {
        total(counts.drop_last()) + counts.last() as nat
    }
}

/// Counts events in the bucket of the current round; a bucket is used anew once every other
/// bucket has had its turn.
pub struct BucketCounts<'a> {
    pub current: usize,
    pub buckets: &'a mut [usize],
}

impl<'a> BucketCounts<'a> {
    /// The count in each bucket.
    pub open spec fn counts(&self) -> Seq<usize> {
        self.buckets@
    }

    /// The current bucket is one of the buckets.
    pub open spec fn wf(&self) -> bool {
        self.current < self.counts().len()
    }

    /// Counts in the given buckets, beginning with the first.
    pub fn with_buckets(buckets: &'a mut [usize]) -> (counts: Self)
        requires
            buckets@.len() > 0,
        ensures
            counts.wf(),
            counts.current == 0,
            counts.counts() == old(buckets)@,
            final(counts.buckets)@ == final(buckets)@,
    {
        BucketCounts { buckets, current: 0 }
    }

    /// Moves on to the next bucket and empties it.
    pub fn next_bucket(&mut self)
        requires
            old(self).wf(),
        ensures
            final(self).wf(),
            final(self).current == (old(self).current + 1) % (old(self).counts().len() as int),
            final(self).counts() == old(self).counts().update(final(self).current as int, 0),
            final(final(self).buckets)@ == final(old(self).buckets)@,
    {
        let n: usize = self.buckets.len();
        self.current = (self.current + 1) % n;
        self.buckets[self.current] = 0;
    }

    /// Counts one event in the current bucket and returns that bucket's count.
    pub fn add_one(&mut self) -> (count: usize)
        requires
            old(self).wf(),
            old(self).counts()[old(self).current as int] < usize::MAX,
        ensures
            final(self).wf(),
            final(self).current == old(self).current,
            count == old(self).counts()[old(self).current as int] + 1,
            final(self).counts() == old(self).counts().update(old(self).current as int, count),
            final(final(self).buckets)@ == final(old(self).buckets)@,
    {
        self.buckets[self.current] = self.buckets[self.current] + 1;
        self.buckets[self.current]
    }

    /// All events that the buckets count.
    pub fn sum(&self) -> (sum: usize)
        requires
            total(self.counts()) <= usize::MAX,
        ensures
            sum == total(self.counts()),
    {
        let n: usize = self.buckets.len();
        let mut sum: usize = 0;
        let mut i: usize = 0;
        assert(self.counts().take(0) =~= Seq::<usize>::empty());
        while i < n
            invariant
                n == self.counts().len(),
                i <= n,
                sum == total(self.counts().take(i as int)),
                total(self.counts()) <= usize::MAX,
            decreases n - i,
        {
            let ghost upto = self.counts().take(i + 1);
            proof {
                assert(upto.drop_last() =~= self.counts().take(i as int));
                assert(self.counts() =~= upto + self.counts().skip(i + 1));
                lemma_total_of_parts(upto, self.counts().skip(i + 1));
            }
            sum = sum + self.buckets[i];
            i = i + 1;
        }
        assert(self.counts().take(n as int) =~= self.counts());
        sum
    }
}

/// The total of two parts is the sum of their totals.
pub proof fn lemma_total_of_parts(a: Seq<usize>, b: Seq<usize>)
    ensures
        total(a + b) == total(a) + total(b),
    decreases b.len(),
{
    if b.len() == 0 {
        assert(a + b =~= a);
    } else {
        lemma_total_of_parts(a, b.drop_last());
        assert((a + b).drop_last() =~= a + b.drop_last());
    }
}

/// Emptying a bucket takes exactly its count off the total.
pub proof fn law_emptied_bucket_is_forgotten(counts: Seq<usize>, at: int)
    requires
        0 <= at < counts.len(),
    ensures
        total(counts.update(at, 0)) + counts[at] == total(counts),
{
    lemma_total_with_one_changed(counts, at, 0);
}

/// Changing one count changes the total by as much.
pub proof fn lemma_total_with_one_changed(counts: Seq<usize>, at: int, count: usize)
    requires
        0 <= at < counts.len(),
    ensures
        counts[at] <= total(counts),
        total(counts.update(at, count)) == total(counts) - counts[at] + count,
{
    let (front, back) = (counts.take(at + 1), counts.skip(at + 1));
    lemma_total_of_parts(front, back);
    assert(counts =~= front + back);
    let after = counts.update(at, count);
    let changed = after.take(at + 1);
    lemma_total_of_parts(changed, back);
    assert(after =~= changed + back);
    assert(changed.drop_last() =~= front.drop_last());
}

/// How many events fell into the round that lies `age` rounds back, `history` holding the number
/// of events of each round so far, the current one last.
pub open spec fn events_back(history: Seq<nat>, age: int) -> nat {
    if 0 <= age < history.len() {
        history[history.len() - 1 - age]
    } else {
        0
    }
}

/// How many events fell into the last `n` rounds.
pub open spec fn recent_events(history: Seq<nat>, n: nat) -> nat
    decreases n,
{
    if n == 0 {
        0
    } else {
        recent_events(history, (n - 1) as nat) + events_back(history, n - 1)
    }
}

/// The bucket of the round that lies `age` rounds back.
pub open spec fn bucket_back(current: int, n: int, age: int) -> int {
    if age <= current {
        current - age
    } else {
        current + n - age
    }
}

/// The buckets hold the numbers of events of the most recent rounds.
pub open spec fn records(buckets: Seq<usize>, current: int, history: Seq<nat>) -> bool {
    &&& 0 <= current < buckets.len()
    &&& history.len() > 0
    &&& forall|age: int|
        0 <= age < buckets.len() ==> buckets[#[trigger] bucket_back(
            current,
            buckets.len() as int,
            age,
        )] == events_back(history, age)
}

/// Empty buckets record that nothing has happened.
pub proof fn law_empty_buckets_record_nothing(buckets: Seq<usize>)
    requires
        buckets.len() > 0,
        forall|i: int| 0 <= i < buckets.len() ==> buckets[i] == 0,
    ensures
        records(buckets, 0, seq![0nat]),
{
}

/// Moving on to the next bucket records the begin of a round.
pub proof fn law_next_bucket_begins_a_round(
    buckets: Seq<usize>,
    current: int,
    history: Seq<nat>,
)
    requires
        records(buckets, current, history),
    ensures
        ({
            let next = (current + 1) % (buckets.len() as int);
            records(buckets.update(next, 0), next, history.push(0))
        }),
{
    let n = buckets.len() as int;
    let next = (current + 1) % n;
    let after = buckets.update(next, 0);
    if current + 1 == n {
        vstd::arithmetic::div_mod::lemma_mod_self_0(n);
    } else {
        vstd::arithmetic::div_mod::lemma_small_mod((current + 1) as nat, n as nat);
    }
    assert forall|age: int| 0 <= age < n implies after[#[trigger] bucket_back(next, n, age)]
        == events_back(history.push(0), age) by {
        if age > 0 {
            assert(bucket_back(next, n, age) == bucket_back(current, n, age - 1));
            assert(bucket_back(next, n, age) != next);
            assert(events_back(history.push(0), age) == events_back(history, age - 1));
        }
    }
}

/// Counting one event records it in the current round.
pub proof fn law_add_one_counts_in_the_round(
    buckets: Seq<usize>,
    current: int,
    history: Seq<nat>,
)
    requires
        records(buckets, current, history),
        buckets[current] < usize::MAX,
    ensures
        records(
            buckets.update(current, (buckets[current] + 1) as usize),
            current,
            history.update(history.len() - 1, history.last() + 1),
        ),
{
    let n = buckets.len() as int;
    let after = buckets.update(current, (buckets[current] + 1) as usize);
    let longer = history.update(history.len() - 1, history.last() + 1);
    assert(bucket_back(current, n, 0) == current);
    assert forall|age: int| 0 <= age < n implies after[#[trigger] bucket_back(current, n, age)]
        == events_back(longer, age) by {
        if age > 0 {
            assert(bucket_back(current, n, age) != current);
            assert(events_back(longer, age) == events_back(history, age));
        }
    }
}

/// The sum of `n` buckets is the number of events in the last `n` rounds: an event counts for
/// exactly that many rounds and is then forgotten.
pub proof fn law_sum_counts_the_recent_rounds(
    buckets: Seq<usize>,
    current: int,
    history: Seq<nat>,
)
    requires
        records(buckets, current, history),
    ensures
        total(buckets) == recent_events(history, buckets.len()),
{
    let n = buckets.len() as int;
    lemma_recent_rounds(buckets, current, history, buckets.len());
    assert(buckets =~= buckets.take(current + 1) + buckets.subrange(current + 1, n));
    lemma_total_of_parts(buckets.take(current + 1), buckets.subrange(current + 1, n));
    assert(buckets.subrange(0, current + 1) =~= buckets.take(current + 1));
    if current + 1 == n {
        assert(buckets.subrange(current + 1, n) =~= Seq::<usize>::empty());
    }
}

/// The last `k` rounds have their buckets up to the current one, and behind it once `k` exceeds
/// those.
proof fn lemma_recent_rounds(buckets: Seq<usize>, current: int, history: Seq<nat>, k: nat)
    requires
        records(buckets, current, history),
        k <= buckets.len(),
    ensures
        recent_events(history, k) == if k <= current + 1 {
            total(buckets.subrange(current + 1 - k, current + 1))
        } else {
            total(buckets.subrange(0, current + 1)) + total(
                buckets.subrange(current + 1 + buckets.len() - k, buckets.len() as int),
            )
        },
    decreases k,
{
    let n = buckets.len() as int;
    if k == 0 {
        assert(buckets.subrange(current + 1, current + 1) =~= Seq::<usize>::empty());
    } else {
        lemma_recent_rounds(buckets, current, history, (k - 1) as nat);
        let at = bucket_back(current, n, k - 1);
        assert(buckets[at] == events_back(history, k - 1));
        let end = if k <= current + 1 {
            current + 1
        } else {
            n
        };
        let one = seq![buckets[at]];
        assert(one.drop_last() =~= Seq::<usize>::empty());
        assert(total(one) == buckets[at]) by {
            assert(total(one.drop_last()) == 0);
        }
        assert(buckets.subrange(at, end) =~= one + buckets.subrange(at + 1, end));
        lemma_total_of_parts(one, buckets.subrange(at + 1, end));
        if k == current + 2 {
            assert(buckets.subrange(n, n) =~= Seq::<usize>::empty());
        }
    }
}

/// The total of nothing is nothing, that of one count is the count, and those of two parts add up.
pub proof fn law_total_is_the_sum(a: Seq<usize>, count: usize, b: Seq<usize>)
    ensures
        total(Seq::<usize>::empty()) == 0,
        total(seq![count]) == count,
        total(a + b) == total(a) + total(b),
{
    assert(seq![count].drop_last() =~= Seq::<usize>::empty());
    assert(total(seq![count].drop_last()) == 0);
    lemma_total_of_parts(a, b);
}

/// The counts are what the buckets hold, and the current bucket is one of them.
pub proof fn law_counts_are_in_the_buckets(counts: BucketCounts, held: Seq<usize>)
    requires
        held == counts.buckets@,
    ensures
        counts.counts() == held,
        counts.wf() <==> counts.current < held.len(),
{
}

/// A new round, with `events` so far, makes the rounds before it one round older.
pub proof fn law_rounds_grow_older(history: Seq<nat>, events: nat, n: nat)
    ensures
        recent_events(history, 0) == 0,
        recent_events(history.push(events), n + 1) == events + recent_events(history, n),
    decreases n,
{
    if n > 0 {
        law_rounds_grow_older(history, events, (n - 1) as nat);
        assert(events_back(history.push(events), n as int) == events_back(history, n - 1));
    } else {
        assert(recent_events(history.push(events), 0) == 0);
    }
}

} // verus!
