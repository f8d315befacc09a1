//! Wall-clock types. Durable timers persist deadlines, never durations:
//! restart must not reset the clock.

use vstd::prelude::*;

verus! {

/// Wall-clock instant, milliseconds since the Unix epoch.
#[derive(Debug, Clone, Copy, PartialEq, Eq, PartialOrd, Ord, Hash)]
pub struct Timestamp(u64);

impl View for Timestamp {
    type V = nat;

    closed spec fn view(&self) -> nat {
        self.0 as nat
    }
}

impl Timestamp {
    pub fn from_millis_since_epoch(millis: u64) -> (r: Self)
        ensures
            r@ == millis,
    {
        Self(millis)
    }

    pub fn as_millis_since_epoch(&self) -> (r: u64)
        ensures
            r == self@,
    {
        self.0
    }
}

/// Wall-clock deadline. Never a duration: recovery re-arms the remainder
/// against this absolute instant, so restart does not reset the clock.
#[derive(Debug, Clone, Copy, PartialEq, Eq, PartialOrd, Ord, Hash)]
pub struct Deadline(Timestamp);

impl View for Deadline {
    type V = nat;

    closed spec fn view(&self) -> nat {
        self.0@
    }
}

impl Deadline {
    pub fn at(timestamp: Timestamp) -> (r: Self)
        ensures
            r@ == timestamp@,
    {
        Self(timestamp)
    }

    pub fn timestamp(&self) -> (r: Timestamp)
        ensures
            r@ == self@,
    {
        self.0
    }

    /// Whether the two deadlines are the same instant.
    pub fn same_instant(&self, other: &Deadline) -> (r: bool)
        ensures
            r == (self@ == other@),
    {
        self.0.0 == other.0.0
    }
}

/// One request made of a clock: the instants are milliseconds since the Unix
/// epoch.
pub enum ClockCall {
    /// A reading, with the instant it returned.
    Now(nat),
    /// A wait, with the deadline it was asked for.
    SleepUntil(nat),
}

/// Source of wall-clock time for a workflow run.
pub trait Clock {
    /// Every request made of this clock so far, oldest first.
    closed spec fn calls(&self) -> Seq<ClockCall> {
        arbitrary()
    }

    /// The instant that every reading of this clock shows, where that is
    /// settled beforehand.
    open spec fn reads(&self) -> Option<nat> {
        None
    }

    /// What holds once a clock has waited for `deadline`. A clock may give
    /// this a meaning; by default it has none.
    open spec fn waited(deadline: nat) -> bool {
        true
    }

    fn now(&mut self) -> (r: Timestamp)
        ensures
            final(self).calls() == old(self).calls().push(ClockCall::Now(r@)),
            final(self).reads() == old(self).reads(),
            old(self).reads() matches Some(instant) ==> r@ == instant,
    ;

    /// Blocks until `deadline`. A deadline already in the past returns
    /// immediately. Recovery re-arming an already-expired timer must fire
    /// it, not wait again. `TestClock` never blocks at all.
    fn sleep_until(&mut self, deadline: Timestamp)
        ensures
            final(self).calls() == old(self).calls().push(ClockCall::SleepUntil(deadline@)),
            final(self).reads() == old(self).reads(),
            Self::waited(deadline@),
    ;
}

impl<C: Clock> Clock for &mut C {
    open spec fn calls(&self) -> Seq<ClockCall> {
        (**self).calls()
    }

    open spec fn reads(&self) -> Option<nat> {
        (**self).reads()
    }

    open spec fn waited(deadline: nat) -> bool {
        C::waited(deadline)
    }

    fn now(&mut self) -> (r: Timestamp) {
        (**self).now()
    }

    fn sleep_until(&mut self, deadline: Timestamp) {
        (**self).sleep_until(deadline)
    }
}

/// How long a wall clock reading `now` has to wait for `deadline`, in
/// milliseconds; `None` once the deadline has come.
pub fn remaining_wait(now: Timestamp, deadline: Timestamp) -> (r: Option<u64>)
    ensures
        deadline@ > now@ ==> r == Some((deadline@ - now@) as u64),
        deadline@ <= now@ ==> r is None,
{
    if deadline.0 > now.0 {
        Some(deadline.0 - now.0)
    } else {
        None
    }
}

/// Deterministic clock for tests: holds a fixed instant, advanced only by
/// explicit calls, never by reading the OS clock. "Charge in a week"
/// compresses to milliseconds by advancing this instead of sleeping.
pub struct TestClock {
    now: Timestamp,
    calls: Ghost<Seq<ClockCall>>,
}

impl TestClock {
    /// The instant this clock stands at.
    pub closed spec fn reading(&self) -> nat {
        self.now@
    }

    pub fn at(timestamp: Timestamp) -> (r: Self)
        ensures
            r.reading() == timestamp@,
            r.calls() == Seq::<ClockCall>::empty(),
    {
        Self { now: timestamp, calls: Ghost(Seq::empty()) }
    }

    pub fn advance_millis(&mut self, millis: u64)
        requires
            old(self).reading() + millis <= u64::MAX,
        ensures
            final(self).reading() == old(self).reading() + millis,
            (*final(self)).calls() == (*old(self)).calls(),
    {
        self.now = Timestamp(self.now.0 + millis);
    }
}

impl Clock for TestClock {
    closed spec fn calls(&self) -> Seq<ClockCall> {
        self.calls@
    }

    open spec fn reads(&self) -> Option<nat> {
        Some(self.reading())
    }

    fn now(&mut self) -> (r: Timestamp)
        ensures
            r@ == old(self).reading(),
            final(self).reading() == old(self).reading(),
    {
        self.calls = Ghost(self.calls@.push(ClockCall::Now(self.now@)));
        self.now
    }

    /// Never blocks. Advance the clock explicitly with `advance_millis`
    /// instead of waiting on wall time.
    fn sleep_until(&mut self, deadline: Timestamp)
        ensures
            final(self).reading() == old(self).reading(),
    {
        self.calls = Ghost(self.calls@.push(ClockCall::SleepUntil(deadline@)));
    }
}

/// A wait ends at the deadline, neither before nor after it, and there is
/// none once the deadline has come.
pub proof fn waits_end_at_the_deadline(now: Timestamp, deadline: Timestamp, r: Option<u64>)
    requires
        call_ensures(remaining_wait, (now, deadline), r),
    ensures
        r matches Some(wait) ==> wait > 0 && now@ + wait == deadline@,
        r is None <==> deadline@ <= now@,
{
    deadline.lemma_in_range();
}

impl Timestamp {
    proof fn lemma_in_range(self)
        ensures
            self@ <= u64::MAX,
    {
    }
}

/// An instant and the deadline at it are read out as they were put in.
pub proof fn instants_are_read_out(
    millis: u64,
    instant: Timestamp,
    deadline: Deadline,
    back: Timestamp,
    read: u64,
)
    requires
        call_ensures(Timestamp::from_millis_since_epoch, (millis,), instant),
        call_ensures(Deadline::at, (instant,), deadline),
        call_ensures(Deadline::timestamp, (&deadline,), back),
        call_ensures(Timestamp::as_millis_since_epoch, (&back,), read),
    ensures
        read == millis,
{
}

} // verus!
