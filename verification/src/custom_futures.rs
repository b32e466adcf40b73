use vstd::prelude::*;

verus! {

/// What polling a timer future calls for.
#[derive(Debug, PartialEq, Eq)]
pub enum TimerPoll {
    /// The deadline has passed: the future is complete.
    Ready,
    /// Not due yet and not yet known to the reactor: register a timer at
    /// `deadline` with the task's waker, record its identifier, and report
    /// pending.
    Register { deadline: u64 },
    /// Not due yet; the reactor already holds the timer: report pending.
    Pending,
}

/// The outcome of polling a timer that is due at `deadline` and was
/// registered under `registered` (if at all), at time `now`.
pub open spec fn timer_poll_outcome(deadline: u64, registered: Option<usize>, now: u64) -> TimerPoll {
    if now >= deadline {
        TimerPoll::Ready
    } else if registered is None {
        TimerPoll::Register { deadline }
    } else {
        TimerPoll::Pending
    }
}

/// A future that completes once the runtime's clock reaches its deadline.
/// Times are nanoseconds on the runtime's monotonic clock.
pub struct TimerFuture {
    deadline: u64,
    timer_id: Option<usize>,
}

impl TimerFuture {
    /// When the timer is due.
    pub closed spec fn deadline_at(&self) -> u64 {
        self.deadline
    }

    /// The identifier of the reactor timer registered for this future, if any.
    pub closed spec fn registered_id(&self) -> Option<usize> {
        self.timer_id
    }

    /// A timer due `duration` nanoseconds after `now`, not yet registered.
    pub fn new(now: u64, duration: u64) -> (timer: Self)
        requires
            now + duration <= u64::MAX,
        ensures
            timer.deadline_at() == now + duration,
            timer.registered_id() is None,
    {
        TimerFuture { deadline: now + duration, timer_id: None }
    }

    /// What a poll at time `now` calls for.
    pub fn poll_timer(&self, now: u64) -> (outcome: TimerPoll)
        ensures
            outcome == timer_poll_outcome(self.deadline_at(), self.registered_id(), now),
    {
        if now >= self.deadline {
            TimerPoll::Ready
        } else if self.timer_id.is_none() {
            TimerPoll::Register { deadline: self.deadline }
        } else {
            TimerPoll::Pending
        }
    }

    /// Records that the reactor holds this future's timer under `id`.
    pub fn record_registration(&mut self, id: usize)
        ensures
            final(self).deadline_at() == old(self).deadline_at(),
            final(self).registered_id() == Some(id),
    {
        self.timer_id = Some(id);
    }
}

/// A timer future asks the reactor for a timer at most once: once its
/// registration is recorded, no poll asks again.
pub proof fn lemma_timer_registers_once(timer: TimerFuture, id: usize, now: u64)
    requires
        timer.registered_id() == Some(id),
    ensures
        !(timer_poll_outcome(timer.deadline_at(), timer.registered_id(), now) is Register),
{
}

/// Once a timer future is ready it stays ready: a later poll is ready too.
pub proof fn lemma_timer_ready_stays_ready(
    deadline: u64,
    registered: Option<usize>,
    now: u64,
    later: u64,
)
    requires
        timer_poll_outcome(deadline, registered, now) is Ready,
        now <= later,
    ensures
        timer_poll_outcome(deadline, registered, later) is Ready,
{
}

/// What polling an I/O future calls for.
#[derive(Debug, PartialEq, Eq)]
pub enum IoPoll<T, E> {
    /// The operation finished, with this result.
    Ready(Result<T, E>),
    /// The operation would block: register the descriptor with the task's
    /// waker and report pending.
    AwaitReadiness,
}

/// Classifies the result of a non-blocking I/O attempt: success and errors
/// other than "would block" finish the future; "would block" waits for
/// readiness. `would_block` tells whether an error is of that kind.
pub fn io_poll_outcome<T, E>(result: Result<T, E>, would_block: bool) -> (outcome: IoPoll<T, E>)
    ensures
        match result {
            Ok(v) => outcome == IoPoll::<T, E>::Ready(Ok(v)),
            Err(e) => if would_block {
                outcome is AwaitReadiness
            } else {
                outcome == IoPoll::<T, E>::Ready(Err(e))
            },
        },
{
    match result {
        Ok(v) => IoPoll::Ready(Ok(v)),
        Err(e) => {
            if would_block {
                IoPoll::AwaitReadiness
            } else {
                IoPoll::Ready(Err(e))
            }
        },
    }
}

} // verus!

verus! {

/// Polling a timer future decides by the clock, its deadline and whether a
/// registration is recorded: it is ready exactly once the clock has reached
/// the deadline; before that, a future with no registration recorded asks
/// the reactor for a timer at its own deadline, whatever the time left, and
/// one with a registration waits.
pub proof fn lemma_timer_poll_decision(timer: TimerFuture, now: u64)
    ensures
        now >= timer.deadline_at() ==> timer_poll_outcome(
            timer.deadline_at(),
            timer.registered_id(),
            now,
        ) == TimerPoll::Ready,
        now < timer.deadline_at() && timer.registered_id() is None ==> timer_poll_outcome(
            timer.deadline_at(),
            timer.registered_id(),
            now,
        ) == (TimerPoll::Register { deadline: timer.deadline_at() }),
        now < timer.deadline_at() && timer.registered_id() is Some ==> timer_poll_outcome(
            timer.deadline_at(),
            timer.registered_id(),
            now,
        ) == TimerPoll::Pending,
{
}

} // verus!
