use vstd::prelude::*;
use std::collections::HashMap;
use crate::iteration::{ReactorState, apply_requests};
use crate::timer_queue::{
    TimerQueue, with_timer, without_timer, pending_after, expired_in_order, buckets_nonempty,
};

verus! {

/// A request sent from a runtime handle to the reactor. Deadlines are in
/// nanoseconds on the runtime's monotonic clock; `W` is the waker type.
pub enum RegistryRequest<W> {
    /// Wake `waker` when descriptor `fd` becomes readable or writable.
    RegisterFd { fd: i32, waker: W },
    /// Stop watching descriptor `fd`.
    UnregisterFd { fd: i32 },
    /// Wake `waker` once the clock reaches `timer`; `id` names the timer.
    RegisterTimer { timer: u64, id: usize, waker: W },
    /// Cancel every timer named `id`.
    UnregisterTimer { id: usize },
}

/// What the reactor has to do with the operating system's readiness poller
/// after handling a request.
#[derive(Debug, PartialEq, Eq)]
pub enum PollerAction {
    /// Register descriptor `fd` for readable and writable readiness.
    Register { fd: i32 },
    /// Deregister descriptor `fd`.
    Deregister { fd: i32 },
    /// Leave the poller as it is.
    Nothing,
}

/// One readiness event reported by the poller: the token the descriptor was
/// registered under, and which readiness it reports.
#[derive(Debug, Clone, Copy, PartialEq, Eq)]
pub struct ReadyEvent {
    pub token: usize,
    pub readable: bool,
    pub writable: bool,
}

/// The token under which descriptor `fd` is registered with the poller.
pub open spec fn token_of(fd: i32) -> usize {
    fd as usize
}

/// The descriptor that token `token` stands for.
pub open spec fn fd_of(token: usize) -> i32 {
    token as i32
}

/// The token under which descriptor `fd` is registered with the poller.
pub fn token_for_fd(fd: i32) -> (token: usize)
    ensures
        token == token_of(fd),
{
    fd as usize
}

/// The descriptor that a poller token stands for.
pub fn fd_for_token(token: usize) -> (fd: i32)
    ensures
        fd == fd_of(token),
{
    token as i32
}

/// Tokens lose nothing: the token of a descriptor leads back to it.
pub proof fn lemma_token_round_trip(fd: i32)
    ensures
        fd_of(token_of(fd)) == fd,
        fd >= 0 ==> token_of(fd) == fd,
{
    assert((fd as usize) as i32 == fd) by (bit_vector);
}

/// Whether registering a descriptor with the poller went well enough to go
/// on: it succeeded, or failed only because the descriptor was already
/// registered. `already_registered` tells whether an error is of that kind.
pub fn registration_accepted<E>(result: &Result<(), E>, already_registered: bool) -> (ok: bool)
    ensures
        ok == match result {
            Ok(_) => true,
            Err(_) => already_registered,
        },
{
    match result {
        Ok(_) => true,
        Err(_) => already_registered,
    }
}

/// The descriptor wakers after `request`, from `fds`.
pub open spec fn fds_after<W>(fds: Map<i32, W>, request: RegistryRequest<W>) -> Map<i32, W> {
    match request {
        RegistryRequest::RegisterFd { fd, waker } => fds.insert(fd, waker),
        RegistryRequest::UnregisterFd { fd } => fds.remove(fd),
        _ => fds,
    }
}

/// The timers after `request`, from `timers`.
pub open spec fn timers_after<W>(
    timers: Map<u64, Seq<(usize, W)>>,
    request: RegistryRequest<W>,
) -> Map<u64, Seq<(usize, W)>> {
    match request {
        RegistryRequest::RegisterTimer { timer, id, waker } => with_timer(timers, timer, id, waker),
        RegistryRequest::UnregisterTimer { id } => without_timer(timers, id),
        _ => timers,
    }
}

/// The poller action that `request` calls for.
pub open spec fn action_for<W>(request: RegistryRequest<W>) -> PollerAction {
    match request {
        RegistryRequest::RegisterFd { fd, .. } => PollerAction::Register { fd },
        RegistryRequest::UnregisterFd { fd } => PollerAction::Deregister { fd },
        _ => PollerAction::Nothing,
    }
}

/// Whether `event` should wake the waker registered for its descriptor in `fds`.
pub open spec fn wakes<W>(fds: Map<i32, W>, event: ReadyEvent) -> bool {
    fds.contains_key(fd_of(event.token)) && (event.readable || event.writable)
}

/// The descriptors whose wakers `events` wake, in the order of the events.
pub open spec fn woken_fds<W>(fds: Map<i32, W>, events: Seq<ReadyEvent>) -> Seq<i32>
    decreases events.len(),
{
    if events.len() == 0 {
        Seq::empty()
    } else {
        let front = woken_fds(fds, events.drop_last());
        if wakes(fds, events.last()) {
            front.push(fd_of(events.last().token))
        } else {
            front
        }
    }
}

/// A waker that a pass of the loop wakes: an expired timer's, moved out of
/// the reactor, or a watched descriptor's, woken in place.
pub enum Wake<'a, W> {
    Timer { deadline: u64, id: usize, waker: W },
    Descriptor { waker: &'a W },
}

/// The wakes of expired timers `fired`, in their order.
pub open spec fn timer_wakes<'a, W>(fired: Seq<(u64, usize, W)>) -> Seq<Wake<'a, W>> {
    fired.map_values(|e: (u64, usize, W)| Wake::Timer { deadline: e.0, id: e.1, waker: e.2 })
}

/// Everything a pass wakes once the poller has reported `events`, in order:
/// every expired timer of `fired`, then, for each event that wakes a watched
/// descriptor of `fds`, that descriptor's waker.
pub open spec fn pass_wakes<'a, W>(
    fired: Seq<(u64, usize, W)>,
    fds: Map<i32, W>,
    events: Seq<ReadyEvent>,
) -> Seq<Wake<'a, W>> {
    timer_wakes(fired) + woken_fds(fds, events).map_values(
        |fd: i32| Wake::Descriptor { waker: &fds[fd] },
    )
}

/// The reactor's bookkeeping: the waker of each watched descriptor, and the
/// pending timers. The poller and the request channel belong to the layer
/// that runs the reactor's loop.
pub struct Reactor<W> {
    waker_lookup: HashMap<i32, W>,
    timeout_lookup: TimerQueue<W>,
}

impl<W> Reactor<W> {
    /// The waker of each watched descriptor.
    pub closed spec fn fd_wakers(&self) -> Map<i32, W> {
        self.waker_lookup@
    }

    /// The pending timers by deadline.
    pub closed spec fn timers(&self) -> Map<u64, Seq<(usize, W)>> {
        self.timeout_lookup@
    }

    /// No deadline is kept without a timer due at it.
    #[verifier::type_invariant]
    closed spec fn inv(&self) -> bool {
        buckets_nonempty(self.timeout_lookup@)
    }

    /// A reactor that watches nothing and holds no timer.
    pub fn new() -> (r: Self)
        ensures
            r.fd_wakers() == Map::<i32, W>::empty(),
            r.timers() == Map::<u64, Seq<(usize, W)>>::empty(),
            buckets_nonempty(r.timers()),
    {
        Reactor { waker_lookup: HashMap::new(), timeout_lookup: TimerQueue::new() }
    }

    /// Applies one request and says what the poller must be told.
    pub fn handle_request(&mut self, request: RegistryRequest<W>) -> (action: PollerAction)
        ensures
            final(self).fd_wakers() == fds_after(old(self).fd_wakers(), request),
            final(self).timers() == timers_after(old(self).timers(), request),
            action == action_for(request),
            buckets_nonempty(final(self).timers()),
    {
        proof {
            use_type_invariant(&*self);
        }
        match request {
            RegistryRequest::RegisterFd { fd, waker } => {
                let mut fds = HashMap::new();
                std::mem::swap(&mut fds, &mut self.waker_lookup);
                fds.insert(fd, waker);
                self.waker_lookup = fds;
                PollerAction::Register { fd }
            },
            RegistryRequest::UnregisterFd { fd } => {
                let mut fds = HashMap::new();
                std::mem::swap(&mut fds, &mut self.waker_lookup);
                fds.remove(&fd);
                self.waker_lookup = fds;
                PollerAction::Deregister { fd }
            },
            RegistryRequest::RegisterTimer { timer, id, waker } => {
                let mut timers = TimerQueue::new();
                std::mem::swap(&mut timers, &mut self.timeout_lookup);
                timers.register_timer(timer, id, waker);
                self.timeout_lookup = timers;
                PollerAction::Nothing
            },
            RegistryRequest::UnregisterTimer { id } => {
                let mut timers = TimerQueue::new();
                std::mem::swap(&mut timers, &mut self.timeout_lookup);
                timers.unregister_timer(id);
                self.timeout_lookup = timers;
                PollerAction::Nothing
            },
        }
    }

    /// The bookkeeping as values.
    pub open spec fn state(&self) -> ReactorState<W> {
        ReactorState { fds: self.fd_wakers(), timers: self.timers() }
    }

    /// Handles the requests drained in one pass of the loop, in order, and
    /// says what the poller must be told for each. After the poll, the pass
    /// ends with `finish_pass`, which wakes the timers due at the clock's
    /// reading and then the descriptors of the poller's events; together
    /// they make one `iteration_step`.
    pub fn handle_requests(&mut self, requests: Vec<RegistryRequest<W>>) -> (actions: Vec<PollerAction>)
        ensures
            final(self).state() == apply_requests(old(self).state(), requests@),
            actions@ == requests@.map_values(|r: RegistryRequest<W>| action_for(r)),
            buckets_nonempty(final(self).timers()),
    {
        proof {
            use_type_invariant(&*self);
        }
        let ghost all = requests@;
        let ghost s0 = self.state();
        let mut actions: Vec<PollerAction> = Vec::new();
        for r in it: requests
            invariant
                it.seq() == all,
                self.state() == apply_requests(s0, all.take(it.index())),
                actions@ == all.take(it.index()).map_values(|r: RegistryRequest<W>| action_for(r)),
                buckets_nonempty(self.timers()),
        {
            proof {
                assert(all.take(it.index() + 1) =~= all.take(it.index()).push(r));
                assert(all.take(it.index() + 1).drop_last() =~= all.take(it.index()));
            }
            let action = self.handle_request(r);
            actions.push(action);
            proof {
                assert(actions@ =~= all.take(it.index() + 1).map_values(
                    |r: RegistryRequest<W>| action_for(r),
                ));
            }
        }
        proof {
            assert(all.take(all.len() as int) =~= all);
        }
        actions
    }

    /// Removes and returns the timers due at `now`, each with its deadline,
    /// in the order their wakers are to be woken.
    pub fn expire_timers(&mut self, now: u64) -> (expired: Vec<(u64, usize, W)>)
        ensures
            final(self).fd_wakers() == old(self).fd_wakers(),
            final(self).timers() == pending_after(old(self).timers(), now),
            expired_in_order(old(self).timers(), now, expired@),
            buckets_nonempty(final(self).timers()),
    {
        let mut timers = TimerQueue::new();
        std::mem::swap(&mut timers, &mut self.timeout_lookup);
        let expired = timers.take_expired(now);
        self.timeout_lookup = timers;
        expired
    }

    /// The rest of a pass, once the poller has reported `events`: removes the
    /// timers due at `now` and lists every waker the pass wakes, in order:
    /// first the expired timers' wakers, earliest deadline first and in
    /// registration order within a deadline, then the wakers of the
    /// descriptors that `events` wake, one per waking event.
    pub fn finish_pass<'a>(&'a mut self, now: u64, events: &Vec<ReadyEvent>) -> (wakes: Vec<Wake<'a, W>>)
        ensures
            final(self).fd_wakers() == old(self).fd_wakers(),
            final(self).timers() == pending_after(old(self).timers(), now),
            buckets_nonempty(final(self).timers()),
            exists|fired: Seq<(u64, usize, W)>|
                #![trigger expired_in_order(old(self).timers(), now, fired)]
                expired_in_order(old(self).timers(), now, fired) && wakes@ == pass_wakes(
                    fired,
                    old(self).fd_wakers(),
                    events@,
                ),
    {
        let expired = self.expire_timers(now);
        let ghost fired = expired@;
        let mut wakes: Vec<Wake<'a, W>> = Vec::new();
        for e in it: expired
            invariant
                it.seq() == fired,
                wakes@ == timer_wakes::<'a, W>(fired.take(it.index())),
        {
            proof {
                assert(fired.take(it.index() + 1) =~= fired.take(it.index()).push(e));
            }
            wakes.push(Wake::Timer { deadline: e.0, id: e.1, waker: e.2 });
            proof {
                assert(wakes@ =~= timer_wakes::<'a, W>(fired.take(it.index() + 1)));
            }
        }
        proof {
            assert(fired.take(fired.len() as int) =~= fired);
        }
        let this: &'a Self = self;
        let woken = this.wakers_for_events(events);
        let ghost fds = this.fd_wakers();
        let ghost front = wakes@;
        let mut i: usize = 0;
        while i < woken.len()
            invariant
                0 <= i <= woken@.len(),
                woken@.len() == woken_fds(fds, events@).len(),
                forall|j: int| 0 <= j < woken@.len() ==> *woken@[j] == fds[woken_fds(fds, events@)[j]],
                wakes@.len() == front.len() + i,
                forall|j: int| 0 <= j < front.len() ==> wakes@[j] == front[j],
                forall|j: int|
                    0 <= j < i ==> wakes@[front.len() + j] == (Wake::Descriptor {
                        waker: woken@[j],
                    }),
            decreases woken@.len() - i,
        {
            wakes.push(Wake::Descriptor { waker: woken[i] });
            i = i + 1;
        }
        proof {
            let want = pass_wakes::<'a, W>(fired, fds, events@);
            assert forall|j: int| 0 <= j < want.len() implies wakes@[j] == want[j] by {
                if j >= front.len() {
                    assert(wakes@[j] == (Wake::Descriptor { waker: woken@[j - front.len()] }));
                }
            }
            assert(wakes@ =~= want);
        }
        wakes
    }

    /// The wakers that `events` wake: for each event in turn whose descriptor
    /// is watched and which reports readable or writable readiness, that
    /// descriptor's waker.
    pub fn wakers_for_events<'a>(&'a self, events: &Vec<ReadyEvent>) -> (woken: Vec<&'a W>)
        ensures
            woken@.len() == woken_fds(self.fd_wakers(), events@).len(),
            forall|i: int|
                0 <= i < woken@.len() ==> *woken@[i] == self.fd_wakers()[woken_fds(
                    self.fd_wakers(),
                    events@,
                )[i]],
    {
        let mut woken: Vec<&'a W> = Vec::new();
        let mut i: usize = 0;
        while i < events.len()
            invariant
                0 <= i <= events@.len(),
                woken@.len() == woken_fds(self.fd_wakers(), events@.take(i as int)).len(),
                forall|j: int|
                    0 <= j < woken@.len() ==> *woken@[j] == self.fd_wakers()[woken_fds(
                        self.fd_wakers(),
                        events@.take(i as int),
                    )[j]],
            decreases events@.len() - i,
        {
            let event = &events[i];
            let fd: i32 = fd_for_token(event.token);
            proof {
                assert(events@.take(i + 1).drop_last() =~= events@.take(i as int));
                assert(events@.take(i + 1).last() == events@[i as int]);
            }
            match self.waker_lookup.get(&fd) {
                Some(waker) => {
                    if event.readable || event.writable {
                        woken.push(waker);
                    }
                },
                None => {},
            }
            i = i + 1;
        }
        proof {
            assert(events@.take(events@.len() as int) =~= events@);
        }
        woken
    }
}

} // verus!

verus! {

/// A descriptor registered with a waker has that waker woken by an event
/// reporting it readable or writable.
pub proof fn lemma_registered_fd_is_woken<W>(fds: Map<i32, W>, fd: i32, waker: W, event: ReadyEvent)
    requires
        event.token == token_of(fd),
        event.readable || event.writable,
    ensures
        woken_fds(fds_after(fds, RegistryRequest::RegisterFd { fd, waker }), seq![event]) == seq![
            fd,
        ],
        fds_after(fds, RegistryRequest::RegisterFd { fd, waker })[fd] == waker,
{
    lemma_token_round_trip(fd);
    let events = seq![event];
    assert(events.drop_last() =~= Seq::<ReadyEvent>::empty());
    reveal_with_fuel(woken_fds, 2);
    assert(woken_fds(fds.insert(fd, waker), events) =~= seq![fd]);
}

/// Once a descriptor is unregistered, no event wakes anything for it.
pub proof fn lemma_unregistered_fd_never_woken<W>(fds: Map<i32, W>, fd: i32, events: Seq<ReadyEvent>)
    ensures
        !woken_fds(fds_after(fds, RegistryRequest::UnregisterFd { fd }), events).contains(fd),
    decreases events.len(),
{
    let after = fds.remove(fd);
    if events.len() > 0 {
        lemma_unregistered_fd_never_woken(fds, fd, events.drop_last());
        let front = woken_fds(after, events.drop_last());
        if wakes(after, events.last()) {
            let whole = front.push(fd_of(events.last().token));
            assert forall|i: int| 0 <= i < whole.len() implies whole[i] != fd by {
                if i < front.len() {
                    assert(whole[i] == front[i]);
                }
            }
        }
    }
}

} // verus!

verus! {

/// Requests about descriptors tell the poller about exactly that
/// descriptor, whatever it is: registering one registers it, unregistering
/// one deregisters it; timer requests leave the poller alone.
pub proof fn lemma_poller_actions<W>(fd: i32, waker: W, timer: u64, id: usize)
    ensures
        action_for(RegistryRequest::RegisterFd { fd, waker }) == (PollerAction::Register { fd }),
        action_for(RegistryRequest::<W>::UnregisterFd { fd }) == (PollerAction::Deregister { fd }),
        action_for(RegistryRequest::RegisterTimer { timer, id, waker }) == PollerAction::Nothing,
        action_for(RegistryRequest::<W>::UnregisterTimer { id }) == PollerAction::Nothing,
{
}

/// A request changes only what it names: registering descriptor `fd` sets
/// its waker and keeps every other descriptor's; unregistering it removes
/// it alone; neither touches the timers, and timer requests leave the
/// descriptors as they were.
pub proof fn lemma_requests_touch_only_their_subject<W>(
    fds: Map<i32, W>,
    timers: Map<u64, Seq<(usize, W)>>,
    fd: i32,
    other: i32,
    waker: W,
    timer: u64,
    id: usize,
)
    requires
        other != fd,
    ensures
        fds_after(fds, RegistryRequest::RegisterFd { fd, waker }).contains_key(fd),
        fds_after(fds, RegistryRequest::RegisterFd { fd, waker })[fd] == waker,
        fds_after(fds, RegistryRequest::RegisterFd { fd, waker }).contains_key(other)
            == fds.contains_key(other),
        fds.contains_key(other) ==> fds_after(fds, RegistryRequest::RegisterFd { fd, waker })[other]
            == fds[other],
        !fds_after(fds, RegistryRequest::<W>::UnregisterFd { fd }).contains_key(fd),
        fds_after(fds, RegistryRequest::<W>::UnregisterFd { fd }).contains_key(other)
            == fds.contains_key(other),
        fds.contains_key(other) ==> fds_after(fds, RegistryRequest::<W>::UnregisterFd { fd })[other]
            == fds[other],
        timers_after(timers, RegistryRequest::RegisterFd { fd, waker }) == timers,
        timers_after(timers, RegistryRequest::<W>::UnregisterFd { fd }) == timers,
        fds_after(fds, RegistryRequest::RegisterTimer { timer, id, waker }) == fds,
        fds_after(fds, RegistryRequest::<W>::UnregisterTimer { id }) == fds,
{
}

/// Whether `e` reports readiness of a descriptor watched in `fds`.
pub open spec fn watched_ready<W>(fds: Map<i32, W>) -> spec_fn(ReadyEvent) -> bool {
    |e: ReadyEvent| fds.contains_key(e.token as i32) && (e.readable || e.writable)
}

/// The descriptors woken by `events` are, in order, those of the events
/// that report a watched descriptor readable or writable, one per event.
pub proof fn lemma_woken_fds_are_ready_events<W>(fds: Map<i32, W>, events: Seq<ReadyEvent>)
    ensures
        woken_fds(fds, events) == events.filter(watched_ready(fds)).map_values(
            |e: ReadyEvent| e.token as i32,
        ),
    decreases events.len(),
{
    reveal(Seq::filter);
    if events.len() > 0 {
        lemma_woken_fds_are_ready_events(fds, events.drop_last());
        let f = events.drop_last().filter(watched_ready(fds));
        if watched_ready(fds)(events.last()) {
            assert(f.push(events.last()).map_values(|e: ReadyEvent| e.token as i32) =~= f.map_values(
                |e: ReadyEvent| e.token as i32,
            ).push(events.last().token as i32));
        }
    }
}

/// The wakes of a pass: first one per expired timer, each that timer's
/// waker in the order of `fired`; then the descriptor wakes, which do not
/// depend on the timers at all (the same as in a pass where no timer
/// fires): one per event reporting a watched descriptor readable or
/// writable, in the order of the events, each with that descriptor's waker.
pub proof fn lemma_pass_wakes<'a, W: 'a>(
    fired: Seq<(u64, usize, W)>,
    fds: Map<i32, W>,
    events: Seq<ReadyEvent>,
)
    ensures
        pass_wakes::<'a, W>(fired, fds, events).len() >= fired.len(),
        forall|i: int|
            0 <= i < fired.len() ==> #[trigger] pass_wakes::<'a, W>(fired, fds, events)[i] == (
            Wake::Timer { deadline: fired[i].0, id: fired[i].1, waker: fired[i].2 }),
        pass_wakes::<'a, W>(fired, fds, events).skip(fired.len() as int) == pass_wakes::<'a, W>(
            Seq::empty(),
            fds,
            events,
        ),
        pass_wakes::<'a, W>(Seq::empty(), fds, events) == events.filter(watched_ready(fds)).map_values(
            |e: ReadyEvent| Wake::Descriptor { waker: &fds[e.token as i32] },
        ),
{
    lemma_woken_fds_are_ready_events(fds, events);
    let d: Seq<Wake<'a, W>> = woken_fds(fds, events).map_values(|fd: i32| Wake::Descriptor { waker: &fds[fd] });
    let all = pass_wakes::<'a, W>(fired, fds, events);
    assert(all == timer_wakes::<'a, W>(fired) + d);
    assert(all.skip(fired.len() as int) =~= d);
    assert(timer_wakes::<'a, W>(Seq::<(u64, usize, W)>::empty()) + d =~= d);
    assert(d =~= events.filter(watched_ready(fds)).map_values(
        |e: ReadyEvent| Wake::Descriptor { waker: &fds[e.token as i32] },
    ));
}

} // verus!
