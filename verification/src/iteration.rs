use vstd::prelude::*;
use crate::reactor::{
    RegistryRequest, ReadyEvent, fds_after, timers_after, woken_fds, wakes, token_of, fd_of,
    lemma_token_round_trip,
};
use crate::timer_queue::{
    expired_in_order, pending_after, with_timer, without_timer, bucket, not_id, others, tagged,
    lemma_expiry_is_deterministic, lemma_expiry_exact, lemma_expiry_keeps_registration_order,
};
use crate::timer_runs::{
    with_id, keep, on_timer, lemma_filter_push, lemma_filter_filter, lemma_filter_same,
    lemma_expiry_keep, lemma_expiry_small, lemma_keep_pending, lemma_filter_none,
};

verus! {

/// The reactor's bookkeeping as values: the waker of each watched
/// descriptor, and the pending timers by deadline.
pub struct ReactorState<W> {
    pub fds: Map<i32, W>,
    pub timers: Map<u64, Seq<(usize, W)>>,
}

/// What one pass of the reactor's loop is given: the requests drained from
/// the channel, then the clock's reading, then the poller's events.
pub struct Iteration<W> {
    pub requests: Seq<RegistryRequest<W>>,
    pub now: u64,
    pub events: Seq<ReadyEvent>,
}

/// The bookkeeping after handling `requests` in order.
pub open spec fn apply_requests<W>(s: ReactorState<W>, requests: Seq<RegistryRequest<W>>) -> ReactorState<W>
    decreases requests.len(),
{
    if requests.len() == 0 {
        s
    } else {
        let p = apply_requests(s, requests.drop_last());
        ReactorState {
            fds: fds_after(p.fds, requests.last()),
            timers: timers_after(p.timers, requests.last()),
        }
    }
}

/// One pass of the loop, from `s` to `next`: the requests are handled in
/// order; then the timers due at `it.now` are removed and woken, in the order
/// `fired`; then the descriptors `woken` are woken, one per event that wakes
/// its descriptor, with the wakers of `next.fds`.
pub open spec fn iteration_step<W>(
    s: ReactorState<W>,
    it: Iteration<W>,
    next: ReactorState<W>,
    fired: Seq<(u64, usize, W)>,
    woken: Seq<i32>,
) -> bool {
    let mid = apply_requests(s, it.requests);
    &&& expired_in_order(mid.timers, it.now, fired)
    &&& next == ReactorState { fds: mid.fds, timers: pending_after(mid.timers, it.now) }
    &&& woken == woken_fds(mid.fds, it.events)
}

/// A run of the loop: `states[i]` is the bookkeeping before pass `i`, and
/// `fired[i]`, `woken[i]` are what pass `i` wakes.
pub open spec fn run_of<W>(
    states: Seq<ReactorState<W>>,
    its: Seq<Iteration<W>>,
    fired: Seq<Seq<(u64, usize, W)>>,
    woken: Seq<Seq<i32>>,
) -> bool {
    &&& states.len() == its.len() + 1
    &&& fired.len() == its.len()
    &&& woken.len() == its.len()
    &&& forall|i: int|
        0 <= i < its.len() ==> #[trigger] iteration_step(
            states[i],
            its[i],
            states[i + 1],
            fired[i],
            woken[i],
        )
}

/// Whether `r` registers descriptor `fd`.
pub open spec fn registers_fd<W>(r: RegistryRequest<W>, fd: i32) -> bool {
    r matches RegistryRequest::RegisterFd { fd: f, .. } && f == fd
}

/// Whether `r` registers or unregisters descriptor `fd`.
pub open spec fn mentions_fd<W>(r: RegistryRequest<W>, fd: i32) -> bool {
    ||| registers_fd(r, fd)
    ||| (r matches RegistryRequest::UnregisterFd { fd: f } && f == fd)
}

/// Handling requests one after another: the first `n`, then the rest.
proof fn lemma_apply_split<W>(s: ReactorState<W>, reqs: Seq<RegistryRequest<W>>, n: int)
    requires
        0 <= n <= reqs.len(),
    ensures
        apply_requests(s, reqs) == apply_requests(apply_requests(s, reqs.take(n)), reqs.skip(n)),
    decreases reqs.len(),
{
    if reqs.len() == n {
        assert(reqs.take(n) =~= reqs);
        assert(reqs.skip(n) =~= Seq::<RegistryRequest<W>>::empty());
    } else {
        lemma_apply_split(s, reqs.drop_last(), n);
        assert(reqs.drop_last().take(n) =~= reqs.take(n));
        assert(reqs.skip(n).drop_last() =~= reqs.drop_last().skip(n));
        assert(reqs.skip(n).last() == reqs.last());
    }
}

/// Requests that do not mention descriptor `fd` leave its waker as it was.
proof fn lemma_apply_keeps_fd<W>(s: ReactorState<W>, reqs: Seq<RegistryRequest<W>>, fd: i32)
    requires
        forall|q: int| 0 <= q < reqs.len() ==> !mentions_fd(#[trigger] reqs[q], fd),
    ensures
        apply_requests(s, reqs).fds.contains_key(fd) == s.fds.contains_key(fd),
        s.fds.contains_key(fd) ==> apply_requests(s, reqs).fds[fd] == s.fds[fd],
    decreases reqs.len(),
{
    if reqs.len() > 0 {
        assert forall|q: int| 0 <= q < reqs.drop_last().len() implies !mentions_fd(
            #[trigger] reqs.drop_last()[q],
            fd,
        ) by {
            assert(reqs.drop_last()[q] == reqs[q]);
        }
        lemma_apply_keeps_fd(s, reqs.drop_last(), fd);
        assert(!mentions_fd(reqs[reqs.len() - 1], fd));
    }
}

/// Requests that do not register descriptor `fd` never make it watched.
proof fn lemma_apply_keeps_fd_unwatched<W>(s: ReactorState<W>, reqs: Seq<RegistryRequest<W>>, fd: i32)
    requires
        !s.fds.contains_key(fd),
        forall|q: int| 0 <= q < reqs.len() ==> !registers_fd(#[trigger] reqs[q], fd),
    ensures
        !apply_requests(s, reqs).fds.contains_key(fd),
    decreases reqs.len(),
{
    if reqs.len() > 0 {
        assert forall|q: int| 0 <= q < reqs.drop_last().len() implies !registers_fd(
            #[trigger] reqs.drop_last()[q],
            fd,
        ) by {
            assert(reqs.drop_last()[q] == reqs[q]);
        }
        lemma_apply_keeps_fd_unwatched(s, reqs.drop_last(), fd);
        assert(!registers_fd(reqs[reqs.len() - 1], fd));
    }
}

/// Every event that wakes a watched descriptor puts that descriptor in the
/// woken list, and only watched descriptors are in it.
pub proof fn lemma_woken_fds_members<W>(fds: Map<i32, W>, events: Seq<ReadyEvent>)
    ensures
        forall|e: int|
            0 <= e < events.len() && wakes(fds, #[trigger] events[e]) ==> woken_fds(
                fds,
                events,
            ).contains(fd_of(events[e].token)),
        forall|x: i32| #[trigger] woken_fds(fds, events).contains(x) ==> fds.contains_key(x),
    decreases events.len(),
{
    if events.len() > 0 {
        let front = events.drop_last();
        lemma_woken_fds_members(fds, front);
        let f = woken_fds(fds, front);
        assert forall|e: int|
            0 <= e < events.len() && wakes(fds, #[trigger] events[e]) implies woken_fds(
            fds,
            events,
        ).contains(fd_of(events[e].token)) by {
            if e < front.len() {
                assert(front[e] == events[e]);
                let n = choose|n: int| 0 <= n < f.len() && f[n] == fd_of(events[e].token);
                if wakes(fds, events.last()) {
                    assert(f.push(fd_of(events.last().token))[n] == fd_of(events[e].token));
                }
            } else {
                let whole = f.push(fd_of(events.last().token));
                assert(whole[whole.len() - 1] == fd_of(events[e].token));
            }
        }
        assert forall|x: i32| #[trigger] woken_fds(fds, events).contains(x) implies fds.contains_key(x) by {
            if wakes(fds, events.last()) {
                let whole = f.push(fd_of(events.last().token));
                assert(woken_fds(fds, events) == whole);
                let n = choose|n: int| 0 <= n < whole.len() && whole[n] == x;
                if n < f.len() {
                    assert(f[n] == x);
                    assert(f.contains(x));
                }
            } else {
                assert(woken_fds(fds, events) == f);
                assert(f.contains(x));
            }
        }
    }
}

/// A descriptor registered with waker `w` stays watched with `w` in every
/// later pass, as long as no later request registers or unregisters it; in
/// each such pass every event reporting it readable or writable wakes it.
/// Descriptors without a waker are never woken.
pub proof fn lemma_registered_fd_stays_woken<W>(
    states: Seq<ReactorState<W>>,
    its: Seq<Iteration<W>>,
    fired: Seq<Seq<(u64, usize, W)>>,
    woken: Seq<Seq<i32>>,
    j: int,
    p: int,
    fd: i32,
    w: W,
)
    requires
        run_of(states, its, fired, woken),
        0 <= j < its.len(),
        0 <= p < its[j].requests.len(),
        its[j].requests[p] == (RegistryRequest::RegisterFd { fd, waker: w }),
        forall|q: int| p < q < its[j].requests.len() ==> !mentions_fd(#[trigger] its[j].requests[q], fd),
        forall|i: int, q: int|
            j < i < its.len() && 0 <= q < its[i].requests.len() ==> !mentions_fd(
                #[trigger] its[i].requests[q],
                fd,
            ),
    ensures
        forall|i: int|
            j <= i < its.len() ==> #[trigger] states[i + 1].fds.contains_key(fd) && states[i
                + 1].fds[fd] == w,
        forall|i: int, e: int|
            j <= i < its.len() && 0 <= e < its[i].events.len() && its[i].events[e].token
                == token_of(fd) && (its[i].events[e].readable || its[i].events[e].writable)
                ==> #[trigger] woken[i].contains(#[trigger] fd_of(its[i].events[e].token)),
        forall|i: int, x: i32|
            0 <= i < its.len() && #[trigger] woken[i].contains(x) ==> states[i + 1].fds.contains_key(x),
{
    lemma_token_round_trip(fd);
    assert forall|i: int, x: i32| 0 <= i < its.len() && #[trigger] woken[i].contains(x)
        implies states[i + 1].fds.contains_key(x) by {
        assert(iteration_step(states[i], its[i], states[i + 1], fired[i], woken[i]));
        lemma_woken_fds_members(apply_requests(states[i], its[i].requests).fds, its[i].events);
    }
    // the pass that registers it
    let reqs = its[j].requests;
    assert(iteration_step(states[j], its[j], states[j + 1], fired[j], woken[j]));
    lemma_apply_split(states[j], reqs, p + 1);
    let after_p = apply_requests(states[j], reqs.take(p + 1));
    assert(reqs.take(p + 1).drop_last() =~= reqs.take(p));
    assert(reqs.take(p + 1).last() == reqs[p]);
    assert(after_p.fds.contains_key(fd) && after_p.fds[fd] == w);
    assert forall|q: int| 0 <= q < reqs.skip(p + 1).len() implies !mentions_fd(
        #[trigger] reqs.skip(p + 1)[q],
        fd,
    ) by {
        assert(reqs.skip(p + 1)[q] == reqs[p + 1 + q]);
    }
    lemma_apply_keeps_fd(after_p, reqs.skip(p + 1), fd);
    // later passes
    assert forall|i: int| j <= i < its.len() implies #[trigger] states[i + 1].fds.contains_key(fd)
        && states[i + 1].fds[fd] == w by {
        lemma_fd_kept_from(states, its, fired, woken, j, fd, w, i);
    }
    assert forall|i: int, e: int|
        j <= i < its.len() && 0 <= e < its[i].events.len() && its[i].events[e].token == token_of(
            fd,
        ) && (its[i].events[e].readable || its[i].events[e].writable) implies #[trigger] woken[i].contains(
        #[trigger] fd_of(its[i].events[e].token),
    ) by {
        lemma_fd_kept_from(states, its, fired, woken, j, fd, w, i);
        assert(iteration_step(states[i], its[i], states[i + 1], fired[i], woken[i]));
        let mid = apply_requests(states[i], its[i].requests);
        lemma_woken_fds_members(mid.fds, its[i].events);
        assert(wakes(mid.fds, its[i].events[e]));
    }
}

/// Induction over the passes after the registering one.
proof fn lemma_fd_kept_from<W>(
    states: Seq<ReactorState<W>>,
    its: Seq<Iteration<W>>,
    fired: Seq<Seq<(u64, usize, W)>>,
    woken: Seq<Seq<i32>>,
    j: int,
    fd: i32,
    w: W,
    i: int,
)
    requires
        run_of(states, its, fired, woken),
        0 <= j <= i < its.len(),
        states[j + 1].fds.contains_key(fd) && states[j + 1].fds[fd] == w,
        forall|i2: int, q: int|
            j < i2 < its.len() && 0 <= q < its[i2].requests.len() ==> !mentions_fd(
                #[trigger] its[i2].requests[q],
                fd,
            ),
    ensures
        states[i + 1].fds.contains_key(fd) && states[i + 1].fds[fd] == w,
    decreases i - j,
{
    if i > j {
        lemma_fd_kept_from(states, its, fired, woken, j, fd, w, i - 1);
        assert(iteration_step(states[i], its[i], states[i + 1], fired[i], woken[i]));
        assert forall|q: int| 0 <= q < its[i].requests.len() implies !mentions_fd(
            #[trigger] its[i].requests[q],
            fd,
        ) by {}
        lemma_apply_keeps_fd(states[i], its[i].requests, fd);
    }
}

/// Registering a descriptor again keeps only the newest waker for it.
pub proof fn lemma_reregistered_fd_keeps_newest<W>(fds: Map<i32, W>, fd: i32, w1: W, w2: W)
    ensures
        fds_after(
            fds_after(fds, RegistryRequest::RegisterFd { fd, waker: w1 }),
            RegistryRequest::RegisterFd { fd, waker: w2 },
        ) == fds_after(fds, RegistryRequest::RegisterFd { fd, waker: w2 }),
{
    assert(fds.insert(fd, w1).insert(fd, w2) =~= fds.insert(fd, w2));
}

/// Once descriptor `fd` is unregistered, it is not woken in that pass or any
/// later one, as long as no later request registers it again.
pub proof fn lemma_unregistered_fd_stays_quiet<W>(
    states: Seq<ReactorState<W>>,
    its: Seq<Iteration<W>>,
    fired: Seq<Seq<(u64, usize, W)>>,
    woken: Seq<Seq<i32>>,
    j: int,
    p: int,
    fd: i32,
)
    requires
        run_of(states, its, fired, woken),
        0 <= j < its.len(),
        0 <= p < its[j].requests.len(),
        its[j].requests[p] == (RegistryRequest::<W>::UnregisterFd { fd }),
        forall|q: int| p < q < its[j].requests.len() ==> !registers_fd(#[trigger] its[j].requests[q], fd),
        forall|i: int, q: int|
            j < i < its.len() && 0 <= q < its[i].requests.len() ==> !registers_fd(
                #[trigger] its[i].requests[q],
                fd,
            ),
    ensures
        forall|i: int| j <= i < its.len() ==> !(#[trigger] woken[i]).contains(fd),
        forall|i: int| j <= i < its.len() ==> !(#[trigger] states[i + 1]).fds.contains_key(fd),
{
    let reqs = its[j].requests;
    assert(iteration_step(states[j], its[j], states[j + 1], fired[j], woken[j]));
    lemma_apply_split(states[j], reqs, p + 1);
    let after_p = apply_requests(states[j], reqs.take(p + 1));
    assert(reqs.take(p + 1).drop_last() =~= reqs.take(p));
    assert(reqs.take(p + 1).last() == reqs[p]);
    assert(!after_p.fds.contains_key(fd));
    assert forall|q: int| 0 <= q < reqs.skip(p + 1).len() implies !registers_fd(
        #[trigger] reqs.skip(p + 1)[q],
        fd,
    ) by {
        assert(reqs.skip(p + 1)[q] == reqs[p + 1 + q]);
    }
    lemma_apply_keeps_fd_unwatched(after_p, reqs.skip(p + 1), fd);
    assert forall|i: int| j <= i < its.len() implies !(#[trigger] states[i + 1]).fds.contains_key(fd) by {
        lemma_fd_unwatched_from(states, its, fired, woken, j, fd, i);
    }
    assert forall|i: int| j <= i < its.len() implies !(#[trigger] woken[i]).contains(fd) by {
        lemma_fd_unwatched_from(states, its, fired, woken, j, fd, i);
        assert(iteration_step(states[i], its[i], states[i + 1], fired[i], woken[i]));
        lemma_woken_fds_members(apply_requests(states[i], its[i].requests).fds, its[i].events);
    }
}

/// Induction over the passes after the unregistering one.
proof fn lemma_fd_unwatched_from<W>(
    states: Seq<ReactorState<W>>,
    its: Seq<Iteration<W>>,
    fired: Seq<Seq<(u64, usize, W)>>,
    woken: Seq<Seq<i32>>,
    j: int,
    fd: i32,
    i: int,
)
    requires
        run_of(states, its, fired, woken),
        0 <= j <= i < its.len(),
        !states[j + 1].fds.contains_key(fd),
        forall|i2: int, q: int|
            j < i2 < its.len() && 0 <= q < its[i2].requests.len() ==> !registers_fd(
                #[trigger] its[i2].requests[q],
                fd,
            ),
    ensures
        !states[i + 1].fds.contains_key(fd),
    decreases i - j,
{
    if i > j {
        lemma_fd_unwatched_from(states, its, fired, woken, j, fd, i - 1);
        assert(iteration_step(states[i], its[i], states[i + 1], fired[i], woken[i]));
        assert forall|q: int| 0 <= q < its[i].requests.len() implies !registers_fd(
            #[trigger] its[i].requests[q],
            fd,
        ) by {}
        lemma_apply_keeps_fd_unwatched(states[i], its[i].requests, fd);
    }
}

} // verus!

verus! {

/// Whether `r` registers or cancels a timer named `id`.
pub open spec fn mentions_timer<W>(r: RegistryRequest<W>, id: usize) -> bool {
    ||| (r matches RegistryRequest::RegisterTimer { id: i, .. } && i == id)
    ||| (r matches RegistryRequest::UnregisterTimer { id: i } && i == id)
}

/// A request that does not name timer `id` leaves the timers named `id` as they were.
proof fn lemma_request_keeps_id<W>(m: Map<u64, Seq<(usize, W)>>, r: RegistryRequest<W>, id: usize)
    requires
        !mentions_timer(r, id),
    ensures
        keep(timers_after(m, r), with_id(id)) == keep(m, with_id(id)),
{
    let p = with_id::<W>(id);
    match r {
        RegistryRequest::RegisterTimer { timer, id: i, waker } => {
            let m2 = with_timer(m, timer, i, waker);
            lemma_filter_push(bucket(m, timer), (i, waker), p);
            assert(!p((i, waker)));
            assert(m2[timer].filter(p) == bucket(m, timer).filter(p));
            if !m.contains_key(timer) {
                reveal(Seq::filter);
                assert(bucket(m, timer).filter(p).len() == 0);
            }
            assert forall|k: u64| #[trigger] keep(m2, p).contains_key(k) == keep(m, p).contains_key(k) by {
                if k == timer {
                    if m.contains_key(k) {
                        assert(bucket(m, timer) == m[k]);
                    }
                }
            }
            assert(keep(m2, p) =~= keep(m, p));
        },
        RegistryRequest::UnregisterTimer { id: i } => {
            let m2 = without_timer(m, i);
            assert forall|k: u64| m.contains_key(k) implies #[trigger] m[k].filter(not_id(i)).filter(p)
                == m[k].filter(p) by {
                lemma_filter_filter(m[k], not_id(i), p);
                lemma_filter_same(m[k], |x: (usize, W)| not_id::<W>(i)(x) && p(x), p);
                m[k].filter(not_id(i)).lemma_filter_len(p);
            }
            assert forall|k: u64| #[trigger] keep(m2, p).contains_key(k) == keep(m, p).contains_key(k) by {
                if m.contains_key(k) {
                    assert(m[k].filter(not_id(i)).filter(p) == m[k].filter(p));
                    m[k].filter(not_id(i)).lemma_filter_len(p);
                    assert(others(m[k], i) == m[k].filter(not_id(i)));
                }
            }
            assert forall|k: u64| #[trigger] keep(m2, p).contains_key(k) implies keep(m2, p)[k] == keep(m, p)[k] by {
                assert(m[k].filter(not_id(i)).filter(p) == m[k].filter(p));
            }
            assert(keep(m2, p) =~= keep(m, p));
        },
        _ => {},
    }
}

/// Requests that do not name timer `id` leave the timers named `id` as they were.
proof fn lemma_apply_keeps_id<W>(s: ReactorState<W>, reqs: Seq<RegistryRequest<W>>, id: usize)
    requires
        forall|q: int| 0 <= q < reqs.len() ==> !mentions_timer(#[trigger] reqs[q], id),
    ensures
        keep(apply_requests(s, reqs).timers, with_id(id)) == keep(s.timers, with_id(id)),
    decreases reqs.len(),
{
    if reqs.len() > 0 {
        assert forall|q: int| 0 <= q < reqs.drop_last().len() implies !mentions_timer(
            #[trigger] reqs.drop_last()[q],
            id,
        ) by {
            assert(reqs.drop_last()[q] == reqs[q]);
        }
        lemma_apply_keeps_id(s, reqs.drop_last(), id);
        assert(!mentions_timer(reqs[reqs.len() - 1], id));
        lemma_request_keeps_id(apply_requests(s, reqs.drop_last()).timers, reqs.last(), id);
    }
}

/// Registering timer `id` where none was leaves exactly that one timer named `id`.
proof fn lemma_register_single<W>(m: Map<u64, Seq<(usize, W)>>, t: u64, id: usize, w: W)
    requires
        keep(m, with_id(id)) == Map::<u64, Seq<(usize, W)>>::empty(),
    ensures
        keep(with_timer(m, t, id, w), with_id(id)) == Map::<u64, Seq<(usize, W)>>::empty().insert(
            t,
            seq![(id, w)],
        ),
{
    let p = with_id::<W>(id);
    let m2 = with_timer(m, t, id, w);
    lemma_filter_push(bucket(m, t), (id, w), p);
    assert(bucket(m, t).filter(p).len() == 0) by {
        if m.contains_key(t) {
            assert(!keep(m, p).contains_key(t));
        } else {
            reveal(Seq::filter);
        }
    }
    assert(bucket(m, t).filter(p).push((id, w)) =~= seq![(id, w)]);
    assert forall|k: u64| k != t && m.contains_key(k) implies #[trigger] m[k].filter(p).len() == 0 by {
        assert(!keep(m, p).contains_key(k));
    }
    let single = Map::<u64, Seq<(usize, W)>>::empty().insert(t, seq![(id, w)]);
    assert(m2[t] == bucket(m, t).push((id, w)));
    assert(m2[t].filter(p) == seq![(id, w)]);
    assert forall|k: u64| #[trigger] keep(m2, p).contains_key(k) == single.contains_key(k) by {
        if k != t && m2.contains_key(k) {
            assert(m2[k] == m[k]);
        }
    }
    assert forall|k: u64| #[trigger] keep(m2, p).contains_key(k) implies keep(m2, p)[k] == single[k] by {}
    assert(keep(m2, p) =~= single);
}

} // verus!

verus! {

/// Whether pass `i` is the first pass from pass `j` on whose clock reading
/// has reached `t`.
pub open spec fn first_due_pass<W>(its: Seq<Iteration<W>>, j: int, t: u64, i: int) -> bool {
    &&& j <= i
    &&& its[i].now >= t
    &&& forall|l: int| j <= l < i ==> #[trigger] its[l].now < t
}

/// Whether no pass from pass `j` up to, not including, pass `i` has reached `t`.
pub open spec fn not_due_since<W>(its: Seq<Iteration<W>>, j: int, t: u64, i: int) -> bool {
    &&& j <= i
    &&& forall|l: int| j <= l < i ==> #[trigger] its[l].now < t
}

/// The only timer named `id`: `w`, due at `t`.
pub open spec fn single_timer<W>(t: u64, id: usize, w: W) -> Map<u64, Seq<(usize, W)>> {
    Map::<u64, Seq<(usize, W)>>::empty().insert(t, seq![(id, w)])
}

/// The premises of the timer laws: timer `id` is registered once, by request
/// `p` of pass `j`, at `t` with waker `w`; no other request of the run names
/// `id`, and no timer named `id` is pending before the run.
pub open spec fn registered_once<W>(
    states: Seq<ReactorState<W>>,
    its: Seq<Iteration<W>>,
    j: int,
    p: int,
    t: u64,
    id: usize,
    w: W,
) -> bool {
    &&& 0 <= j < its.len()
    &&& 0 <= p < its[j].requests.len()
    &&& its[j].requests[p] == (RegistryRequest::RegisterTimer { timer: t, id, waker: w })
    &&& keep(states[0].timers, with_id(id)) == Map::<u64, Seq<(usize, W)>>::empty()
    &&& forall|i: int, q: int|
        0 <= i < its.len() && 0 <= q < its[i].requests.len() && !(i == j && q == p)
            ==> !mentions_timer(#[trigger] its[i].requests[q], id)
}

/// The timers named `id` just before the clock is read in pass `i`.
proof fn lemma_timer_mid<W>(
    states: Seq<ReactorState<W>>,
    its: Seq<Iteration<W>>,
    fired: Seq<Seq<(u64, usize, W)>>,
    woken: Seq<Seq<i32>>,
    j: int,
    p: int,
    t: u64,
    id: usize,
    w: W,
    i: int,
)
    requires
        run_of(states, its, fired, woken),
        registered_once(states, its, j, p, t, id, w),
        0 <= i < its.len(),
        keep(states[i].timers, with_id(id)) == if j < i && not_due_since(its, j, t, i) {
            single_timer(t, id, w)
        } else {
            Map::empty()
        },
    ensures
        keep(apply_requests(states[i], its[i].requests).timers, with_id(id)) == if not_due_since(
            its,
            j,
            t,
            i,
        ) {
            single_timer(t, id, w)
        } else {
            Map::empty()
        },
{
    let reqs = its[i].requests;
    if i != j {
        assert forall|q: int| 0 <= q < reqs.len() implies !mentions_timer(#[trigger] reqs[q], id) by {
            assert(!(i == j && q == p));
        }
        lemma_apply_keeps_id(states[i], reqs, id);
    } else {
        lemma_apply_split(states[i], reqs, p + 1);
        assert forall|q: int| 0 <= q < reqs.take(p).len() implies !mentions_timer(
            #[trigger] reqs.take(p)[q],
            id,
        ) by {
            assert(reqs.take(p)[q] == reqs[q]);
            assert(!(i == j && q == p));
        }
        lemma_apply_keeps_id(states[i], reqs.take(p), id);
        assert(reqs.take(p + 1).drop_last() =~= reqs.take(p));
        assert(reqs.take(p + 1).last() == reqs[p]);
        let before = apply_requests(states[i], reqs.take(p));
        lemma_register_single(before.timers, t, id, w);
        let after_p = apply_requests(states[i], reqs.take(p + 1));
        assert(after_p.timers == with_timer(before.timers, t, id, w));
        assert forall|q: int| 0 <= q < reqs.skip(p + 1).len() implies !mentions_timer(
            #[trigger] reqs.skip(p + 1)[q],
            id,
        ) by {
            assert(reqs.skip(p + 1)[q] == reqs[p + 1 + q]);
            assert(!(i == j && p + 1 + q == p));
        }
        lemma_apply_keeps_id(after_p, reqs.skip(p + 1), id);
    }
}

/// Pass `i` of a run where timer `id` is registered once: what it fires of
/// timer `id`, and what it leaves pending for the next pass.
proof fn lemma_timer_pass<W>(
    states: Seq<ReactorState<W>>,
    its: Seq<Iteration<W>>,
    fired: Seq<Seq<(u64, usize, W)>>,
    woken: Seq<Seq<i32>>,
    j: int,
    p: int,
    t: u64,
    id: usize,
    w: W,
    i: int,
)
    requires
        run_of(states, its, fired, woken),
        registered_once(states, its, j, p, t, id, w),
        0 <= i < its.len(),
        keep(states[i].timers, with_id(id)) == if j < i && not_due_since(its, j, t, i) {
            single_timer(t, id, w)
        } else {
            Map::empty()
        },
    ensures
        fired[i].filter(on_timer(with_id(id))) == if first_due_pass(its, j, t, i) {
            seq![(t, id, w)]
        } else {
            Seq::empty()
        },
        keep(states[i + 1].timers, with_id(id)) == if j < i + 1 && not_due_since(its, j, t, i + 1) {
            single_timer(t, id, w)
        } else {
            Map::empty()
        },
{
    let pid = with_id::<W>(id);
    assert(iteration_step(states[i], its[i], states[i + 1], fired[i], woken[i]));
    let mid = apply_requests(states[i], its[i].requests);
    lemma_timer_mid(states, its, fired, woken, j, p, t, id, w, i);
    lemma_expiry_keep(mid.timers, its[i].now, fired[i], pid);
    let kept = keep(mid.timers, pid);
    lemma_expiry_small(t, seq![(id, w)], its[i].now, fired[i].filter(on_timer(pid)));
    assert(tagged(t, seq![(id, w)]) =~= seq![(t, id, w)]);
    lemma_keep_pending(mid.timers, its[i].now, pid);
    assert(first_due_pass(its, j, t, i) == (not_due_since(its, j, t, i) && its[i].now >= t));
    assert((j < i + 1 && not_due_since(its, j, t, i + 1)) == (not_due_since(its, j, t, i)
        && its[i].now < t)) by {
        if not_due_since(its, j, t, i) && its[i].now < t {
            assert forall|l: int| j <= l < i + 1 implies #[trigger] its[l].now < t by {}
        }
        if j < i + 1 && not_due_since(its, j, t, i + 1) {
            assert(its[i].now < t);
        }
    }
    assert(pending_after(single_timer(t, id, w), its[i].now) =~= if its[i].now < t {
        single_timer(t, id, w)
    } else {
        Map::empty()
    });
    assert(pending_after(Map::<u64, Seq<(usize, W)>>::empty(), its[i].now) =~= Map::empty());
}

/// The timers named `id` before each pass.
proof fn lemma_timer_before_pass<W>(
    states: Seq<ReactorState<W>>,
    its: Seq<Iteration<W>>,
    fired: Seq<Seq<(u64, usize, W)>>,
    woken: Seq<Seq<i32>>,
    j: int,
    p: int,
    t: u64,
    id: usize,
    w: W,
    i: int,
)
    requires
        run_of(states, its, fired, woken),
        registered_once(states, its, j, p, t, id, w),
        0 <= i <= its.len(),
    ensures
        keep(states[i].timers, with_id(id)) == if j < i && not_due_since(its, j, t, i) {
            single_timer(t, id, w)
        } else {
            Map::empty()
        },
    decreases i,
{
    if i > 0 {
        lemma_timer_before_pass(states, its, fired, woken, j, p, t, id, w, i - 1);
        lemma_timer_pass(states, its, fired, woken, j, p, t, id, w, i - 1);
    }
}

/// A timer registered once fires exactly once: in the first pass, from the
/// one that registers it on, whose clock reading has reached its deadline,
/// with the waker it was registered with; no other pass fires it. (Until
/// then it stays pending.)
pub proof fn lemma_registered_timer_fires_once<W>(
    states: Seq<ReactorState<W>>,
    its: Seq<Iteration<W>>,
    fired: Seq<Seq<(u64, usize, W)>>,
    woken: Seq<Seq<i32>>,
    j: int,
    p: int,
    t: u64,
    id: usize,
    w: W,
)
    requires
        run_of(states, its, fired, woken),
        registered_once(states, its, j, p, t, id, w),
    ensures
        forall|i: int|
            0 <= i < its.len() ==> (#[trigger] fired[i]).filter(on_timer(with_id(id))) == if first_due_pass(
                its,
                j,
                t,
                i,
            ) {
                seq![(t, id, w)]
            } else {
                Seq::empty()
            },
{
    assert forall|i: int| 0 <= i < its.len() implies (#[trigger] fired[i]).filter(
        on_timer(with_id(id)),
    ) == if first_due_pass(its, j, t, i) {
        seq![(t, id, w)]
    } else {
        Seq::empty()
    } by {
        lemma_timer_before_pass(states, its, fired, woken, j, p, t, id, w, i);
        lemma_timer_pass(states, its, fired, woken, j, p, t, id, w, i);
    }
}

} // verus!

verus! {

/// A request that does not name timer `id` acts on the other timers alone.
proof fn lemma_request_keeps_others<W>(m: Map<u64, Seq<(usize, W)>>, r: RegistryRequest<W>, id: usize)
    requires
        !mentions_timer(r, id),
    ensures
        keep(timers_after(m, r), not_id(id)) == timers_after(keep(m, not_id(id)), r),
{
    let o = not_id::<W>(id);
    match r {
        RegistryRequest::RegisterTimer { timer, id: i, waker } => {
            let m2 = with_timer(m, timer, i, waker);
            let k2 = keep(m, o);
            lemma_filter_push(bucket(m, timer), (i, waker), o);
            assert(o((i, waker)));
            assert(bucket(k2, timer) == bucket(m, timer).filter(o)) by {
                if !k2.contains_key(timer) {
                    if m.contains_key(timer) {
                        assert(m[timer].filter(o).len() == 0);
                        assert(m[timer].filter(o) =~= Seq::<(usize, W)>::empty());
                    } else {
                        reveal(Seq::filter);
                    }
                }
            }
            assert(keep(m2, o) =~= with_timer(k2, timer, i, waker));
        },
        RegistryRequest::UnregisterTimer { id: i } => {
            let both = |x: (usize, W)| o(x) && not_id::<W>(i)(x);
            assert forall|k: u64| m.contains_key(k) implies #[trigger] m[k].filter(not_id(i)).filter(o)
                == m[k].filter(both) && m[k].filter(o).filter(not_id(i)) == m[k].filter(both) by {
                lemma_filter_filter(m[k], not_id(i), o);
                lemma_filter_same(m[k], |x: (usize, W)| not_id::<W>(i)(x) && o(x), both);
                lemma_filter_filter(m[k], o, not_id(i));
                m[k].filter(not_id(i)).lemma_filter_len(o);
                m[k].filter(o).lemma_filter_len(not_id(i));
            }
            let lhs = keep(without_timer(m, i), o);
            let rhs = without_timer(keep(m, o), i);
            assert forall|k: u64| #[trigger] lhs.contains_key(k) == rhs.contains_key(k) by {
                if m.contains_key(k) {
                    assert(m[k].filter(not_id(i)).filter(o) == m[k].filter(both));
                    assert(others(m[k], i) == m[k].filter(not_id(i)));
                    m[k].filter(not_id(i)).lemma_filter_len(o);
                    m[k].filter(o).lemma_filter_len(not_id(i));
                }
            }
            assert forall|k: u64| #[trigger] lhs.contains_key(k) implies lhs[k] == rhs[k] by {
                assert(m[k].filter(not_id(i)).filter(o) == m[k].filter(both));
            }
            assert(lhs =~= rhs);
        },
        _ => {},
    }
}

/// Two bookkeepings that differ only in timers named `id`, where the second
/// holds none.
pub open spec fn same_but_timer<W>(x: ReactorState<W>, y: ReactorState<W>, id: usize) -> bool {
    &&& x.fds == y.fds
    &&& keep(x.timers, not_id(id)) == keep(y.timers, not_id(id))
    &&& keep(y.timers, with_id(id)) == Map::<u64, Seq<(usize, W)>>::empty()
}

/// Requests that do not name timer `id` keep two bookkeepings related.
proof fn lemma_apply_same_but_timer<W>(
    x: ReactorState<W>,
    y: ReactorState<W>,
    reqs: Seq<RegistryRequest<W>>,
    id: usize,
)
    requires
        same_but_timer(x, y, id),
        forall|q: int| 0 <= q < reqs.len() ==> !mentions_timer(#[trigger] reqs[q], id),
    ensures
        same_but_timer(apply_requests(x, reqs), apply_requests(y, reqs), id),
    decreases reqs.len(),
{
    if reqs.len() > 0 {
        assert forall|q: int| 0 <= q < reqs.drop_last().len() implies !mentions_timer(
            #[trigger] reqs.drop_last()[q],
            id,
        ) by {
            assert(reqs.drop_last()[q] == reqs[q]);
        }
        lemma_apply_same_but_timer(x, y, reqs.drop_last(), id);
        let x1 = apply_requests(x, reqs.drop_last());
        let y1 = apply_requests(y, reqs.drop_last());
        assert(!mentions_timer(reqs[reqs.len() - 1], id));
        lemma_request_keeps_others(x1.timers, reqs.last(), id);
        lemma_request_keeps_others(y1.timers, reqs.last(), id);
        lemma_request_keeps_id(y1.timers, reqs.last(), id);
    }
}

/// Cancelling timer `id` relates a bookkeeping to the same without it.
proof fn lemma_cancel_same_but_timer<W>(x: ReactorState<W>, id: usize)
    ensures
        same_but_timer(
            x,
            ReactorState { fds: x.fds, timers: without_timer(x.timers, id) },
            id,
        ),
{
    let m = x.timers;
    let o = not_id::<W>(id);
    let pid = with_id::<W>(id);
    assert forall|k: u64| m.contains_key(k) implies #[trigger] m[k].filter(o).filter(o) == m[k].filter(o)
        && m[k].filter(o).filter(pid).len() == 0 by {
        lemma_filter_filter(m[k], o, o);
        lemma_filter_same(m[k], |x: (usize, W)| o(x) && o(x), o);
        lemma_filter_filter(m[k], o, pid);
        let both = |x: (usize, W)| o(x) && pid(x);
        assert forall|n: int| 0 <= n < m[k].len() implies !both(#[trigger] m[k][n]) by {}
        lemma_filter_none(m[k], both);
    }
    let c = without_timer(m, id);
    assert forall|k: u64| c.contains_key(k) implies #[trigger] c[k] == m[k].filter(o) by {
        assert(others(m[k], id) == m[k].filter(o));
    }
    assert(keep(c, o) =~= keep(m, o));
    assert forall|k: u64| !#[trigger] keep(c, pid).contains_key(k) by {
        if c.contains_key(k) {
            assert(m[k].filter(o).filter(o) == m[k].filter(o));
            assert(c[k] == m[k].filter(o));
        }
    }
    assert(keep(c, pid) =~= Map::<u64, Seq<(usize, W)>>::empty());
}

/// Whether the second run's passes are the first run's, except that pass
/// `j2` also receives a request cancelling timer `id`, at position `c`.
pub open spec fn with_cancel_inserted<W>(
    its1: Seq<Iteration<W>>,
    its2: Seq<Iteration<W>>,
    j2: int,
    c: int,
    id: usize,
) -> bool {
    &&& its2.len() == its1.len()
    &&& 0 <= j2 < its1.len()
    &&& 0 <= c <= its1[j2].requests.len()
    &&& its2[j2] == (Iteration {
        requests: its1[j2].requests.insert(c, RegistryRequest::UnregisterTimer { id }),
        now: its1[j2].now,
        events: its1[j2].events,
    })
    &&& forall|i: int| 0 <= i < its1.len() && i != j2 ==> #[trigger] its2[i] == its1[i]
}

/// One pass of two runs whose bookkeepings differ only in timer `id`.
proof fn lemma_pass_same_but_timer<W>(
    s1: ReactorState<W>,
    s2: ReactorState<W>,
    it: Iteration<W>,
    n1: ReactorState<W>,
    n2: ReactorState<W>,
    f1: Seq<(u64, usize, W)>,
    f2: Seq<(u64, usize, W)>,
    w1: Seq<i32>,
    w2: Seq<i32>,
    mid1: ReactorState<W>,
    mid2: ReactorState<W>,
    id: usize,
)
    requires
        same_but_timer(mid1, mid2, id),
        expired_in_order(mid1.timers, it.now, f1),
        expired_in_order(mid2.timers, it.now, f2),
        n1 == (ReactorState { fds: mid1.fds, timers: pending_after(mid1.timers, it.now) }),
        n2 == (ReactorState { fds: mid2.fds, timers: pending_after(mid2.timers, it.now) }),
        w1 == woken_fds(mid1.fds, it.events),
        w2 == woken_fds(mid2.fds, it.events),
    ensures
        same_but_timer(n1, n2, id),
        f2.filter(on_timer(with_id(id))) == Seq::<(u64, usize, W)>::empty(),
        f2.filter(on_timer(not_id(id))) == f1.filter(on_timer(not_id(id))),
        w2 == w1,
{
    let o = not_id::<W>(id);
    let pid = with_id::<W>(id);
    lemma_expiry_keep(mid1.timers, it.now, f1, o);
    lemma_expiry_keep(mid2.timers, it.now, f2, o);
    lemma_expiry_is_deterministic(
        keep(mid2.timers, o),
        it.now,
        f2.filter(on_timer(o)),
        f1.filter(on_timer(o)),
    );
    lemma_expiry_keep(mid2.timers, it.now, f2, pid);
    lemma_expiry_small(0, Seq::<(usize, W)>::empty(), it.now, f2.filter(on_timer(pid)));
    lemma_keep_pending(mid1.timers, it.now, o);
    lemma_keep_pending(mid2.timers, it.now, o);
    lemma_keep_pending(mid2.timers, it.now, pid);
    assert(pending_after(Map::<u64, Seq<(usize, W)>>::empty(), it.now) =~= Map::empty());
}

} // verus!

verus! {

/// The premises of the cancellation law, over two runs.
pub open spec fn cancelled_in_second_run<W>(
    states1: Seq<ReactorState<W>>,
    its1: Seq<Iteration<W>>,
    fired1: Seq<Seq<(u64, usize, W)>>,
    woken1: Seq<Seq<i32>>,
    states2: Seq<ReactorState<W>>,
    its2: Seq<Iteration<W>>,
    fired2: Seq<Seq<(u64, usize, W)>>,
    woken2: Seq<Seq<i32>>,
    j: int,
    p: int,
    t: u64,
    id: usize,
    w: W,
    j2: int,
    c: int,
) -> bool {
    &&& run_of(states1, its1, fired1, woken1)
    &&& run_of(states2, its2, fired2, woken2)
    &&& states2[0] == states1[0]
    &&& registered_once(states1, its1, j, p, t, id, w)
    &&& with_cancel_inserted(its1, its2, j2, c, id)
    &&& j <= j2
    &&& (j2 == j ==> c > p)
    &&& not_due_since(its1, j, t, j2)
}

/// Two runs that receive the same requests, except that the second also
/// cancels timer `id` in pass `j2`, at position `c`, after which no request
/// of the first run names `id`.
pub open spec fn runs_with_cancel<W>(
    states1: Seq<ReactorState<W>>,
    its1: Seq<Iteration<W>>,
    fired1: Seq<Seq<(u64, usize, W)>>,
    woken1: Seq<Seq<i32>>,
    states2: Seq<ReactorState<W>>,
    its2: Seq<Iteration<W>>,
    fired2: Seq<Seq<(u64, usize, W)>>,
    woken2: Seq<Seq<i32>>,
    id: usize,
    j2: int,
    c: int,
) -> bool {
    &&& run_of(states1, its1, fired1, woken1)
    &&& run_of(states2, its2, fired2, woken2)
    &&& states2[0] == states1[0]
    &&& with_cancel_inserted(its1, its2, j2, c, id)
    &&& forall|q: int|
        c <= q < its1[j2].requests.len() ==> !mentions_timer(#[trigger] its1[j2].requests[q], id)
    &&& forall|i: int, q: int|
        j2 < i < its1.len() && 0 <= q < its1[i].requests.len() ==> !mentions_timer(
            #[trigger] its1[i].requests[q],
            id,
        )
}

/// Before the pass that cancels, the two runs are the same.
proof fn lemma_runs_agree_before<W>(
    states1: Seq<ReactorState<W>>,
    its1: Seq<Iteration<W>>,
    fired1: Seq<Seq<(u64, usize, W)>>,
    woken1: Seq<Seq<i32>>,
    states2: Seq<ReactorState<W>>,
    its2: Seq<Iteration<W>>,
    fired2: Seq<Seq<(u64, usize, W)>>,
    woken2: Seq<Seq<i32>>,
    id: usize,
    j2: int,
    c: int,
    i: int,
)
    requires
        runs_with_cancel(states1, its1, fired1, woken1, states2, its2, fired2, woken2, id, j2, c),
        0 <= i <= j2,
    ensures
        states2[i] == states1[i],
        i < j2 ==> fired2[i] == fired1[i] && woken2[i] == woken1[i],
    decreases i,
{
    if i > 0 {
        lemma_runs_agree_before(
            states1, its1, fired1, woken1, states2, its2, fired2, woken2, id, j2, c, i - 1);
        let k = i - 1;
        assert(iteration_step(states1[k], its1[k], states1[k + 1], fired1[k], woken1[k]));
        assert(iteration_step(states2[k], its2[k], states2[k + 1], fired2[k], woken2[k]));
        assert(its2[k] == its1[k]);
    }
    if i < j2 {
        assert(iteration_step(states1[i], its1[i], states1[i + 1], fired1[i], woken1[i]));
        assert(iteration_step(states2[i], its2[i], states2[i + 1], fired2[i], woken2[i]));
        assert(its2[i] == its1[i]);
        let mid = apply_requests(states1[i], its1[i].requests);
        lemma_expiry_is_deterministic(mid.timers, its1[i].now, fired1[i], fired2[i]);
    }
}

/// From the pass that cancels on, the runs differ only in timer `id`.
proof fn lemma_runs_related_after<W>(
    states1: Seq<ReactorState<W>>,
    its1: Seq<Iteration<W>>,
    fired1: Seq<Seq<(u64, usize, W)>>,
    woken1: Seq<Seq<i32>>,
    states2: Seq<ReactorState<W>>,
    its2: Seq<Iteration<W>>,
    fired2: Seq<Seq<(u64, usize, W)>>,
    woken2: Seq<Seq<i32>>,
    id: usize,
    j2: int,
    c: int,
    i: int,
)
    requires
        runs_with_cancel(states1, its1, fired1, woken1, states2, its2, fired2, woken2, id, j2, c),
        j2 <= i < its1.len(),
    ensures
        same_but_timer(states1[i + 1], states2[i + 1], id),
        fired2[i].filter(on_timer(with_id(id))) == Seq::<(u64, usize, W)>::empty(),
        fired2[i].filter(on_timer(not_id(id))) == fired1[i].filter(on_timer(not_id(id))),
        woken2[i] == woken1[i],
    decreases i,
{
    assert(iteration_step(states1[i], its1[i], states1[i + 1], fired1[i], woken1[i]));
    assert(iteration_step(states2[i], its2[i], states2[i + 1], fired2[i], woken2[i]));
    let mid1 = apply_requests(states1[i], its1[i].requests);
    let mid2 = apply_requests(states2[i], its2[i].requests);
    if i == j2 {
        lemma_runs_agree_before(
            states1, its1, fired1, woken1, states2, its2, fired2, woken2, id, j2, c, j2);
        let s = states1[j2];
        let r = its1[j2].requests;
        let u = RegistryRequest::<W>::UnregisterTimer { id };
        let ins = r.insert(c, u);
        assert(its2[j2].requests == ins);
        lemma_apply_split(s, r, c);
        lemma_apply_split(s, ins, c + 1);
        assert(ins.take(c + 1) =~= r.take(c).push(u));
        assert(ins.take(c + 1).drop_last() =~= r.take(c));
        assert(ins.skip(c + 1) =~= r.skip(c));
        let a = apply_requests(s, r.take(c));
        let a2 = apply_requests(s, ins.take(c + 1));
        assert(a2 == (ReactorState { fds: a.fds, timers: without_timer(a.timers, id) }));
        lemma_cancel_same_but_timer(a, id);
        assert forall|q: int| 0 <= q < r.skip(c).len() implies !mentions_timer(
            #[trigger] r.skip(c)[q],
            id,
        ) by {
            assert(r.skip(c)[q] == r[c + q]);
        }
        lemma_apply_same_but_timer(a, a2, r.skip(c), id);
    } else {
        lemma_runs_related_after(
            states1, its1, fired1, woken1, states2, its2, fired2, woken2, id, j2, c, i - 1);
        assert(its2[i] == its1[i]);
        assert forall|q: int| 0 <= q < its1[i].requests.len() implies !mentions_timer(
            #[trigger] its1[i].requests[q],
            id,
        ) by {}
        lemma_apply_same_but_timer(states1[i], states2[i], its1[i].requests, id);
    }
    lemma_pass_same_but_timer(
        states1[i],
        states2[i],
        its1[i],
        states1[i + 1],
        states2[i + 1],
        fired1[i],
        fired2[i],
        woken1[i],
        woken2[i],
        mid1,
        mid2,
        id,
    );
}

/// Cancelling touches only the timers it names. Two runs receive the same
/// requests, except that the second also cancels `id` in pass `j2`, after
/// which no request names `id`. Before that pass the runs are the same; from
/// it on the second run fires no timer named `id`. In every pass it fires
/// every timer named otherwise exactly as the first run does, in the same
/// order, and wakes the same descriptors.
pub proof fn lemma_cancel_touches_only_its_id<W>(
    states1: Seq<ReactorState<W>>,
    its1: Seq<Iteration<W>>,
    fired1: Seq<Seq<(u64, usize, W)>>,
    woken1: Seq<Seq<i32>>,
    states2: Seq<ReactorState<W>>,
    its2: Seq<Iteration<W>>,
    fired2: Seq<Seq<(u64, usize, W)>>,
    woken2: Seq<Seq<i32>>,
    id: usize,
    j2: int,
    c: int,
)
    requires
        runs_with_cancel(states1, its1, fired1, woken1, states2, its2, fired2, woken2, id, j2, c),
    ensures
        forall|i: int| 0 <= i < j2 ==> #[trigger] fired2[i] == fired1[i],
        forall|i: int|
            j2 <= i < its1.len() ==> (#[trigger] fired2[i]).filter(on_timer(with_id(id))) == Seq::<
                (u64, usize, W),
            >::empty(),
        forall|i: int|
            0 <= i < its1.len() ==> (#[trigger] fired2[i]).filter(on_timer(not_id(id)))
                == fired1[i].filter(on_timer(not_id(id))),
        forall|i: int| 0 <= i < its1.len() ==> #[trigger] woken2[i] == woken1[i],
{
    assert forall|i: int| 0 <= i < its1.len() implies {
        &&& (i < j2 ==> #[trigger] fired2[i] == fired1[i])
        &&& (j2 <= i ==> fired2[i].filter(on_timer(with_id(id))) == Seq::<(u64, usize, W)>::empty())
        &&& fired2[i].filter(on_timer(not_id(id))) == fired1[i].filter(on_timer(not_id(id)))
    } by {
        if i < j2 {
            lemma_runs_agree_before(
                states1, its1, fired1, woken1, states2, its2, fired2, woken2, id, j2, c, i);
        } else {
            lemma_runs_related_after(
                states1, its1, fired1, woken1, states2, its2, fired2, woken2, id, j2, c, i);
        }
    }
    assert forall|i: int| 0 <= i < its1.len() implies #[trigger] woken2[i] == woken1[i] by {
        if i < j2 {
            lemma_runs_agree_before(
                states1, its1, fired1, woken1, states2, its2, fired2, woken2, id, j2, c, i);
        } else {
            lemma_runs_related_after(
                states1, its1, fired1, woken1, states2, its2, fired2, woken2, id, j2, c, i);
        }
    }
}

/// Cancelling a timer touches that timer alone. Two runs receive the same
/// requests, except that the second also cancels timer `id` after its only
/// registration and before any pass whose clock reaches its deadline: the
/// second run never fires timer `id`, fires every other timer in the same
/// passes and order as the first, and wakes the same descriptors.
pub proof fn lemma_cancelled_timer_two_runs<W>(
    states1: Seq<ReactorState<W>>,
    its1: Seq<Iteration<W>>,
    fired1: Seq<Seq<(u64, usize, W)>>,
    woken1: Seq<Seq<i32>>,
    states2: Seq<ReactorState<W>>,
    its2: Seq<Iteration<W>>,
    fired2: Seq<Seq<(u64, usize, W)>>,
    woken2: Seq<Seq<i32>>,
    j: int,
    p: int,
    t: u64,
    id: usize,
    w: W,
    j2: int,
    c: int,
)
    requires
        cancelled_in_second_run(
            states1, its1, fired1, woken1, states2, its2, fired2, woken2, j, p, t, id, w, j2, c),
    ensures
        forall|i: int|
            0 <= i < its1.len() ==> (#[trigger] fired2[i]).filter(on_timer(with_id(id))) == Seq::<
                (u64, usize, W),
            >::empty(),
        forall|i: int|
            0 <= i < its1.len() ==> (#[trigger] fired2[i]).filter(on_timer(not_id(id)))
                == fired1[i].filter(on_timer(not_id(id))),
        forall|i: int| 0 <= i < its1.len() ==> #[trigger] woken2[i] == woken1[i],
{
    lemma_registered_timer_fires_once(states1, its1, fired1, woken1, j, p, t, id, w);
    assert forall|q: int| c <= q < its1[j2].requests.len() implies !mentions_timer(
        #[trigger] its1[j2].requests[q],
        id,
    ) by {
        assert(!(j2 == j && q == p));
    }
    assert forall|i: int, q: int|
        j2 < i < its1.len() && 0 <= q < its1[i].requests.len() implies !mentions_timer(
        #[trigger] its1[i].requests[q],
        id,
    ) by {
        assert(!(i == j && q == p));
    }
    assert(runs_with_cancel(states1, its1, fired1, woken1, states2, its2, fired2, woken2, id, j2, c));
    assert forall|i: int| 0 <= i < its1.len() implies {
        &&& (#[trigger] fired2[i]).filter(on_timer(with_id(id))) == Seq::<(u64, usize, W)>::empty()
        &&& fired2[i].filter(on_timer(not_id(id))) == fired1[i].filter(on_timer(not_id(id)))
        &&& woken2[i] == woken1[i]
    } by {
        if i < j2 {
            lemma_runs_agree_before(
                states1, its1, fired1, woken1, states2, its2, fired2, woken2, id, j2, c, i);
            assert(!first_due_pass(its1, j, t, i)) by {
                if j <= i {
                    assert(its1[i].now < t);
                }
            }
        } else {
            lemma_runs_related_after(
                states1, its1, fired1, woken1, states2, its2, fired2, woken2, id, j2, c, i);
        }
    }
    assert forall|i: int| 0 <= i < its1.len() implies #[trigger] woken2[i] == woken1[i] by {
        if i < j2 {
            lemma_runs_agree_before(
                states1, its1, fired1, woken1, states2, its2, fired2, woken2, id, j2, c, i);
        } else {
            lemma_runs_related_after(
                states1, its1, fired1, woken1, states2, its2, fired2, woken2, id, j2, c, i);
        }
    }
}

} // verus!

verus! {

/// Whether `r` cancels the timers named `id`.
pub open spec fn cancels_timer<W>(r: RegistryRequest<W>, id: usize) -> bool {
    r matches RegistryRequest::UnregisterTimer { id: i } && i == id
}

/// Whether a timer is `id` with waker `w`.
pub open spec fn is_timer<W>(id: usize, w: W) -> spec_fn((usize, W)) -> bool {
    |x: (usize, W)| x == (id, w)
}

/// Whether an expired entry is timer `id` with waker `w`, due at `t`.
pub open spec fn is_entry<W>(t: u64, id: usize, w: W) -> spec_fn((u64, usize, W)) -> bool {
    |e: (u64, usize, W)| e == (t, id, w)
}

/// How many timers `id` with waker `w` are pending at `t` in `m`.
pub open spec fn pending_count<W>(m: Map<u64, Seq<(usize, W)>>, t: u64, id: usize, w: W) -> nat {
    bucket(m, t).filter(is_timer(id, w)).len()
}

/// How many requests of `reqs` register timer `id` at `t` with waker `w`.
pub open spec fn registrations<W>(reqs: Seq<RegistryRequest<W>>, t: u64, id: usize, w: W) -> nat
    decreases reqs.len(),
{
    if reqs.len() == 0 {
        0
    } else {
        registrations(reqs.drop_last(), t, id, w) + if reqs.last() == (RegistryRequest::RegisterTimer {
            timer: t,
            id,
            waker: w,
        }) {
            1nat
        } else {
            0nat
        }
    }
}

/// How many registrations of timer `id` at `t` with waker `w`, made in
/// passes before `n`, have pass `i` as their first pass whose clock reading
/// reaches `t`.
pub open spec fn registrations_due_at<W>(
    its: Seq<Iteration<W>>,
    t: u64,
    id: usize,
    w: W,
    i: int,
    n: int,
) -> nat
    decreases n,
{
    if n <= 0 {
        0
    } else {
        registrations_due_at(its, t, id, w, i, n - 1) + if first_due_pass(its, n - 1, t, i) {
            registrations(its[n - 1].requests, t, id, w)
        } else {
            0nat
        }
    }
}

/// How many registrations of timer `id` at `t` with waker `w`, made in
/// passes before `n`, have not reached `t` in any pass from theirs up to,
/// not including, pass `i`.
pub open spec fn registrations_pending<W>(
    its: Seq<Iteration<W>>,
    t: u64,
    id: usize,
    w: W,
    i: int,
    n: int,
) -> nat
    decreases n,
{
    if n <= 0 {
        0
    } else {
        registrations_pending(its, t, id, w, i, n - 1) + if not_due_since(its, n - 1, t, i) {
            registrations(its[n - 1].requests, t, id, w)
        } else {
            0nat
        }
    }
}

/// A request that does not cancel `id` adds one pending timer `id` with
/// waker `w` at `t` exactly when it registers it.
proof fn lemma_request_count<W>(m: Map<u64, Seq<(usize, W)>>, r: RegistryRequest<W>, t: u64, id: usize, w: W)
    requires
        !cancels_timer(r, id),
    ensures
        pending_count(timers_after(m, r), t, id, w) == pending_count(m, t, id, w) + if r
            == (RegistryRequest::RegisterTimer { timer: t, id, waker: w }) {
            1nat
        } else {
            0nat
        },
{
    let pe = is_timer::<W>(id, w);
    match r {
        RegistryRequest::RegisterTimer { timer, id: i, waker } => {
            let m2 = with_timer(m, timer, i, waker);
            if timer == t {
                lemma_filter_push(bucket(m, t), (i, waker), pe);
                assert(bucket(m2, t) == bucket(m, t).push((i, waker)));
                assert(pe((i, waker)) == ((i, waker) == (id, w)));
            } else {
                assert(bucket(m2, t) == bucket(m, t));
            }
        },
        RegistryRequest::UnregisterTimer { id: i } => {
            let m2 = without_timer(m, i);
            if m.contains_key(t) {
                let both = |x: (usize, W)| not_id::<W>(i)(x) && pe(x);
                lemma_filter_filter(m[t], not_id(i), pe);
                lemma_filter_same(m[t], both, pe);
                m[t].filter(not_id(i)).lemma_filter_len(pe);
                assert(others(m[t], i) == m[t].filter(not_id(i)));
                if !m2.contains_key(t) {
                    assert(m[t].filter(not_id(i)).len() == 0);
                    assert(bucket(m2, t).filter(pe).len() == 0) by {
                        reveal(Seq::filter);
                    }
                }
            } else {
                assert(!m2.contains_key(t));
            }
        },
        _ => {},
    }
}

/// Requests that cancel nothing named `id` add one pending timer `id` with
/// waker `w` at `t` for each registration of it.
proof fn lemma_apply_count<W>(s: ReactorState<W>, reqs: Seq<RegistryRequest<W>>, t: u64, id: usize, w: W)
    requires
        forall|q: int| 0 <= q < reqs.len() ==> !cancels_timer(#[trigger] reqs[q], id),
    ensures
        pending_count(apply_requests(s, reqs).timers, t, id, w) == pending_count(s.timers, t, id, w)
            + registrations(reqs, t, id, w),
    decreases reqs.len(),
{
    if reqs.len() > 0 {
        assert forall|q: int| 0 <= q < reqs.drop_last().len() implies !cancels_timer(
            #[trigger] reqs.drop_last()[q],
            id,
        ) by {
            assert(reqs.drop_last()[q] == reqs[q]);
        }
        lemma_apply_count(s, reqs.drop_last(), t, id, w);
        assert(!cancels_timer(reqs[reqs.len() - 1], id));
        lemma_request_count(apply_requests(s, reqs.drop_last()).timers, reqs.last(), t, id, w);
    }
}

/// Expiry at `now` fires every pending timer `id` with waker `w` at `t`
/// when `t` is due, and none otherwise; none stays pending once due.
proof fn lemma_expiry_count<W>(
    m: Map<u64, Seq<(usize, W)>>,
    now: u64,
    r: Seq<(u64, usize, W)>,
    t: u64,
    id: usize,
    w: W,
)
    requires
        expired_in_order(m, now, r),
    ensures
        r.filter(is_entry(t, id, w)).len() == if t <= now {
            pending_count(m, t, id, w)
        } else {
            0
        },
        pending_count(pending_after(m, now), t, id, w) == if t <= now {
            0
        } else {
            pending_count(m, t, id, w)
        },
{
    let pe = is_timer::<W>(id, w);
    let at_t = |e: (u64, usize, W)| e.0 == t;
    lemma_expiry_keep(m, now, r, pe);
    let kept = keep(m, pe);
    let r2 = r.filter(on_timer(pe));
    lemma_filter_filter(r, on_timer(pe), at_t);
    lemma_filter_same(r, |e: (u64, usize, W)| on_timer(pe)(e) && at_t(e), is_entry(t, id, w));
    if kept.contains_key(t) && t <= now {
        lemma_expiry_keeps_registration_order(kept, now, r2, t);
        lemma_filter_same(r2, |e: (u64, usize, W)| e.0 == t, at_t);
        assert(bucket(m, t) == m[t]);
    } else {
        lemma_expiry_exact(kept, now, r2);
        assert forall|n: int| 0 <= n < r2.len() implies !at_t(#[trigger] r2[n]) by {
            let e = r2[n];
            assert(e.0 <= now && kept.contains_key(e.0));
        }
        lemma_filter_none(r2, at_t);
        if t <= now {
            if m.contains_key(t) {
                assert(m[t].filter(pe).len() == 0);
            } else {
                reveal(Seq::filter);
            }
        }
    }
    if !(t > now && m.contains_key(t)) {
        if t > now {
            reveal(Seq::filter);
        } else {
            assert(!pending_after(m, now).contains_key(t));
            reveal(Seq::filter);
        }
    }
}

/// Sums of registrations by whether they are due or pending.
proof fn lemma_registration_sums<W>(its: Seq<Iteration<W>>, t: u64, id: usize, w: W, i: int, n: int)
    requires
        0 <= n <= i + 1,
        0 <= i < its.len(),
    ensures
        registrations_due_at(its, t, id, w, i, n) == if its[i].now >= t {
            registrations_pending(its, t, id, w, i, n)
        } else {
            0
        },
        n <= i ==> registrations_pending(its, t, id, w, i + 1, n) == if its[i].now < t {
            registrations_pending(its, t, id, w, i, n)
        } else {
            0
        },
    decreases n,
{
    if n > 0 {
        lemma_registration_sums(its, t, id, w, i, n - 1);
        let j = n - 1;
        assert(first_due_pass(its, j, t, i) == (not_due_since(its, j, t, i) && its[i].now >= t));
        if j < i {
            assert(not_due_since(its, j, t, i + 1) == (not_due_since(its, j, t, i) && its[i].now < t)) by {
                if not_due_since(its, j, t, i) && its[i].now < t {
                    assert forall|l: int| j <= l < i + 1 implies #[trigger] its[l].now < t by {}
                }
                if not_due_since(its, j, t, i + 1) {
                    assert(its[i].now < t);
                }
            }
        }
    }
}

/// Each registration of a timer fires once, in its own first due pass. In
/// a run that never cancels `id` and starts with no timer `id` with waker
/// `w` pending at `t`, every pass fires that timer exactly as many times as
/// there are registrations of it whose first pass, from their own, to reach
/// `t` is that pass. No pass fires it otherwise, and other registrations
/// under the same identifier do not change the count.
pub proof fn lemma_each_registration_fires_once<W>(
    states: Seq<ReactorState<W>>,
    its: Seq<Iteration<W>>,
    fired: Seq<Seq<(u64, usize, W)>>,
    woken: Seq<Seq<i32>>,
    t: u64,
    id: usize,
    w: W,
)
    requires
        run_of(states, its, fired, woken),
        pending_count(states[0].timers, t, id, w) == 0,
        forall|i: int, q: int|
            0 <= i < its.len() && 0 <= q < its[i].requests.len() ==> !cancels_timer(
                #[trigger] its[i].requests[q],
                id,
            ),
    ensures
        forall|i: int|
            0 <= i < its.len() ==> (#[trigger] fired[i]).filter(is_entry(t, id, w)).len()
                == registrations_due_at(its, t, id, w, i, i + 1),
{
    assert forall|i: int| 0 <= i < its.len() implies (#[trigger] fired[i]).filter(
        is_entry(t, id, w),
    ).len() == registrations_due_at(its, t, id, w, i, i + 1) by {
        lemma_count_before_pass(states, its, fired, woken, t, id, w, i);
        lemma_count_pass(states, its, fired, woken, t, id, w, i);
    }
}

/// One pass of the counting law.
proof fn lemma_count_pass<W>(
    states: Seq<ReactorState<W>>,
    its: Seq<Iteration<W>>,
    fired: Seq<Seq<(u64, usize, W)>>,
    woken: Seq<Seq<i32>>,
    t: u64,
    id: usize,
    w: W,
    i: int,
)
    requires
        run_of(states, its, fired, woken),
        forall|i2: int, q: int|
            0 <= i2 < its.len() && 0 <= q < its[i2].requests.len() ==> !cancels_timer(
                #[trigger] its[i2].requests[q],
                id,
            ),
        0 <= i < its.len(),
        pending_count(states[i].timers, t, id, w) == registrations_pending(its, t, id, w, i, i),
    ensures
        fired[i].filter(is_entry(t, id, w)).len() == registrations_due_at(its, t, id, w, i, i + 1),
        pending_count(states[i + 1].timers, t, id, w) == registrations_pending(
            its,
            t,
            id,
            w,
            i + 1,
            i + 1,
        ),
{
    assert(iteration_step(states[i], its[i], states[i + 1], fired[i], woken[i]));
    let mid = apply_requests(states[i], its[i].requests);
    assert forall|q: int| 0 <= q < its[i].requests.len() implies !cancels_timer(
        #[trigger] its[i].requests[q],
        id,
    ) by {}
    lemma_apply_count(states[i], its[i].requests, t, id, w);
    lemma_expiry_count(mid.timers, its[i].now, fired[i], t, id, w);
    lemma_registration_sums(its, t, id, w, i, i + 1);
    lemma_registration_sums(its, t, id, w, i, i);
    assert(not_due_since(its, i, t, i));
    assert(not_due_since(its, i, t, i + 1) == (its[i].now < t)) by {
        if its[i].now < t {
            assert forall|l: int| i <= l < i + 1 implies #[trigger] its[l].now < t by {}
        }
    }
}

/// The counting law's invariant before each pass.
proof fn lemma_count_before_pass<W>(
    states: Seq<ReactorState<W>>,
    its: Seq<Iteration<W>>,
    fired: Seq<Seq<(u64, usize, W)>>,
    woken: Seq<Seq<i32>>,
    t: u64,
    id: usize,
    w: W,
    i: int,
)
    requires
        run_of(states, its, fired, woken),
        pending_count(states[0].timers, t, id, w) == 0,
        forall|i2: int, q: int|
            0 <= i2 < its.len() && 0 <= q < its[i2].requests.len() ==> !cancels_timer(
                #[trigger] its[i2].requests[q],
                id,
            ),
        0 <= i <= its.len(),
    ensures
        pending_count(states[i].timers, t, id, w) == registrations_pending(its, t, id, w, i, i),
    decreases i,
{
    if i > 0 {
        lemma_count_before_pass(states, its, fired, woken, t, id, w, i - 1);
        lemma_count_pass(states, its, fired, woken, t, id, w, i - 1);
    }
}

} // verus!
