use vstd::prelude::*;
use std::collections::BTreeMap;
use vstd::std_specs::iter::IteratorSpec;
use vstd::std_specs::btree::{increasing_seq, spec_keys_iter};
use vstd::std_specs::cmp::OrdSpec;
use vstd::laws_cmp::obeys_cmp;

verus! {

/// Deadlines grouped by time: for each deadline, the timers due at that
/// moment, each an identifier and the waker to notify, in registration order.
pub struct TimerQueue<W> {
    buckets: BTreeMap<u64, Vec<(usize, W)>>,
}

/// Whether a sequence of deadlines is strictly increasing.
pub open spec fn strictly_increasing(ks: Seq<u64>) -> bool {
    forall|i: int, j: int| 0 <= i < j < ks.len() ==> ks[i] < ks[j]
}

/// Every deadline of `m` has at least one timer due at it.
pub open spec fn buckets_nonempty<W>(m: Map<u64, Seq<(usize, W)>>) -> bool {
    forall|k: u64| #[trigger] m.contains_key(k) ==> m[k].len() > 0
}

/// Whether some timer of `m` has identifier `id`.
pub open spec fn has_timer<W>(m: Map<u64, Seq<(usize, W)>>, id: usize) -> bool {
    exists|k: u64, i: int| m.contains_key(k) && 0 <= i < m[k].len() && #[trigger] m[k][i].0 == id
}

/// The timers due at deadline `k` in `m`, empty when none are.
pub open spec fn bucket<W>(m: Map<u64, Seq<(usize, W)>>, k: u64) -> Seq<(usize, W)> {
    if m.contains_key(k) {
        m[k]
    } else {
        Seq::empty()
    }
}

/// `m` with timer `id` appended to the timers due at `deadline`.
pub open spec fn with_timer<W>(
    m: Map<u64, Seq<(usize, W)>>,
    deadline: u64,
    id: usize,
    waker: W,
) -> Map<u64, Seq<(usize, W)>> {
    m.insert(deadline, bucket(m, deadline).push((id, waker)))
}

/// The timers of `b` whose identifier is not `id`, in their order.
pub open spec fn others<W>(b: Seq<(usize, W)>, id: usize) -> Seq<(usize, W)> {
    b.filter(not_id(id))
}

/// Whether a timer's identifier differs from `id`.
pub open spec fn not_id<W>(id: usize) -> spec_fn((usize, W)) -> bool {
    |e: (usize, W)| e.0 != id
}

/// `m` with every timer `id` dropped, and every deadline left without a timer dropped.
pub open spec fn without_timer<W>(m: Map<u64, Seq<(usize, W)>>, id: usize) -> Map<
    u64,
    Seq<(usize, W)>,
> {
    Map::new(
        |k: u64| m.contains_key(k) && others(m[k], id).len() > 0,
        |k: u64| others(m[k], id),
    )
}

/// The deadlines of `m` that are due at time `now`.
pub open spec fn due<W>(m: Map<u64, Seq<(usize, W)>>, now: u64) -> Set<u64> {
    Set::new(|k: u64| m.contains_key(k) && k <= now)
}

/// The part of `m` that is still pending at time `now`.
pub open spec fn pending_after<W>(m: Map<u64, Seq<(usize, W)>>, now: u64) -> Map<
    u64,
    Seq<(usize, W)>,
> {
    Map::new(|k: u64| m.contains_key(k) && k > now, |k: u64| m[k])
}

/// The timers of `b`, each tagged with its deadline `k`.
pub open spec fn tagged<W>(k: u64, b: Seq<(usize, W)>) -> Seq<(u64, usize, W)> {
    b.map_values(|e: (usize, W)| (k, e.0, e.1))
}

/// The timers due at the deadlines `ks`, deadline by deadline in the order of `ks`.
pub open spec fn concat_buckets<W>(m: Map<u64, Seq<(usize, W)>>, ks: Seq<u64>) -> Seq<
    (u64, usize, W),
>
    decreases ks.len(),
{
    if ks.len() == 0 {
        Seq::empty()
    } else {
        concat_buckets(m, ks.drop_last()) + tagged(ks.last(), m[ks.last()])
    }
}

/// `r` lists every timer of `m` due at `now`: earliest deadline first, and
/// the timers of one deadline in the order they were registered.
pub open spec fn expired_in_order<W>(
    m: Map<u64, Seq<(usize, W)>>,
    now: u64,
    r: Seq<(u64, usize, W)>,
) -> bool {
    exists|ks: Seq<u64>|
        {
            &&& strictly_increasing(ks)
            &&& ks.to_set() == due(m, now)
            &&& #[trigger] concat_buckets(m, ks) == r
        }
}

/// The timers of a bucket map, by deadline.
pub closed spec fn view_of<W>(buckets: BTreeMap<u64, Vec<(usize, W)>>) -> Map<u64, Seq<(usize, W)>> {
    buckets@.map_values(|b: Vec<(usize, W)>| b@)
}

impl<W> View for TimerQueue<W> {
    type V = Map<u64, Seq<(usize, W)>>;

    closed spec fn view(&self) -> Map<u64, Seq<(usize, W)>> {
        view_of(self.buckets)
    }
}

impl<W> TimerQueue<W> {
    /// No deadline is kept without a timer due at it.
    #[verifier::type_invariant]
    closed spec fn inv(&self) -> bool {
        buckets_nonempty(self@)
    }

    /// An empty queue.
    pub fn new() -> (q: Self)
        ensures
            q@ == Map::<u64, Seq<(usize, W)>>::empty(),
            buckets_nonempty(q@),
    {
        let q = TimerQueue { buckets: BTreeMap::new() };
        assert(q@ =~= Map::<u64, Seq<(usize, W)>>::empty());
        q
    }

    /// Schedules timer `id` at `deadline`, after the timers already due then.
    pub fn register_timer(&mut self, deadline: u64, id: usize, waker: W)
        ensures
            final(self)@ == with_timer(old(self)@, deadline, id, waker),
            buckets_nonempty(final(self)@),
    {
        proof {
            use_type_invariant(&*self);
        }
        let mut buckets = BTreeMap::new();
        std::mem::swap(&mut buckets, &mut self.buckets);
        insert_timer(&mut buckets, deadline, id, waker);
        self.buckets = buckets;
    }

    /// Cancels every timer `id`, dropping deadlines left without a timer.
    pub fn unregister_timer(&mut self, id: usize)
        ensures
            final(self)@ == without_timer(old(self)@, id),
            buckets_nonempty(final(self)@),
    {
        proof {
            use_type_invariant(&*self);
        }
        let mut buckets = BTreeMap::new();
        std::mem::swap(&mut buckets, &mut self.buckets);
        remove_timer(&mut buckets, id);
        self.buckets = buckets;
    }

    /// Removes and returns every timer due at `now`, each with its deadline:
    /// earliest deadline first, and the timers of one deadline in the order
    /// they were registered.
    pub fn take_expired(&mut self, now: u64) -> (expired: Vec<(u64, usize, W)>)
        ensures
            final(self)@ == pending_after(old(self)@, now),
            buckets_nonempty(final(self)@),
            expired_in_order(old(self)@, now, expired@),
    {
        proof {
            use_type_invariant(&*self);
        }
        let mut buckets = BTreeMap::new();
        std::mem::swap(&mut buckets, &mut self.buckets);
        let expired = drain_due(&mut buckets, now);
        self.buckets = buckets;
        expired
    }
}

/// Appends timer `id` to the timers of `buckets` due at `deadline`.
fn insert_timer<W>(buckets: &mut BTreeMap<u64, Vec<(usize, W)>>, deadline: u64, id: usize, waker: W)
    requires
        buckets_nonempty(view_of(*old(buckets))),
    ensures
        buckets_nonempty(view_of(*final(buckets))),
        view_of(*final(buckets)) == with_timer(view_of(*old(buckets)), deadline, id, waker),
{
    let mut b = match buckets.remove(&deadline) {
        Some(b) => b,
        None => Vec::new(),
    };
    b.push((id, waker));
    buckets.insert(deadline, b);
    assert(view_of(*buckets) =~= with_timer(view_of(*old(buckets)), deadline, id, waker));
}

/// Drops every timer `id` from `buckets`, and every deadline left without a timer.
fn remove_timer<W>(buckets: &mut BTreeMap<u64, Vec<(usize, W)>>, id: usize)
    requires
        buckets_nonempty(view_of(*old(buckets))),
    ensures
        buckets_nonempty(view_of(*final(buckets))),
        view_of(*final(buckets)) == without_timer(view_of(*old(buckets)), id),
{
    let ks = sorted_deadlines(buckets);
    let ghost m0 = view_of(*buckets);
    let mut i: usize = 0;
    while i < ks.len()
        invariant
            0 <= i <= ks@.len(),
            strictly_increasing(ks@),
            ks@.to_set() == m0.dom(),
            buckets_nonempty(view_of(*buckets)),
            view_of(*buckets) == Map::new(
                |k: u64|
                    m0.contains_key(k) && (ks@.take(i as int).contains(k) ==> others(
                        m0[k],
                        id,
                    ).len() > 0),
                |k: u64|
                    if ks@.take(i as int).contains(k) {
                        others(m0[k], id)
                    } else {
                        m0[k]
                    },
            ),
        decreases ks@.len() - i,
    {
        let k: u64 = ks[i];
        proof {
            assert(ks@.to_set().contains(k));
            lemma_take_next(ks@, i as int);
        }
        let ghost before = view_of(*buckets);
        let ghost prev_take = ks@.take(i as int);
        assert(before.contains_key(k) && before[k] == m0[k]);
        let b = match buckets.remove(&k) {
            Some(b) => b,
            None => Vec::new(),
        };
        assert(b@ == m0[k]);
        assert(view_of(*buckets) =~= before.remove(k));
        let kept = retain_others(b, id);
        if kept.len() > 0 {
            buckets.insert(k, kept);
            assert(view_of(*buckets) =~= before.insert(k, others(m0[k], id)));
        }
        i = i + 1;
        proof {
            let mi = Map::new(
                |k: u64|
                    m0.contains_key(k) && (ks@.take(i as int).contains(k) ==> others(
                        m0[k],
                        id,
                    ).len() > 0),
                |k: u64|
                    if ks@.take(i as int).contains(k) {
                        others(m0[k], id)
                    } else {
                        m0[k]
                    },
            );
            assert(view_of(*buckets) =~= mi);
        }
    }
    proof {
        assert(ks@.take(ks@.len() as int) =~= ks@);
        assert forall|k: u64| ks@.contains(k) <==> m0.contains_key(k) by {
            assert(ks@.to_set().contains(k) <==> ks@.contains(k));
        }
        assert(view_of(*buckets) =~= without_timer(m0, id));
    }
}

/// The timers of `bucket` other than `id`, in their order.
fn retain_others<W>(bucket: Vec<(usize, W)>, id: usize) -> (kept: Vec<(usize, W)>)
    ensures
        kept@ == others(bucket@, id),
{
    let ghost all = bucket@;
    let mut kept: Vec<(usize, W)> = Vec::new();
    for e in it: bucket
        invariant
            it.seq() == all,
            kept@ == others(all.take(it.index()), id),
    {
        proof {
            assert(all.take(it.index() + 1) =~= all.take(it.index()).push(e));
            assert(all.take(it.index() + 1).drop_last() =~= all.take(it.index()));
            reveal_with_fuel(Seq::filter, 1);
        }
        if e.0 != id {
            kept.push(e);
        }
    }
    proof {
        assert(all.take(all.len() as int) =~= all);
    }
    kept
}

/// Removes from `buckets` and returns every timer due at `now`, in expiry order.
fn drain_due<W>(buckets: &mut BTreeMap<u64, Vec<(usize, W)>>, now: u64) -> (expired: Vec<(u64, usize, W)>)
    requires
        buckets_nonempty(view_of(*old(buckets))),
    ensures
        buckets_nonempty(view_of(*final(buckets))),
        view_of(*final(buckets)) == pending_after(view_of(*old(buckets)), now),
        expired_in_order(view_of(*old(buckets)), now, expired@),
{
    let ks = sorted_deadlines(buckets);
    let ghost m0 = view_of(*buckets);
    let ghost mut done: Seq<u64> = Seq::empty();
    let mut expired: Vec<(u64, usize, W)> = Vec::new();
    let mut i: usize = 0;
    while i < ks.len()
        invariant
            0 <= i <= ks@.len(),
            strictly_increasing(ks@),
            ks@.to_set() == m0.dom(),
            buckets_nonempty(view_of(*buckets)),
            view_of(*buckets) == Map::new(
                |k: u64| m0.contains_key(k) && !(ks@.take(i as int).contains(k) && k <= now),
                |k: u64| m0[k],
            ),
            strictly_increasing(done),
            forall|j: int, n: int| 0 <= j < done.len() && i <= n < ks@.len() ==> done[j] < ks@[n],
            done.to_set() == Set::new(|k: u64| ks@.take(i as int).contains(k) && k <= now),
            expired@ == concat_buckets(m0, done),
        decreases ks@.len() - i,
    {
        let k: u64 = ks[i];
        let ghost prev_take = ks@.take(i as int);
        let ghost prev_done = done;
        proof {
            assert(ks@.to_set().contains(k));
            lemma_take_next(ks@, i as int);
        }
        if k <= now {
            let ghost before = view_of(*buckets);
            assert(before.contains_key(k) && before[k] == m0[k]);
            let b = match buckets.remove(&k) {
                Some(b) => b,
                None => Vec::new(),
            };
            assert(b@ == m0[k]);
            assert(view_of(*buckets) =~= before.remove(k));
            append_tagged(&mut expired, k, b);
            proof {
                done = done.push(k);
                assert(done.drop_last() =~= prev_done);
            }
        }
        i = i + 1;
        proof {
            assert forall|k2: u64| done.contains(k2) <==> (prev_done.contains(k2) || (k2 == k && k <= now)) by {
                if k <= now {
                    if prev_done.contains(k2) {
                        let j = choose|j: int| 0 <= j < prev_done.len() && prev_done[j] == k2;
                        assert(done[j] == k2);
                    }
                    if k2 == k {
                        assert(done[done.len() - 1] == k2);
                    }
                }
            }
            assert forall|k2: u64| prev_done.contains(k2) <==> (prev_take.contains(k2) && k2 <= now) by {
                assert(prev_done.to_set().contains(k2) == prev_done.contains(k2));
            }
            assert(done.to_set() =~= Set::new(|k2: u64| ks@.take(i as int).contains(k2) && k2 <= now));
            let mi = Map::new(
                |k2: u64| m0.contains_key(k2) && !(ks@.take(i as int).contains(k2) && k2 <= now),
                |k2: u64| m0[k2],
            );
            assert(view_of(*buckets) =~= mi);
        }
    }
    proof {
        assert(ks@.take(ks@.len() as int) =~= ks@);
        assert forall|k: u64| ks@.contains(k) <==> m0.contains_key(k) by {
            assert(ks@.to_set().contains(k) <==> ks@.contains(k));
        }
        assert(view_of(*buckets) =~= pending_after(m0, now));
        assert(done.to_set() =~= due(m0, now));
        assert(concat_buckets(m0, done) == expired@);
    }
    expired
}

/// Appends the timers of `bucket`, tagged with `deadline`, to `out`.
fn append_tagged<W>(out: &mut Vec<(u64, usize, W)>, deadline: u64, bucket: Vec<(usize, W)>)
    ensures
        final(out)@ == old(out)@ + tagged(deadline, bucket@),
{
    let ghost start = out@;
    let ghost all = bucket@;
    for e in it: bucket
        invariant
            it.seq() == all,
            out@ == start + tagged(deadline, all.take(it.index())),
    {
        proof {
            assert(all.take(it.index() + 1) =~= all.take(it.index()).push(e));
        }
        out.push((deadline, e.0, e.1));
        proof {
            assert(out@ =~= start + tagged(deadline, all.take(it.index() + 1)));
        }
    }
    proof {
        assert(all.take(all.len() as int) =~= all);
    }
}

/// The deadlines of `buckets`, earliest first.
fn sorted_deadlines<W>(buckets: &BTreeMap<u64, Vec<(usize, W)>>) -> (ks: Vec<u64>)
    ensures
        strictly_increasing(ks@),
        ks@.to_set() == view_of(*buckets).dom(),
        ks@.no_duplicates(),
{
    let mut ks: Vec<u64> = Vec::new();
    let keys = buckets.keys();
    let ghost all = keys.remaining();
    for k in it: keys
        invariant
            it.seq() == all,
            ks@.len() == it.index(),
            forall|j: int| 0 <= j < ks@.len() ==> ks@[j] == *all[j],
    {
        ks.push(*k);
    }
    proof {
        assert(all == spec_keys_iter(buckets).remaining());
        assert(ks@.len() == all.len());
        assert(ks@ =~= all.unref());
        assert(view_of(*buckets).dom() =~= buckets@.dom());
        assert(obeys_cmp::<u64>());
        assert(obeys_cmp::<&u64>());
        assert(increasing_seq(all));
        assert forall|i: int, j: int| 0 <= i < j < ks@.len() implies ks@[i] < ks@[j] by {
            assert(OrdSpec::cmp_spec(&all[i], &all[j]) is Less);
        }
    }
    ks
}

} // verus!

verus! {

/// Taking one more deadline from a strictly increasing sequence adds exactly
/// that deadline, which was not among those taken before.
proof fn lemma_take_next(ks: Seq<u64>, i: int)
    requires
        strictly_increasing(ks),
        0 <= i < ks.len(),
    ensures
        !ks.take(i).contains(ks[i]),
        ks.take(i + 1) == ks.take(i).push(ks[i]),
        forall|k: u64| #[trigger] ks.take(i + 1).contains(k) <==> (ks.take(i).contains(k) || k == ks[i]),
{
    if ks.take(i).contains(ks[i]) {
        let j = choose|j: int| 0 <= j < i && ks.take(i)[j] == ks[i];
        assert(ks[j] < ks[i]);
    }
    assert(ks.take(i + 1) =~= ks.take(i).push(ks[i]));
    assert forall|k: u64| #[trigger] ks.take(i + 1).contains(k) <==> (ks.take(i).contains(k) || k == ks[i]) by {
        if ks.take(i).contains(k) {
            let j = choose|j: int| 0 <= j < i && ks.take(i)[j] == k;
            assert(ks.take(i + 1)[j] == k);
        }
        if k == ks[i] {
            assert(ks.take(i + 1)[i] == k);
        }
    }
}

/// What `concat_buckets` holds: each entry comes from the bucket of one of
/// the listed deadlines, and every timer of a listed deadline is there.
proof fn lemma_concat_buckets_members<W>(m: Map<u64, Seq<(usize, W)>>, ks: Seq<u64>)
    ensures
        forall|i: int|
            0 <= i < concat_buckets(m, ks).len() ==> {
                let e = #[trigger] concat_buckets(m, ks)[i];
                &&& ks.contains(e.0)
                &&& m[e.0].contains((e.1, e.2))
            },
        forall|k: u64, t: (usize, W)|
            ks.contains(k) && #[trigger] m[k].contains(t) ==> concat_buckets(m, ks).contains(
                (k, t.0, t.1),
            ),
    decreases ks.len(),
{
    if ks.len() > 0 {
        let front = ks.drop_last();
        let last = ks.last();
        lemma_concat_buckets_members(m, front);
        let a = concat_buckets(m, front);
        let b = tagged(last, m[last]);
        assert(concat_buckets(m, ks) == a + b);
        assert forall|i: int| 0 <= i < concat_buckets(m, ks).len() implies {
            let e = #[trigger] concat_buckets(m, ks)[i];
            &&& ks.contains(e.0)
            &&& m[e.0].contains((e.1, e.2))
        } by {
            if i < a.len() {
                let e = a[i];
                assert(concat_buckets(m, ks)[i] == e);
                let j = choose|j: int| 0 <= j < front.len() && front[j] == e.0;
                assert(ks[j] == e.0);
            } else {
                let t = m[last][i - a.len()];
                assert(concat_buckets(m, ks)[i] == (last, t.0, t.1));
                assert(ks[ks.len() - 1] == last);
                assert(m[last][i - a.len()] == t);
            }
        }
        assert forall|k: u64, t: (usize, W)|
            ks.contains(k) && #[trigger] m[k].contains(t) implies concat_buckets(m, ks).contains(
            (k, t.0, t.1),
        ) by {
            if k == last {
                let n = choose|n: int| 0 <= n < m[k].len() && m[k][n] == t;
                assert((a + b)[a.len() + n] == (k, t.0, t.1));
            } else {
                let j = choose|j: int| 0 <= j < ks.len() && ks[j] == k;
                assert(front[j] == k);
                assert(front.contains(k));
                let n = choose|n: int| 0 <= n < a.len() && a[n] == (k, t.0, t.1);
                assert((a + b)[n] == (k, t.0, t.1));
            }
        }
    }
}

/// Deadlines in `concat_buckets` never decrease when the listed deadlines increase.
proof fn lemma_concat_buckets_sorted<W>(m: Map<u64, Seq<(usize, W)>>, ks: Seq<u64>)
    requires
        strictly_increasing(ks),
    ensures
        forall|i: int, j: int|
            0 <= i < j < concat_buckets(m, ks).len() ==> #[trigger] concat_buckets(m, ks)[i].0
                <= #[trigger] concat_buckets(m, ks)[j].0,
    decreases ks.len(),
{
    if ks.len() > 0 {
        let front = ks.drop_last();
        let last = ks.last();
        lemma_concat_buckets_sorted(m, front);
        lemma_concat_buckets_members(m, front);
        let a = concat_buckets(m, front);
        let b = tagged(last, m[last]);
        assert(concat_buckets(m, ks) == a + b);
        assert forall|i: int, j: int|
            0 <= i < j < concat_buckets(m, ks).len() implies #[trigger] concat_buckets(
            m,
            ks,
        )[i].0 <= #[trigger] concat_buckets(m, ks)[j].0 by {
            let r = concat_buckets(m, ks);
            if j < a.len() {
                assert(r[i] == a[i] && r[j] == a[j]);
            } else if i < a.len() {
                assert(r[i] == a[i]);
                let e = a[i];
                let n = choose|n: int| 0 <= n < front.len() && front[n] == e.0;
                assert(ks[n] == e.0);
                assert(ks[n] < ks[ks.len() - 1]);
                assert(r[j] == b[j - a.len()]);
            } else {
                assert(r[i] == b[i - a.len()] && r[j] == b[j - a.len()]);
            }
        }
    }
}

/// Two strictly increasing sequences that hold the same deadlines are equal.
proof fn lemma_sorted_unique(s1: Seq<u64>, s2: Seq<u64>)
    requires
        strictly_increasing(s1),
        strictly_increasing(s2),
        s1.to_set() == s2.to_set(),
    ensures
        s1 == s2,
    decreases s1.len(),
{
    if s1.len() == 0 {
        if s2.len() > 0 {
            assert(s2.to_set().contains(s2[0]));
        }
    } else {
        if s2.len() == 0 {
            assert(s1.to_set().contains(s1[0]));
        } else {
            let l1 = s1.last();
            let l2 = s2.last();
            assert(s1.to_set().contains(l1));
            assert(s2.to_set().contains(l2));
            assert(s2.contains(l1));
            assert(s1.contains(l2));
            let a = choose|a: int| 0 <= a < s2.len() && s2[a] == l1;
            let b = choose|b: int| 0 <= b < s1.len() && s1[b] == l2;
            assert(l1 <= l2) by {
                if a < s2.len() - 1 {
                    assert(s2[a] < s2[s2.len() - 1]);
                }
            }
            assert(l2 <= l1) by {
                if b < s1.len() - 1 {
                    assert(s1[b] < s1[s1.len() - 1]);
                }
            }
            let f1 = s1.drop_last();
            let f2 = s2.drop_last();
            assert forall|k: u64| f1.contains(k) <==> f2.contains(k) by {
                if f1.contains(k) {
                    let n = choose|n: int| 0 <= n < f1.len() && f1[n] == k;
                    assert(s1[n] == k && k < l1);
                    assert(s1.to_set().contains(k));
                    let p = choose|p: int| 0 <= p < s2.len() && s2[p] == k;
                    assert(p != s2.len() - 1);
                    assert(f2[p] == k);
                }
                if f2.contains(k) {
                    let n = choose|n: int| 0 <= n < f2.len() && f2[n] == k;
                    assert(s2[n] == k && k < l2);
                    assert(s2.to_set().contains(k));
                    let p = choose|p: int| 0 <= p < s1.len() && s1[p] == k;
                    assert(p != s1.len() - 1);
                    assert(f1[p] == k);
                }
            }
            assert(f1.to_set() =~= f2.to_set());
            lemma_sorted_unique(f1, f2);
            assert(s1 =~= f1.push(l1));
            assert(s2 =~= f2.push(l2));
        }
    }
}

/// Expiry is deterministic: one queue and one moment admit exactly one list
/// of expired timers.
pub proof fn lemma_expiry_is_deterministic<W>(
    m: Map<u64, Seq<(usize, W)>>,
    now: u64,
    r1: Seq<(u64, usize, W)>,
    r2: Seq<(u64, usize, W)>,
)
    requires
        expired_in_order(m, now, r1),
        expired_in_order(m, now, r2),
    ensures
        r1 == r2,
{
    let ks1 = choose|ks: Seq<u64>|
        {
            &&& strictly_increasing(ks)
            &&& ks.to_set() == due(m, now)
            &&& #[trigger] concat_buckets(m, ks) == r1
        };
    let ks2 = choose|ks: Seq<u64>|
        {
            &&& strictly_increasing(ks)
            &&& ks.to_set() == due(m, now)
            &&& #[trigger] concat_buckets(m, ks) == r2
        };
    lemma_sorted_unique(ks1, ks2);
}

/// Expired timers come out earliest deadline first, every one of them was
/// due, and every timer that was due comes out.
pub proof fn lemma_expiry_exact<W>(m: Map<u64, Seq<(usize, W)>>, now: u64, r: Seq<(u64, usize, W)>)
    requires
        expired_in_order(m, now, r),
    ensures
        forall|i: int, j: int| 0 <= i < j < r.len() ==> #[trigger] r[i].0 <= #[trigger] r[j].0,
        forall|i: int|
            0 <= i < r.len() ==> {
                let e = #[trigger] r[i];
                &&& e.0 <= now
                &&& m.contains_key(e.0)
                &&& m[e.0].contains((e.1, e.2))
            },
        forall|k: u64, t: (usize, W)|
            m.contains_key(k) && k <= now && #[trigger] m[k].contains(t) ==> r.contains(
                (k, t.0, t.1),
            ),
{
    let ks = choose|ks: Seq<u64>|
        {
            &&& strictly_increasing(ks)
            &&& ks.to_set() == due(m, now)
            &&& #[trigger] concat_buckets(m, ks) == r
        };
    lemma_concat_buckets_members(m, ks);
    lemma_concat_buckets_sorted(m, ks);
    assert forall|i: int| 0 <= i < r.len() implies {
        let e = #[trigger] r[i];
        &&& e.0 <= now
        &&& m.contains_key(e.0)
        &&& m[e.0].contains((e.1, e.2))
    } by {
        let e = r[i];
        assert(concat_buckets(m, ks)[i] == e);
        assert(ks.to_set().contains(e.0));
    }
    assert forall|k: u64, t: (usize, W)|
        m.contains_key(k) && k <= now && #[trigger] m[k].contains(t) implies r.contains(
        (k, t.0, t.1),
    ) by {
        assert(due(m, now).contains(k));
        assert(ks.to_set().contains(k));
    }
}

} // verus!

verus! {

/// Dropping the timers of one identifier from a bucket where none has it
/// leaves the bucket as it was.
proof fn lemma_others_unchanged<W>(b: Seq<(usize, W)>, id: usize)
    requires
        forall|i: int| 0 <= i < b.len() ==> #[trigger] b[i].0 != id,
    ensures
        others(b, id) == b,
    decreases b.len(),
{
    reveal(Seq::filter);
    if b.len() > 0 {
        lemma_others_unchanged(b.drop_last(), id);
        assert(b.drop_last().push(b.last()) =~= b);
    }
}

/// Dropping timer `id` also drops one more timer `id` appended at the end.
proof fn lemma_others_push<W>(b: Seq<(usize, W)>, id: usize, waker: W)
    ensures
        others(b.push((id, waker)), id) == others(b, id),
{
    reveal(Seq::filter);
    assert(b.push((id, waker)).drop_last() =~= b);
}

/// The timers of one deadline come out in the order they were registered:
/// the expired timers tagged with a due deadline `k` are exactly the timers
/// of `k`, in their order.
pub proof fn lemma_expiry_keeps_registration_order<W>(
    m: Map<u64, Seq<(usize, W)>>,
    now: u64,
    r: Seq<(u64, usize, W)>,
    k: u64,
)
    requires
        expired_in_order(m, now, r),
        m.contains_key(k),
        k <= now,
    ensures
        r.filter(|e: (u64, usize, W)| e.0 == k) == tagged(k, m[k]),
{
    let ks = choose|ks: Seq<u64>|
        {
            &&& strictly_increasing(ks)
            &&& ks.to_set() == due(m, now)
            &&& #[trigger] concat_buckets(m, ks) == r
        };
    assert(due(m, now).contains(k));
    assert(ks.to_set().contains(k));
    lemma_concat_filter(m, ks, k);
}

/// Filtering `concat_buckets` by one listed deadline gives that deadline's timers.
proof fn lemma_concat_filter<W>(m: Map<u64, Seq<(usize, W)>>, ks: Seq<u64>, k: u64)
    requires
        strictly_increasing(ks),
    ensures
        concat_buckets(m, ks).filter(|e: (u64, usize, W)| e.0 == k) == if ks.contains(k) {
            tagged(k, m[k])
        } else {
            Seq::empty()
        },
    decreases ks.len(),
{
    let pred = |e: (u64, usize, W)| e.0 == k;
    if ks.len() == 0 {
        reveal(Seq::filter);
    } else {
        let front = ks.drop_last();
        let last = ks.last();
        assert(strictly_increasing(front));
        lemma_concat_filter(m, front, k);
        Seq::filter_distributes_over_add(concat_buckets(m, front), tagged(last, m[last]), pred);
        lemma_tagged_filter(last, m[last], k);
        if last == k {
            assert(!front.contains(k)) by {
                if front.contains(k) {
                    let j = choose|j: int| 0 <= j < front.len() && front[j] == k;
                    assert(ks[j] < ks[ks.len() - 1]);
                }
            }
            assert(ks[ks.len() - 1] == k);
            assert(Seq::<(u64, usize, W)>::empty() + tagged(k, m[k]) =~= tagged(k, m[k]));
        } else {
            assert(ks.contains(k) == front.contains(k)) by {
                if ks.contains(k) {
                    let j = choose|j: int| 0 <= j < ks.len() && ks[j] == k;
                    assert(j != ks.len() - 1);
                    assert(front[j] == k);
                }
                if front.contains(k) {
                    let j = choose|j: int| 0 <= j < front.len() && front[j] == k;
                    assert(ks[j] == k);
                }
            }
            let x = concat_buckets(m, front).filter(pred);
            assert(x + Seq::<(u64, usize, W)>::empty() =~= x);
        }
    }
}

/// Filtering a tagged bucket by its own deadline keeps it whole, by another
/// deadline empties it.
proof fn lemma_tagged_filter<W>(d: u64, b: Seq<(usize, W)>, k: u64)
    ensures
        tagged(d, b).filter(|e: (u64, usize, W)| e.0 == k) == if d == k {
            tagged(d, b)
        } else {
            Seq::empty()
        },
    decreases b.len(),
{
    reveal(Seq::filter);
    if b.len() > 0 {
        lemma_tagged_filter(d, b.drop_last(), k);
        assert(tagged(d, b).drop_last() =~= tagged(d, b.drop_last()));
        if d == k {
            assert(tagged(d, b.drop_last()).push(tagged(d, b).last()) =~= tagged(d, b));
        }
    }
}

/// A timer registered at `deadline` is among the expired timers of every
/// moment at or after its deadline, and still pending before it.
pub proof fn lemma_registered_timer_expires<W>(
    m: Map<u64, Seq<(usize, W)>>,
    deadline: u64,
    id: usize,
    waker: W,
    now: u64,
    r: Seq<(u64, usize, W)>,
)
    requires
        expired_in_order(with_timer(m, deadline, id, waker), now, r),
    ensures
        deadline <= now ==> r.contains((deadline, id, waker)),
        deadline > now ==> pending_after(with_timer(m, deadline, id, waker), now)[deadline].last()
            == (id, waker),
{
    let m2 = with_timer(m, deadline, id, waker);
    lemma_expiry_exact(m2, now, r);
    let b = m2[deadline];
    assert(b.last() == (id, waker));
    assert(b[b.len() - 1] == (id, waker));
    assert(b.contains((id, waker)));
}

/// A cancelled timer never expires.
pub proof fn lemma_unregistered_timer_never_expires<W>(
    m: Map<u64, Seq<(usize, W)>>,
    id: usize,
    now: u64,
    r: Seq<(u64, usize, W)>,
)
    requires
        expired_in_order(without_timer(m, id), now, r),
    ensures
        forall|i: int| 0 <= i < r.len() ==> #[trigger] r[i].1 != id,
{
    let m2 = without_timer(m, id);
    lemma_expiry_exact(m2, now, r);
    assert forall|i: int| 0 <= i < r.len() implies #[trigger] r[i].1 != id by {
        let e = r[i];
        let b = m[e.0];
        assert(m2[e.0].contains((e.1, e.2)));
        let n = choose|n: int| 0 <= n < others(b, id).len() && others(b, id)[n] == (e.1, e.2);
        b.lemma_filter_pred(not_id(id), n);
    }
}

/// Cancelling a timer right after registering it, under an identifier no
/// other timer has, gives back the queue as it was.
pub proof fn lemma_unregister_undoes_register<W>(
    m: Map<u64, Seq<(usize, W)>>,
    deadline: u64,
    id: usize,
    waker: W,
)
    requires
        buckets_nonempty(m),
        !has_timer(m, id),
    ensures
        without_timer(with_timer(m, deadline, id, waker), id) == m,
{
    let m2 = with_timer(m, deadline, id, waker);
    assert forall|k: u64| m.contains_key(k) implies others(m[k], id) == m[k] by {
        assert forall|i: int| 0 <= i < m[k].len() implies #[trigger] m[k][i].0 != id by {
            if m[k][i].0 == id {
                assert(has_timer(m, id));
            }
        }
        lemma_others_unchanged(m[k], id);
    }
    lemma_others_push(bucket(m, deadline), id, waker);
    if !m.contains_key(deadline) {
        reveal(Seq::filter);
        assert(others(Seq::<(usize, W)>::empty(), id).len() == 0);
    }
    assert forall|k: u64| #[trigger] m2.contains_key(k) implies (m.contains_key(k) <==> others(
        m2[k],
        id,
    ).len() > 0) && (m.contains_key(k) ==> others(m2[k], id) == m[k]) by {
        if k == deadline {
            assert(m2[k] == bucket(m, deadline).push((id, waker)));
            if m.contains_key(k) {
                assert(bucket(m, deadline) == m[k]);
            }
        }
    }
    assert(without_timer(m2, id) =~= m);
}

} // verus!

verus! {

/// Cancelling an identifier that no pending timer carries (never registered,
/// already fired or already cancelled) leaves the queue as it was.
pub proof fn lemma_unregister_unknown_id_is_noop<W>(m: Map<u64, Seq<(usize, W)>>, id: usize)
    requires
        buckets_nonempty(m),
        !has_timer(m, id),
    ensures
        without_timer(m, id) == m,
{
    assert forall|k: u64| m.contains_key(k) implies others(m[k], id) == m[k] by {
        assert forall|i: int| 0 <= i < m[k].len() implies #[trigger] m[k][i].0 != id by {
            if m[k][i].0 == id {
                assert(has_timer(m, id));
            }
        }
        lemma_others_unchanged(m[k], id);
    }
    assert(without_timer(m, id) =~= m);
}

} // verus!
