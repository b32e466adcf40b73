use vstd::prelude::*;
use crate::timer_queue::{
    strictly_increasing, due, tagged, concat_buckets, expired_in_order, pending_after,
    lemma_expiry_is_deterministic,
};

verus! {

/// Whether a timer carries identifier `id`.
pub open spec fn with_id<W>(id: usize) -> spec_fn((usize, W)) -> bool {
    |e: (usize, W)| e.0 == id
}

/// Whether an expired entry's timer satisfies `p`.
pub open spec fn on_timer<W>(p: spec_fn((usize, W)) -> bool) -> spec_fn((u64, usize, W)) -> bool {
    |e: (u64, usize, W)| p((e.1, e.2))
}

/// The timers of `m` that satisfy `p`, dropping deadlines left without a timer.
pub open spec fn keep<W>(m: Map<u64, Seq<(usize, W)>>, p: spec_fn((usize, W)) -> bool) -> Map<
    u64,
    Seq<(usize, W)>,
> {
    Map::new(|k: u64| m.contains_key(k) && m[k].filter(p).len() > 0, |k: u64| m[k].filter(p))
}

/// Filtering by `a` and then by `b` is filtering by both.
pub proof fn lemma_filter_filter<A>(s: Seq<A>, a: spec_fn(A) -> bool, b: spec_fn(A) -> bool)
    ensures
        s.filter(a).filter(b) == s.filter(|x: A| a(x) && b(x)),
    decreases s.len(),
{
    reveal(Seq::filter);
    if s.len() > 0 {
        lemma_filter_filter(s.drop_last(), a, b);
        if a(s.last()) {
            assert(s.drop_last().filter(a).push(s.last()).drop_last() =~= s.drop_last().filter(a));
        }
    }
}

/// Filtering by predicates that agree everywhere gives the same sequence.
pub proof fn lemma_filter_same<A>(s: Seq<A>, a: spec_fn(A) -> bool, b: spec_fn(A) -> bool)
    requires
        forall|x: A| #[trigger] a(x) == b(x),
    ensures
        s.filter(a) == s.filter(b),
{
    assert(a =~= b);
}

/// Filtering empties a sequence when no element passes.
pub proof fn lemma_filter_none<A>(s: Seq<A>, a: spec_fn(A) -> bool)
    requires
        forall|i: int| 0 <= i < s.len() ==> !#[trigger] a(s[i]),
    ensures
        s.filter(a) == Seq::<A>::empty(),
    decreases s.len(),
{
    reveal(Seq::filter);
    if s.len() > 0 {
        lemma_filter_none(s.drop_last(), a);
    }
}

/// Filtering a sequence with one more element at its end.
pub proof fn lemma_filter_push<A>(s: Seq<A>, x: A, a: spec_fn(A) -> bool)
    ensures
        s.push(x).filter(a) == if a(x) {
            s.filter(a).push(x)
        } else {
            s.filter(a)
        },
{
    reveal(Seq::filter);
    assert(s.push(x).drop_last() =~= s);
}

/// Filtering tagged timers by their timer is tagging the filtered timers.
proof fn lemma_tagged_filter_timer<W>(k: u64, b: Seq<(usize, W)>, p: spec_fn((usize, W)) -> bool)
    ensures
        tagged(k, b).filter(on_timer(p)) == tagged(k, b.filter(p)),
    decreases b.len(),
{
    reveal(Seq::filter);
    if b.len() > 0 {
        lemma_tagged_filter_timer(k, b.drop_last(), p);
        assert(tagged(k, b).drop_last() =~= tagged(k, b.drop_last()));
        if p(b.last()) {
            assert(tagged(k, b.drop_last().filter(p)).push(tagged(k, b).last()) =~= tagged(
                k,
                b.drop_last().filter(p).push(b.last()),
            ));
        }
    }
}

/// Filtering keeps a strictly increasing sequence strictly increasing, and
/// keeps exactly the elements that pass.
proof fn lemma_filter_increasing(s: Seq<u64>, q: spec_fn(u64) -> bool)
    requires
        strictly_increasing(s),
    ensures
        strictly_increasing(s.filter(q)),
        forall|x: u64| #[trigger] s.filter(q).contains(x) <==> (s.contains(x) && q(x)),
    decreases s.len(),
{
    reveal(Seq::filter);
    if s.len() > 0 {
        let front = s.drop_last();
        lemma_filter_increasing(front, q);
        let f = front.filter(q);
        assert forall|x: u64| #[trigger] s.contains(x) <==> (front.contains(x) || x == s.last()) by {
            if s.contains(x) {
                let n = choose|n: int| 0 <= n < s.len() && s[n] == x;
                if n < s.len() - 1 {
                    assert(front[n] == x);
                }
            }
            if front.contains(x) {
                let n = choose|n: int| 0 <= n < front.len() && front[n] == x;
                assert(s[n] == x);
            }
            if x == s.last() {
                assert(s[s.len() - 1] == x);
            }
        }
        if q(s.last()) {
            let g = f.push(s.last());
            assert forall|x: u64| #[trigger] g.contains(x) <==> (f.contains(x) || x == s.last()) by {
                if g.contains(x) {
                    let n = choose|n: int| 0 <= n < g.len() && g[n] == x;
                    if n < f.len() {
                        assert(f[n] == x);
                    }
                }
                if f.contains(x) {
                    let n = choose|n: int| 0 <= n < f.len() && f[n] == x;
                    assert(g[n] == x);
                }
                if x == s.last() {
                    assert(g[g.len() - 1] == x);
                }
            }
            assert forall|i: int, j: int| 0 <= i < j < g.len() implies g[i] < g[j] by {
                if j == g.len() - 1 {
                    assert(f.contains(g[i]));
                    let n = choose|n: int| 0 <= n < front.len() && front[n] == g[i];
                    assert(s[n] < s[s.len() - 1]);
                }
            }
        }
    }
}

/// The deadlines of `ks` whose timers satisfying `p` are not all gone.
pub open spec fn live_deadlines<W>(
    m: Map<u64, Seq<(usize, W)>>,
    p: spec_fn((usize, W)) -> bool,
) -> spec_fn(u64) -> bool {
    |k: u64| m[k].filter(p).len() > 0
}

/// Concatenating the kept buckets is filtering the concatenated buckets.
proof fn lemma_concat_keep<W>(
    m: Map<u64, Seq<(usize, W)>>,
    ks: Seq<u64>,
    p: spec_fn((usize, W)) -> bool,
)
    requires
        forall|i: int| 0 <= i < ks.len() ==> m.contains_key(#[trigger] ks[i]),
    ensures
        concat_buckets(keep(m, p), ks.filter(live_deadlines(m, p))) == concat_buckets(
            m,
            ks,
        ).filter(on_timer(p)),
    decreases ks.len(),
{
    let q = live_deadlines(m, p);
    if ks.len() == 0 {
        reveal(Seq::filter);
    } else {
        let front = ks.drop_last();
        let last = ks.last();
        assert forall|i: int| 0 <= i < front.len() implies m.contains_key(#[trigger] front[i]) by {
            assert(front[i] == ks[i]);
        }
        lemma_concat_keep(m, front, p);
        Seq::filter_distributes_over_add(concat_buckets(m, front), tagged(last, m[last]), on_timer(p));
        lemma_tagged_filter_timer(last, m[last], p);
        assert(ks.drop_last().push(last) =~= ks);
        lemma_filter_push(front, last, q);
        assert(m.contains_key(ks[ks.len() - 1]));
        let kf = front.filter(q);
        if q(last) {
            assert(kf.push(last).drop_last() =~= kf);
            assert(keep(m, p)[last] == m[last].filter(p));
        } else {
            assert(m[last].filter(p).len() == 0);
            assert(tagged(last, m[last].filter(p)) =~= Seq::<(u64, usize, W)>::empty());
            let c = concat_buckets(keep(m, p), kf);
            assert(c + Seq::<(u64, usize, W)>::empty() =~= c);
        }
    }
}

/// Expiring the kept timers gives the expired timers that are kept.
pub proof fn lemma_expiry_keep<W>(
    m: Map<u64, Seq<(usize, W)>>,
    now: u64,
    r: Seq<(u64, usize, W)>,
    p: spec_fn((usize, W)) -> bool,
)
    requires
        expired_in_order(m, now, r),
    ensures
        expired_in_order(keep(m, p), now, r.filter(on_timer(p))),
{
    let ks = choose|ks: Seq<u64>|
        {
            &&& strictly_increasing(ks)
            &&& ks.to_set() == due(m, now)
            &&& #[trigger] concat_buckets(m, ks) == r
        };
    let q = live_deadlines(m, p);
    assert forall|i: int| 0 <= i < ks.len() implies m.contains_key(#[trigger] ks[i]) by {
        assert(ks.to_set().contains(ks[i]));
    }
    lemma_concat_keep(m, ks, p);
    lemma_filter_increasing(ks, q);
    let ks2 = ks.filter(q);
    assert forall|k: u64| ks2.to_set().contains(k) <==> due(keep(m, p), now).contains(k) by {
        assert(ks2.to_set().contains(k) == ks2.contains(k));
        assert(ks.to_set().contains(k) == ks.contains(k));
    }
    assert(ks2.to_set() =~= due(keep(m, p), now));
    assert(concat_buckets(keep(m, p), ks2) == r.filter(on_timer(p)));
}

/// What expires from a queue of no timer, or of one deadline's timers.
pub proof fn lemma_expiry_small<W>(t: u64, b: Seq<(usize, W)>, now: u64, r: Seq<(u64, usize, W)>)
    ensures
        expired_in_order(Map::<u64, Seq<(usize, W)>>::empty(), now, r) ==> r == Seq::<
            (u64, usize, W),
        >::empty(),
        expired_in_order(Map::<u64, Seq<(usize, W)>>::empty().insert(t, b), now, r) ==> r == if t
            <= now {
            tagged(t, b)
        } else {
            Seq::empty()
        },
{
    let e = Map::<u64, Seq<(usize, W)>>::empty();
    let none = Seq::<u64>::empty();
    if expired_in_order(e, now, r) {
        assert(none.to_set() =~= due(e, now));
        assert(concat_buckets(e, none) == Seq::<(u64, usize, W)>::empty());
        lemma_expiry_is_deterministic(e, now, r, Seq::empty());
    }
    let one = e.insert(t, b);
    if expired_in_order(one, now, r) {
        if t <= now {
            let ks = seq![t];
            assert forall|k: u64| ks.contains(k) <==> k == t by {
                if k == t {
                    assert(ks[0] == t);
                }
            }
            assert forall|k: u64| ks.to_set().contains(k) <==> due(one, now).contains(k) by {
                assert(ks.to_set().contains(k) == ks.contains(k));
            }
            assert(ks.to_set() =~= due(one, now));
            assert(ks.drop_last() =~= none);
            assert(ks.last() == t);
            assert(concat_buckets(one, none) == Seq::<(u64, usize, W)>::empty());
            assert(concat_buckets(one, ks) == concat_buckets(one, none) + tagged(t, one[t]));
            assert(Seq::<(u64, usize, W)>::empty() + tagged(t, b) =~= tagged(t, b));
            lemma_expiry_is_deterministic(one, now, r, tagged(t, b));
        } else {
            assert(none.to_set() =~= due(one, now));
            assert(concat_buckets(one, none) == Seq::<(u64, usize, W)>::empty());
            assert(expired_in_order(one, now, Seq::<(u64, usize, W)>::empty()));
            lemma_expiry_is_deterministic(one, now, r, Seq::empty());
        }
    }
}

} // verus!

verus! {

/// Keeping timers commutes with dropping the deadlines not yet due.
pub proof fn lemma_keep_pending<W>(m: Map<u64, Seq<(usize, W)>>, now: u64, p: spec_fn((usize, W)) -> bool)
    ensures
        keep(pending_after(m, now), p) == pending_after(keep(m, p), now),
{
    assert(keep(pending_after(m, now), p) =~= pending_after(keep(m, p), now));
}

} // verus!
