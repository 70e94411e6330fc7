//! The abstract model of the queue and the ordering guarantees it gives.
//!
//! A queue is modelled as a finite map from each priority with pending
//! payloads to the sequence of those payloads, front of the tier first.
//! [`pending`] flattens such a model into the sequence of pairs the
//! queue will hand out, highest priority first and front of each tier
//! first; the lemmas here state that this sequence descends by priority
//! and lists each tier in its own order.

use vstd::prelude::*;

verus! {

/// Whether `p` is the highest priority present in `dom`.
pub open spec fn is_max_prio(dom: Set<u64>, p: u64) -> bool {
    dom.contains(p) && forall|q: u64| dom.contains(q) ==> q <= p
}

/// The highest priority present in `dom`; meaningful for a finite,
/// non-empty `dom`, where [`lemma_max_prio`] shows it exists.
pub open spec fn max_prio(dom: Set<u64>) -> u64 {
    choose|p: u64| is_max_prio(dom, p)
}

/// Two highest priorities of one domain are the same priority.
pub proof fn lemma_max_prio_unique(dom: Set<u64>, p1: u64, p2: u64)
    requires
        is_max_prio(dom, p1),
        is_max_prio(dom, p2),
    ensures
        p1 == p2,
{
}

/// Every finite, non-empty set of priorities has a highest one.
pub proof fn lemma_max_prio(dom: Set<u64>)
    requires
        dom.finite(),
        !dom.is_empty(),
    ensures
        is_max_prio(dom, max_prio(dom)),
    decreases dom.len(),
{
    assert(exists|x: u64| dom.contains(x));
    let x = dom.choose();
    let rest = dom.remove(x);
    if rest.is_empty() {
        assert forall|q: u64| dom.contains(q) implies q <= x by {
            if q != x {
                assert(rest.contains(q));
            }
        }
        assert(is_max_prio(dom, x));
    } else {
        lemma_max_prio(rest);
        let m = max_prio(rest);
        if m <= x {
            assert forall|q: u64| dom.contains(q) implies q <= x by {
                if q != x {
                    assert(rest.contains(q));
                }
            }
            assert(is_max_prio(dom, x));
        } else {
            assert forall|q: u64| dom.contains(q) implies q <= m by {
                if q != x {
                    assert(rest.contains(q));
                }
            }
            assert(is_max_prio(dom, m));
        }
    }
}

/// Whether a map is a possible queue model: finitely many priorities,
/// and no priority present without a pending payload.
pub open spec fn valid_model<T>(m: Map<u64, Seq<T>>) -> bool {
    m.dom().finite() && forall|p: u64| m.dom().contains(p) ==> (#[trigger] m[p]).len() > 0
}

/// The model after inserting `e` at priority `p`: appended to the tier
/// already at `p`, or opening a fresh one-payload tier.
pub open spec fn model_insert<T>(m: Map<u64, Seq<T>>, p: u64, e: T) -> Map<u64, Seq<T>> {
    if m.dom().contains(p) {
        m.insert(p, m[p].push(e))
    } else {
        m.insert(p, seq![e])
    }
}

/// The model after popping: the front payload of the highest-priority
/// tier leaves, and a tier emptied by that leaves with its priority.
pub open spec fn model_pop<T>(m: Map<u64, Seq<T>>) -> Map<u64, Seq<T>>
    recommends
        !m.dom().is_empty(),
{
    let p = max_prio(m.dom());
    if m[p].len() <= 1 {
        m.remove(p)
    } else {
        m.insert(p, m[p].skip(1))
    }
}

/// The front payload of the highest-priority tier of a model: the next
/// payload a pop hands out.
pub open spec fn model_front<T>(m: Map<u64, Seq<T>>) -> T
    recommends
        !m.dom().is_empty(),
{
    m[max_prio(m.dom())][0]
}

/// Inserting keeps the model valid.
pub proof fn lemma_model_insert_valid<T>(m: Map<u64, Seq<T>>, p: u64, e: T)
    requires
        valid_model(m),
    ensures
        valid_model(model_insert(m, p, e)),
{
}

/// Popping keeps the model valid.
pub proof fn lemma_model_pop_valid<T>(m: Map<u64, Seq<T>>)
    requires
        valid_model(m),
        !m.dom().is_empty(),
    ensures
        valid_model(model_pop(m)),
{
    lemma_max_prio(m.dom());
}

/// Removing a priority keeps the model valid.
pub proof fn lemma_model_remove_valid<T>(m: Map<u64, Seq<T>>, p: u64)
    requires
        valid_model(m),
    ensures
        valid_model(m.remove(p)),
{
    assert forall|q: u64| m.remove(p).dom().contains(q) implies (#[trigger] m.remove(p)[q]).len()
        > 0 by {
        assert(m.remove(p)[q] == m[q]);
    }
}

/// The sequence of (priority, payload) pairs a queue will hand out, in
/// the order it will hand them out: the highest-priority tier first,
/// each tier front first.
pub open spec fn pending<T>(m: Map<u64, Seq<T>>) -> Seq<(u64, T)>
    recommends
        valid_model(m),
    decreases m.dom().len(),
    via pending_decreases::<T>
{
    if !m.dom().finite() || m.dom().is_empty() {
        Seq::empty()
    } else {
        let p = max_prio(m.dom());
        m[p].map_values(|e: T| (p, e)) + pending(m.remove(p))
    }
}

#[via_fn]
proof fn pending_decreases<T>(m: Map<u64, Seq<T>>) {
    if m.dom().finite() && !m.dom().is_empty() {
        lemma_max_prio(m.dom());
    }
}

/// One step of `pending` on a non-empty model: the highest tier's pairs
/// stand in front, the pending pairs of the model without that tier
/// follow.
proof fn lemma_pending_unfold<T>(m: Map<u64, Seq<T>>)
    requires
        m.dom().finite(),
        !m.dom().is_empty(),
    ensures
        ({
            let p = max_prio(m.dom());
            let rest = pending(m.remove(p));
            &&& pending(m).len() == m[p].len() + rest.len()
            &&& forall|k: int| 0 <= k < m[p].len() ==> pending(m)[k] == (p, m[p][k])
            &&& forall|k: int|
                m[p].len() <= k < pending(m).len() ==> pending(m)[k] == rest[k - m[p].len()]
        }),
{
    lemma_max_prio(m.dom());
}

/// Every priority `pending` lists is present in the model.
proof fn lemma_pending_prios_in_dom<T>(m: Map<u64, Seq<T>>)
    requires
        valid_model(m),
    ensures
        forall|k: int| 0 <= k < pending(m).len() ==> m.dom().contains(
            #[trigger] pending(m)[k].0,
        ),
    decreases m.dom().len(),
{
    if !m.dom().is_empty() {
        let p = max_prio(m.dom());
        lemma_max_prio(m.dom());
        lemma_model_remove_valid(m, p);
        lemma_pending_unfold(m);
        lemma_pending_prios_in_dom(m.remove(p));
        assert forall|k: int| 0 <= k < pending(m).len() implies m.dom().contains(
            #[trigger] pending(m)[k].0,
        ) by {
            if k >= m[p].len() {
                assert(pending(m)[k] == pending(m.remove(p))[k - m[p].len()]);
                assert(m.remove(p).dom().contains(pending(m)[k].0));
            }
        }
    }
}

/// Pop order never ascends: wherever one pending pair stands before
/// another, its priority is at least the other's.
pub proof fn lemma_pending_sorted<T>(m: Map<u64, Seq<T>>)
    requires
        valid_model(m),
    ensures
        forall|k1: int, k2: int|
            0 <= k1 < k2 < pending(m).len() ==> (#[trigger] pending(m)[k1]).0 >= (
            #[trigger] pending(m)[k2]).0,
    decreases m.dom().len(),
{
    if !m.dom().is_empty() {
        let p = max_prio(m.dom());
        lemma_max_prio(m.dom());
        lemma_model_remove_valid(m, p);
        lemma_pending_unfold(m);
        lemma_pending_sorted(m.remove(p));
        lemma_pending_prios_in_dom(m.remove(p));
        let rest = pending(m.remove(p));
        assert forall|k1: int, k2: int|
            0 <= k1 < k2 < pending(m).len() implies (#[trigger] pending(m)[k1]).0 >= (
        #[trigger] pending(m)[k2]).0 by {
            if k1 < m[p].len() {
                assert(pending(m)[k1].0 == p);
                if k2 < m[p].len() {
                    assert(pending(m)[k2].0 == p);
                } else {
                    assert(pending(m)[k2] == rest[k2 - m[p].len()]);
                    assert(m.remove(p).dom().contains(pending(m)[k2].0));
                    assert(m.dom().contains(pending(m)[k2].0));
                }
            } else {
                assert(pending(m)[k1] == rest[k1 - m[p].len()]);
                assert(pending(m)[k2] == rest[k2 - m[p].len()]);
            }
        }
    }
}

/// Pop order descends strictly when every tier holds a single payload,
/// that is, when all pending priorities are distinct.
pub proof fn lemma_pending_strictly_sorted<T>(m: Map<u64, Seq<T>>)
    requires
        valid_model(m),
        forall|p: u64| m.dom().contains(p) ==> (#[trigger] m[p]).len() == 1,
    ensures
        forall|k1: int, k2: int|
            0 <= k1 < k2 < pending(m).len() ==> (#[trigger] pending(m)[k1]).0 > (
            #[trigger] pending(m)[k2]).0,
    decreases m.dom().len(),
{
    if !m.dom().is_empty() {
        let p = max_prio(m.dom());
        lemma_max_prio(m.dom());
        lemma_model_remove_valid(m, p);
        lemma_pending_unfold(m);
        assert forall|q: u64| m.remove(p).dom().contains(q) implies (#[trigger] m.remove(p)[
        q]).len() == 1 by {
            assert(m.remove(p)[q] == m[q]);
        }
        lemma_pending_strictly_sorted(m.remove(p));
        lemma_pending_prios_in_dom(m.remove(p));
        let rest = pending(m.remove(p));
        assert forall|k1: int, k2: int|
            0 <= k1 < k2 < pending(m).len() implies (#[trigger] pending(m)[k1]).0 > (
        #[trigger] pending(m)[k2]).0 by {
            assert(m[p].len() == 1);
            if k1 < m[p].len() {
                assert(pending(m)[k1].0 == p);
                assert(pending(m)[k2] == rest[k2 - m[p].len()]);
                assert(m.remove(p).dom().contains(pending(m)[k2].0));
                assert(m.dom().contains(pending(m)[k2].0));
                assert(pending(m)[k2].0 != p);
            } else {
                assert(pending(m)[k1] == rest[k1 - m[p].len()]);
                assert(pending(m)[k2] == rest[k2 - m[p].len()]);
            }
        }
    }
}

/// A model has no pending pair exactly when it has no priority present.
pub proof fn lemma_pending_empty<T>(m: Map<u64, Seq<T>>)
    requires
        valid_model(m),
    ensures
        pending(m).len() == 0 <==> m.dom().is_empty(),
{
    if !m.dom().is_empty() {
        lemma_max_prio(m.dom());
        lemma_pending_unfold(m);
    }
}

/// The payloads a pending sequence lists at priority `p`, in the order
/// it lists them.
pub open spec fn tier<T>(v: Seq<(u64, T)>, p: u64) -> Seq<T>
    decreases v.len(),
{
    if v.len() == 0 {
        Seq::empty()
    } else if v[0].0 == p {
        seq![v[0].1] + tier(v.skip(1), p)
    } else {
        tier(v.skip(1), p)
    }
}

/// Skipping a prefix of pairs that all carry priority `p` takes that
/// prefix off the front of the tier at `p`.
proof fn lemma_tier_prefix_same<T>(v: Seq<(u64, T)>, n: int, p: u64)
    requires
        0 <= n <= v.len(),
        forall|k: int| 0 <= k < n ==> (#[trigger] v[k]).0 == p,
    ensures
        tier(v, p).len() == n + tier(v.skip(n), p).len(),
        forall|k: int| 0 <= k < n ==> tier(v, p)[k] == (#[trigger] v[k]).1,
        forall|k: int|
            n <= k < tier(v, p).len() ==> #[trigger] tier(v, p)[k] == tier(v.skip(n), p)[k - n],
    decreases n,
{
    if n == 0 {
        assert(v.skip(0) =~= v);
    } else {
        assert(v[0].0 == p);
        lemma_tier_prefix_same(v.skip(1), n - 1, p);
        assert(v.skip(1).skip(n - 1) =~= v.skip(n));
        assert forall|k: int| 0 <= k < n implies tier(v, p)[k] == (#[trigger] v[k]).1 by {
            if k > 0 {
                assert(tier(v, p)[k] == tier(v.skip(1), p)[k - 1]);
                assert(v.skip(1)[k - 1] == v[k]);
            }
        }
    }
}

/// Skipping a prefix of pairs that all carry another priority leaves
/// the tier at `p` unchanged.
proof fn lemma_tier_prefix_diff<T>(v: Seq<(u64, T)>, n: int, p: u64)
    requires
        0 <= n <= v.len(),
        forall|k: int| 0 <= k < n ==> (#[trigger] v[k]).0 != p,
    ensures
        tier(v, p) == tier(v.skip(n), p),
    decreases n,
{
    if n == 0 {
        assert(v.skip(0) =~= v);
    } else {
        assert(v[0].0 != p);
        lemma_tier_prefix_diff(v.skip(1), n - 1, p);
        assert(v.skip(1).skip(n - 1) =~= v.skip(n));
    }
}

/// First in, first out within a tier: the pending payloads at one
/// priority are exactly that priority's tier in the model, in the
/// tier's own order — the order they were inserted in.
pub proof fn lemma_pending_tier<T>(m: Map<u64, Seq<T>>, p: u64)
    requires
        valid_model(m),
    ensures
        tier(pending(m), p) == (if m.dom().contains(p) {
            m[p]
        } else {
            Seq::<T>::empty()
        }),
    decreases m.dom().len(),
{
    if m.dom().is_empty() {
        assert(!m.dom().contains(p));
    } else {
        let q = max_prio(m.dom());
        lemma_max_prio(m.dom());
        lemma_model_remove_valid(m, q);
        lemma_pending_unfold(m);
        lemma_pending_tier(m.remove(q), p);
        let v = pending(m);
        let n = m[q].len() as int;
        let rest = pending(m.remove(q));
        assert(v.skip(n) =~= rest);
        if p == q {
            lemma_tier_prefix_same(v, n, p);
            assert(!m.remove(q).dom().contains(p));
            assert(tier(rest, p) == Seq::<T>::empty());
            assert forall|k: int| 0 <= k < n implies tier(v, p)[k] == m[p][k] by {
                assert(v[k] == (q, m[q][k]));
                assert(tier(v, p)[k] == v[k].1);
            }
            assert(tier(v, p) =~= m[p]);
        } else {
            lemma_tier_prefix_diff(v, n, p);
            assert(m.remove(q).dom().contains(p) <==> m.dom().contains(p));
            if m.dom().contains(p) {
                assert(m.remove(q)[p] == m[p]);
            }
        }
    }
}

/// How many of the listed pairs carry a priority of at least `p`.
pub open spec fn count_at_least<T>(v: Seq<(u64, T)>, p: u64) -> int
    decreases v.len(),
{
    if v.len() == 0 {
        0
    } else {
        (if v[0].0 >= p {
            1int
        } else {
            0int
        }) + count_at_least(v.skip(1), p)
    }
}

/// A prefix of pairs that all carry at least `p` counts fully.
proof fn lemma_count_prefix_ge<T>(v: Seq<(u64, T)>, n: int, p: u64)
    requires
        0 <= n <= v.len(),
        forall|k: int| 0 <= k < n ==> (#[trigger] v[k]).0 >= p,
    ensures
        count_at_least(v, p) == n + count_at_least(v.skip(n), p),
    decreases n,
{
    if n == 0 {
        assert(v.skip(0) =~= v);
    } else {
        assert(v[0].0 >= p);
        lemma_count_prefix_ge(v.skip(1), n - 1, p);
        assert(v.skip(1).skip(n - 1) =~= v.skip(n));
    }
}

/// A prefix of pairs that all carry less than `p` counts for nothing.
proof fn lemma_count_prefix_lt<T>(v: Seq<(u64, T)>, n: int, p: u64)
    requires
        0 <= n <= v.len(),
        forall|k: int| 0 <= k < n ==> (#[trigger] v[k]).0 < p,
    ensures
        count_at_least(v, p) == count_at_least(v.skip(n), p),
    decreases n,
{
    if n == 0 {
        assert(v.skip(0) =~= v);
    } else {
        assert(v[0].0 < p);
        lemma_count_prefix_lt(v.skip(1), n - 1, p);
        assert(v.skip(1).skip(n - 1) =~= v.skip(n));
    }
}

/// No more pairs can carry at least `p` than there are pairs.
proof fn lemma_count_le_len<T>(v: Seq<(u64, T)>, p: u64)
    ensures
        0 <= count_at_least(v, p) <= v.len(),
    decreases v.len(),
{
    if v.len() > 0 {
        lemma_count_le_len(v.skip(1), p);
    }
}

/// When every listed pair carries less than `p`, none counts.
proof fn lemma_count_none<T>(v: Seq<(u64, T)>, p: u64)
    requires
        forall|k: int| 0 <= k < v.len() ==> (#[trigger] v[k]).0 < p,
    ensures
        count_at_least(v, p) == 0,
{
    lemma_count_prefix_lt(v, v.len() as int, p);
    assert(v.skip(v.len() as int) =~= Seq::<(u64, T)>::empty());
    assert(count_at_least(Seq::<(u64, T)>::empty(), p) == 0);
}

/// Inserting is a stable insertion into the pop order: the new pair
/// goes in right after every pair of at least its priority — behind
/// its own tier — and every other pair keeps its place and order.
pub proof fn lemma_pending_insert<T>(m: Map<u64, Seq<T>>, p: u64, e: T)
    requires
        valid_model(m),
    ensures
        ({
            let j = count_at_least(pending(m), p);
            pending(model_insert(m, p, e)) == pending(m).take(j) + seq![(p, e)] + pending(m).skip(
                j,
            )
        }),
    decreases m.dom().len(),
{
    let m2 = model_insert(m, p, e);
    let v = pending(m);
    let j = count_at_least(v, p);
    lemma_model_insert_valid(m, p, e);
    lemma_pending_prios_in_dom(m);
    if m.dom().is_empty() {
        assert(m2.dom() =~= Set::<u64>::empty().insert(p));
        assert(is_max_prio(m2.dom(), p));
        lemma_max_prio(m2.dom());
        lemma_max_prio_unique(m2.dom(), max_prio(m2.dom()), p);
        assert(m2.remove(p).dom() =~= Set::<u64>::empty());
        lemma_pending_unfold(m2);
        assert(v.len() == 0) by {
            lemma_pending_empty(m);
        }
        assert(j == 0);
        assert(m2[p] == seq![e]);
        assert(pending(m2).len() == 1);
        assert(pending(m2)[0] == (p, e));
        assert(pending(m2) =~= v.take(0) + seq![(p, e)] + v.skip(0));
    } else {
        let q = max_prio(m.dom());
        lemma_max_prio(m.dom());
        lemma_model_remove_valid(m, q);
        lemma_pending_unfold(m);
        lemma_pending_prios_in_dom(m.remove(q));
        let n = m[q].len() as int;
        let rest = pending(m.remove(q));
        assert(v.skip(n) =~= rest);
        if p > q {
            assert(!m.dom().contains(p));
            assert(m2 == m.insert(p, seq![e]));
            assert(m2.dom() =~= m.dom().insert(p));
            assert(is_max_prio(m2.dom(), p));
            lemma_max_prio(m2.dom());
            lemma_max_prio_unique(m2.dom(), max_prio(m2.dom()), p);
            lemma_pending_unfold(m2);
            assert(m2.remove(p) =~= m);
            assert(forall|k: int| 0 <= k < v.len() ==> (#[trigger] v[k]).0 < p);
            lemma_count_none(v, p);
            assert(j == 0);
            assert(m2[p] == seq![e]);
            assert(pending(m2).len() == 1 + v.len());
            assert(pending(m2) =~= v.take(0) + seq![(p, e)] + v.skip(0));
        } else if p == q {
            assert(m2 == m.insert(p, m[p].push(e)));
            assert(m2.dom() =~= m.dom());
            assert(m2.dom() == m.dom());
            assert(max_prio(m2.dom()) == q);
            lemma_pending_unfold(m2);
            assert(m2.remove(q) =~= m.remove(q));
            assert(m2[q] == m[q].push(e));
            assert forall|k: int| 0 <= k < rest.len() implies (#[trigger] rest[k]).0 < p by {
                assert(m.remove(q).dom().contains(rest[k].0));
            }
            lemma_count_prefix_ge(v, n, p);
            lemma_count_none(rest, p);
            assert(j == n);
            assert(pending(m2).len() == n + 1 + rest.len());
            assert forall|k: int| 0 <= k < pending(m2).len() implies pending(m2)[k] == (v.take(n)
                + seq![(p, e)] + v.skip(n))[k] by {
                if k < n {
                    assert(pending(m2)[k] == (q, m2[q][k]));
                    assert(m2[q][k] == m[q][k]);
                    assert(v[k] == (q, m[q][k]));
                } else if k == n {
                    assert(pending(m2)[k] == (q, m2[q][n]));
                } else {
                    assert(pending(m2)[k] == rest[k - n - 1]);
                    assert(v[k - 1] == rest[k - 1 - n]);
                }
            }
            assert(pending(m2) =~= v.take(n) + seq![(p, e)] + v.skip(n));
        } else {
            assert(p < q);
            assert(m2.dom() =~= m.dom().insert(p));
            assert(is_max_prio(m2.dom(), q));
            lemma_max_prio(m2.dom());
            lemma_max_prio_unique(m2.dom(), max_prio(m2.dom()), q);
            lemma_pending_unfold(m2);
            assert(m2.remove(q) =~= model_insert(m.remove(q), p, e));
            assert(m2[q] == m[q]);
            lemma_pending_insert(m.remove(q), p, e);
            let j2 = count_at_least(rest, p);
            lemma_count_le_len(rest, p);
            assert(0 <= j2 <= rest.len());
            assert(pending(m2.remove(q)) == rest.take(j2) + seq![(p, e)] + rest.skip(j2));
            assert(pending(m2.remove(q)).len() == rest.len() + 1);
            assert(forall|k: int| 0 <= k < n ==> (#[trigger] v[k]).0 == q);
            lemma_count_prefix_ge(v, n, p);
            assert(j == n + j2);
            assert(pending(m2).len() == n + rest.len() + 1);
            assert forall|k: int| 0 <= k < pending(m2).len() implies pending(m2)[k] == (v.take(j)
                + seq![(p, e)] + v.skip(j))[k] by {
                if k < n {
                    assert(pending(m2)[k] == (q, m2[q][k]));
                    assert(v[k] == (q, m[q][k]));
                } else {
                    assert(pending(m2)[k] == pending(m2.remove(q))[k - n]);
                    if k - n < j2 {
                        assert(pending(m2.remove(q))[k - n] == rest[k - n]);
                        assert(v[k] == rest[k - n]);
                    } else if k - n == j2 {
                        assert(pending(m2.remove(q))[k - n] == (p, e));
                    } else {
                        assert(pending(m2.remove(q))[k - n] == rest.skip(j2)[k - n - j2 - 1]);
                        assert(rest.skip(j2)[k - n - j2 - 1] == rest[k - n - 1]);
                        assert(v[k - 1] == rest[k - 1 - n]);
                    }
                }
            }
            assert(pending(m2) =~= v.take(j) + seq![(p, e)] + v.skip(j));
        }
    }
}

/// The queue walks `pending` front to back: on a non-empty model the
/// next payload out is the head of `pending`, and popping leaves a
/// model whose `pending` is the tail.  Repeated pops therefore hand out
/// exactly the pending payloads, in their pending order.
pub proof fn lemma_pending_step<T>(m: Map<u64, Seq<T>>)
    requires
        valid_model(m),
        !m.dom().is_empty(),
    ensures
        pending(m).len() > 0,
        pending(m)[0] == (max_prio(m.dom()), model_front(m)),
        pending(model_pop(m)) == pending(m).skip(1),
        valid_model(model_pop(m)),
{
    let p = max_prio(m.dom());
    lemma_max_prio(m.dom());
    lemma_model_remove_valid(m, p);
    lemma_model_pop_valid(m);
    lemma_pending_unfold(m);
    if m[p].len() <= 1 {
        assert(pending(model_pop(m)) =~= pending(m).skip(1));
    } else {
        let m2 = m.insert(p, m[p].skip(1));
        assert(m2.dom() =~= m.dom());
        assert(m2.dom() == m.dom());
        assert(max_prio(m2.dom()) == p);
        assert(m2.dom().finite() && !m2.dom().is_empty());
        lemma_pending_unfold(m2);
        assert(m2.remove(p) =~= m.remove(p));
        assert(m2[p] == m[p].skip(1));
        assert(pending(m2) =~= pending(m).skip(1));
    }
}

} // verus!
