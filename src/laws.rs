//! Properties that hold across operations, stated over the abstract model
//! that the operations' contracts use.
use vstd::prelude::*;
use crate::config::GenerationPolicy;
use crate::id::{next_generation, Id};
use crate::model::{
    after_clear, after_drain_step, after_remove, lemma_live_range_facts, lemma_live_range_frame,
    lemma_live_range_gap, lemma_live_range_head, lemma_live_range_split, live, live_range, lookup,
    occupied, set_outcome, Slots,
};

verus! {

/// A value stored under an identifier is found again under that identifier.
pub proof fn lemma_round_trip<T>(s: Slots<T>, id: Id, v: T, policy: GenerationPolicy)
    requires
        set_outcome(s, id, v, policy) is Ok,
    ensures
        lookup(set_outcome(s, id, v, policy)->Ok_0, id) == Some(v),
{
}

/// Once the value an identifier designates is removed, the identifier reaches
/// nothing: a lookup finds nothing and a second removal changes nothing.
pub proof fn lemma_removed_is_stale<T>(s: Slots<T>, id: Id)
    requires
        lookup(s, id) is Some,
    ensures
        lookup(after_remove(s, id), id) is None,
        after_remove(after_remove(s, id), id) == after_remove(s, id),
{
}

/// An identifier that reaches nothing keeps reaching nothing through removals,
/// clears, and insertions under any other identifier.
pub proof fn lemma_stale_stays_stale<T>(
    s: Slots<T>,
    id: Id,
    other: Id,
    v: T,
    policy: GenerationPolicy,
)
    requires
        lookup(s, id) is None,
    ensures
        lookup(after_remove(s, other), id) is None,
        lookup(after_clear(s), id) is None,
        other != id && set_outcome(s, other, v, policy) is Ok ==> lookup(
            set_outcome(s, other, v, policy)->Ok_0,
            id,
        ) is None,
{
}

/// Removing a value advances its slot's generation by exactly one (wrapping)
/// and touches no other slot. A successful insertion keeps the generation
/// when generations are enforced and records the identifier's generation
/// otherwise; either way no other slot changes.
pub proof fn lemma_generation_steps<T>(s: Slots<T>, id: Id, v: T, policy: GenerationPolicy)
    ensures
        lookup(s, id) is Some ==> after_remove(s, id) == s.update(
            id.index as int,
            (next_generation(s[id.index as int].0), None),
        ),
        set_outcome(s, id, v, policy) matches Ok(t) ==> {
            &&& t == s.update(id.index as int, (id.generation, Some(v)))
            &&& policy == GenerationPolicy::Enforced ==> t[id.index as int].0 == s[id.index as int].0
        },
{
}

/// The live entries come in strictly ascending order of index, each under its
/// slot's current identifier and value, and every occupied slot is among them.
pub proof fn lemma_live_ascending<T>(s: Slots<T>)
    requires
        s.len() <= usize::MAX,
    ensures
        forall|j: int, k: int| 0 <= j < k < live(s).len() ==> live(s)[j].0.index < live(s)[k].0.index,
        forall|j: int|
            0 <= j < live(s).len() ==> {
                let (id, v) = #[trigger] live(s)[j];
                &&& occupied(s, id.index as int)
                &&& id.generation == s[id.index as int].0
                &&& v == s[id.index as int].1->0
            },
        forall|i: int|
            occupied(s, i) ==> exists|j: int| 0 <= j < live(s).len() && #[trigger] live(s)[j].0.index == i,
{
    lemma_live_range_facts(s, 0, s.len() as int);
}

/// No insertion, removal or clear changes the number of slots.
pub proof fn lemma_capacity_fixed<T>(s: Slots<T>, id: Id, v: T, policy: GenerationPolicy)
    ensures
        set_outcome(s, id, v, policy) matches Ok(t) ==> t.len() == s.len(),
        after_remove(s, id).len() == s.len(),
        after_clear(s).len() == s.len(),
{
}

/// The state after `k` steps of a drain.
pub open spec fn drained<T>(s: Slots<T>, k: nat) -> Slots<T>
    decreases k,
{
    if k == 0 {
        s
    } else {
        after_drain_step(drained(s, (k - 1) as nat))
    }
}

/// One drain step removes the first live entry and keeps the others, in order.
pub proof fn lemma_drain_step<T>(s: Slots<T>)
    requires
        s.len() <= usize::MAX,
    ensures
        after_drain_step(s).len() == s.len(),
        live(s).len() > 0 ==> live(after_drain_step(s)) == live(s).drop_first(),
        live(s).len() == 0 ==> after_drain_step(s) == s,
{
    let l = live(s);
    if l.len() > 0 {
        lemma_live_range_facts(s, 0, s.len() as int);
        let n = l[0].0.index as int;
        assert forall|k: int| 0 <= k < n implies !occupied(s, k) by {
            if occupied(s, k) {
                let j = choose|j: int| 0 <= j < l.len() && l[j].0.index == k;
                if j > 0 {
                    assert(l[0].0.index < l[j].0.index);
                }
            }
        }
        let t = after_drain_step(s);
        assert(lookup(s, l[0].0) is Some);
        assert(t == s.update(n, (next_generation(s[n].0), None)));
        assert forall|k: int| 0 <= k < n + 1 implies !occupied(t, k) by {
            if k < n {
                assert(!occupied(s, k));
            }
        }
        lemma_live_range_split(s, 0, n, s.len() as int);
        lemma_live_range_gap(s, 0, n);
        lemma_live_range_head(s, n, s.len() as int);
        lemma_live_range_split(t, 0, n + 1, t.len() as int);
        lemma_live_range_gap(t, 0, n + 1);
        lemma_live_range_frame(s, t, n + 1, s.len() as int);
        assert(live(s) =~= seq![l[0]] + live_range(s, n + 1, s.len() as int));
        assert(live(t) =~= live_range(s, n + 1, s.len() as int));
    }
}

/// Draining `k` entries removes exactly the first `k` live entries: what is
/// left is the rest, in order, and the capacity is unchanged.
pub proof fn lemma_partial_drain<T>(s: Slots<T>, k: nat)
    requires
        s.len() <= usize::MAX,
        k <= live(s).len(),
    ensures
        drained(s, k).len() == s.len(),
        live(drained(s, k)) == live(s).skip(k as int),
    decreases k,
{
    if k == 0 {
        assert(live(s).skip(0) =~= live(s));
    } else {
        lemma_partial_drain(s, (k - 1) as nat);
        let prev = drained(s, (k - 1) as nat);
        lemma_drain_step(prev);
        assert(live(s).skip(k - 1).drop_first() =~= live(s).skip(k as int));
    }
}

/// A drain run to the end yields every live entry in order, leaves no value
/// behind, and keeps the capacity.
pub proof fn lemma_full_drain<T>(s: Slots<T>)
    requires
        s.len() <= usize::MAX,
    ensures
        drained(s, live(s).len()).len() == s.len(),
        live(drained(s, live(s).len())).len() == 0,
        forall|i: nat| i < live(s).len() ==> live(#[trigger] drained(s, i))[0] == live(s)[i as int],
{
    lemma_partial_drain(s, live(s).len());
    assert forall|i: nat| i < live(s).len() implies live(#[trigger] drained(s, i))[0] == live(s)[i as int] by {
        lemma_partial_drain(s, i);
    }
}

/// The state with every occupied slot of index below `b` emptied.
spec fn cleared_below<T>(s: Slots<T>, b: int) -> Slots<T> {
    Seq::new(
        s.len(),
        |i: int|
            if i < b && s[i].1 is Some {
                (next_generation(s[i].0), None::<T>)
            } else {
                s[i]
            },
    )
}

/// Where the `k`-th live entry sits, or the capacity past the last one.
spec fn live_bound<T>(s: Slots<T>, k: int) -> int {
    if k < live(s).len() {
        live(s)[k].0.index as int
    } else {
        s.len() as int
    }
}

proof fn lemma_drained_clears_prefix<T>(s: Slots<T>, k: nat)
    requires
        s.len() <= usize::MAX,
        k <= live(s).len(),
    ensures
        drained(s, k) == cleared_below(s, live_bound(s, k as int)),
    decreases k,
{
    let l = live(s);
    lemma_live_range_facts(s, 0, s.len() as int);
    if k == 0 {
        assert forall|i: int| 0 <= i < live_bound(s, 0) implies !occupied(s, i) by {
            if occupied(s, i) {
                let j = choose|j: int| 0 <= j < l.len() && l[j].0.index == i;
                if j > 0 {
                    assert(l[0].0.index < l[j].0.index);
                }
            }
        }
        assert(drained(s, 0) == s);
        let c = cleared_below(s, live_bound(s, 0));
        assert forall|i: int| 0 <= i < s.len() implies c[i] == s[i] by {
            if i < live_bound(s, 0) {
                assert(!occupied(s, i));
            }
        }
        assert(drained(s, 0) =~= c);
    } else {
        let m = (k - 1) as int;
        lemma_drained_clears_prefix(s, (k - 1) as nat);
        lemma_partial_drain(s, (k - 1) as nat);
        let d = drained(s, (k - 1) as nat);
        let b = live_bound(s, m);
        assert(live(d)[0] == l[m]);
        assert(b == l[m].0.index);
        assert(lookup(d, l[m].0) is Some);
        assert forall|i: int| b < i < live_bound(s, k as int) implies !occupied(s, i) by {
            if occupied(s, i) {
                let j = choose|j: int| 0 <= j < l.len() && l[j].0.index == i;
                if j <= m {
                    if j < m {
                        assert(l[j].0.index < l[m].0.index);
                    }
                } else if j > k {
                    assert(l[k as int].0.index < l[j].0.index);
                }
            }
        }
        assert(drained(s, k) == after_drain_step(d));
        assert(live(d).len() > 0);
        assert(after_drain_step(d) == after_remove(d, l[m].0));
        assert(d[b] == s[b]);
        let t = drained(s, k);
        assert(t == d.update(b, (next_generation(s[b].0), None)));
        let c = cleared_below(s, live_bound(s, k as int));
        assert forall|i: int| 0 <= i < s.len() implies t[i] == c[i] by {
            if i != b {
                assert(t[i] == d[i]);
                if b < i < live_bound(s, k as int) {
                    assert(!occupied(s, i));
                }
            }
        }
        assert(t =~= c);
    }
}

/// Clearing has the effect of removing every live entry one at a time, in
/// ascending order of index.
pub proof fn lemma_clear_is_full_drain<T>(s: Slots<T>)
    requires
        s.len() <= usize::MAX,
    ensures
        after_clear(s) == drained(s, live(s).len()),
{
    lemma_drained_clears_prefix(s, live(s).len());
    assert(after_clear(s) =~= cleared_below(s, s.len() as int));
}

} // verus!
