//! The abstract state of a container and the spec functions that the
//! operations' contracts are written in, with the lemmas that unfold them.
use vstd::prelude::*;
use crate::config::GenerationPolicy;
use crate::error::SparseSlotError;
use crate::id::{next_generation, Id};

verus! {

/// The abstract state of a container: for each slot, its generation and the
/// value it holds, if any.
pub type Slots<T> = Seq<(u8, Option<T>)>;

pub open spec fn occupied<T>(s: Slots<T>, i: int) -> bool {
    0 <= i < s.len() && s[i].1 is Some
}

/// The value that `id` designates: present only if the slot holds a value
/// and carries `id`'s generation.
pub open spec fn lookup<T>(s: Slots<T>, id: Id) -> Option<T> {
    if id.index < s.len() && s[id.index as int].0 == id.generation {
        s[id.index as int].1
    } else {
        None
    }
}

/// The outcome of inserting `v` at `id` under `policy`.
pub open spec fn set_outcome<T>(s: Slots<T>, id: Id, v: T, policy: GenerationPolicy) -> Result<
    Slots<T>,
    SparseSlotError,
> {
    if id.index >= s.len() {
        Err(SparseSlotError::IndexOutOfBounds(id.index))
    } else if s[id.index as int].1 is Some {
        Err(SparseSlotError::Occupied(id.index))
    } else if policy == GenerationPolicy::Enforced && s[id.index as int].0 != id.generation {
        Err(SparseSlotError::GenerationMismatch(s[id.index as int].0))
    } else {
        Ok(s.update(id.index as int, (id.generation, Some(v))))
    }
}

/// The state after removing what `id` designates: the slot is emptied and its
/// generation advanced; nothing changes if `id` designates nothing.
pub open spec fn after_remove<T>(s: Slots<T>, id: Id) -> Slots<T> {
    if lookup(s, id) is Some {
        s.update(id.index as int, (next_generation(s[id.index as int].0), None))
    } else {
        s
    }
}

/// The state after emptying every occupied slot.
pub open spec fn after_clear<T>(s: Slots<T>) -> Slots<T> {
    Seq::new(
        s.len(),
        |i: int|
            if s[i].1 is Some {
                (next_generation(s[i].0), None::<T>)
            } else {
                s[i]
            },
    )
}

/// The occupied slots with index in `[lo, hi)`, in ascending order of index,
/// each with its identifier.
pub open spec fn live_range<T>(s: Slots<T>, lo: int, hi: int) -> Seq<(Id, T)>
    decreases hi - lo,
{
    if hi <= lo {
        Seq::empty()
    } else {
        let rest = live_range(s, lo, hi - 1);
        if occupied(s, hi - 1) {
            rest.push((Id { index: (hi - 1) as usize, generation: s[hi - 1].0 }, s[hi - 1].1->0))
        } else {
            rest
        }
    }
}

/// All occupied slots, in ascending order of index.
pub open spec fn live<T>(s: Slots<T>) -> Seq<(Id, T)> {
    live_range(s, 0, s.len() as int)
}

/// The identifiers of `live(s)`.
pub open spec fn live_ids<T>(s: Slots<T>) -> Seq<Id> {
    live(s).map_values(|p: (Id, T)| p.0)
}

/// The values of `live(s)`.
pub open spec fn live_values<T>(s: Slots<T>) -> Seq<T> {
    live(s).map_values(|p: (Id, T)| p.1)
}

pub open spec fn first_live_id<T>(s: Slots<T>) -> Option<Id> {
    if live(s).len() == 0 {
        None
    } else {
        Some(live(s)[0].0)
    }
}

pub open spec fn last_live_id<T>(s: Slots<T>) -> Option<Id> {
    if live(s).len() == 0 {
        None
    } else {
        Some(live(s).last().0)
    }
}

/// The state after removing the first occupied slot, as one step of a drain.
pub open spec fn after_drain_step<T>(s: Slots<T>) -> Slots<T> {
    if live(s).len() == 0 {
        s
    } else {
        after_remove(s, live(s)[0].0)
    }
}

/// The state after inserting each pair in order, skipping those refused.
pub open spec fn fill<T>(s: Slots<T>, pairs: Seq<(Id, T)>, policy: GenerationPolicy) -> Slots<T>
    decreases pairs.len(),
{
    if pairs.len() == 0 {
        s
    } else {
        let prev = fill(s, pairs.drop_last(), policy);
        match set_outcome(prev, pairs.last().0, pairs.last().1, policy) {
            Ok(t) => t,
            Err(_) => prev,
        }
    }
}

/// The capacity of a container built from `n` pairs: `n`, but at least 16.
pub open spec fn built_capacity(n: nat) -> nat {
    if n > 16 {
        n
    } else {
        16
    }
}

/// A fresh container of `n` empty slots, all of generation 0.
pub open spec fn empty_slots<T>(n: nat) -> Slots<T> {
    Seq::new(n, |i: int| (0u8, None::<T>))
}

pub proof fn lemma_live_range_split<T>(s: Slots<T>, lo: int, mid: int, hi: int)
    requires
        lo <= mid <= hi,
    ensures
        live_range(s, lo, hi) == live_range(s, lo, mid) + live_range(s, mid, hi),
    decreases hi - mid,
{
    if hi == mid {
        assert(live_range(s, mid, hi) == Seq::<(Id, T)>::empty());
        assert(live_range(s, lo, mid) + live_range(s, mid, hi) =~= live_range(s, lo, mid));
    } else {
        lemma_live_range_split(s, lo, mid, hi - 1);
        let a = live_range(s, lo, mid);
        let b = live_range(s, mid, hi - 1);
        if occupied(s, hi - 1) {
            let e = (Id { index: (hi - 1) as usize, generation: s[hi - 1].0 }, s[hi - 1].1->0);
            assert((a + b).push(e) =~= a + b.push(e));
        }
    }
}

pub proof fn lemma_live_range_gap<T>(s: Slots<T>, lo: int, hi: int)
    requires
        forall|k: int| lo <= k < hi ==> !occupied(s, k),
    ensures
        live_range(s, lo, hi) == Seq::<(Id, T)>::empty(),
    decreases hi - lo,
{
    if hi > lo {
        lemma_live_range_gap(s, lo, hi - 1);
    }
}

/// The first element of the occupied slots in `[lo, hi)` when `lo` is occupied.
pub proof fn lemma_live_range_head<T>(s: Slots<T>, lo: int, hi: int)
    requires
        lo < hi,
        occupied(s, lo),
    ensures
        live_range(s, lo, hi) == seq![
            (Id { index: lo as usize, generation: s[lo].0 }, s[lo].1->0),
        ] + live_range(s, lo + 1, hi),
{
    lemma_live_range_split(s, lo, lo + 1, hi);
    assert(live_range(s, lo, lo) == Seq::<(Id, T)>::empty());
    assert(live_range(s, lo, lo + 1) =~= seq![
        (Id { index: lo as usize, generation: s[lo].0 }, s[lo].1->0),
    ]);
}

/// Every element of `live_range(s, lo, hi)` is an occupied slot in `[lo, hi)`,
/// listed under its own identifier, and indices strictly ascend.
pub proof fn lemma_live_range_facts<T>(s: Slots<T>, lo: int, hi: int)
    requires
        0 <= lo,
        hi <= s.len() <= usize::MAX,
    ensures
        forall|j: int|
            0 <= j < live_range(s, lo, hi).len() ==> {
                let (id, v) = #[trigger] live_range(s, lo, hi)[j];
                &&& lo <= id.index < hi
                &&& occupied(s, id.index as int)
                &&& id.generation == s[id.index as int].0
                &&& v == s[id.index as int].1->0
            },
        forall|j: int, k: int|
            0 <= j < k < live_range(s, lo, hi).len() ==> live_range(s, lo, hi)[j].0.index
                < live_range(s, lo, hi)[k].0.index,
        forall|i: int|
            lo <= i < hi && occupied(s, i) ==> exists|j: int|
                0 <= j < live_range(s, lo, hi).len() && live_range(s, lo, hi)[j].0.index == i,
    decreases hi - lo,
{
    if hi > lo {
        lemma_live_range_facts(s, lo, hi - 1);
        let rest = live_range(s, lo, hi - 1);
        if occupied(s, hi - 1) {
            let r = live_range(s, lo, hi);
            assert(r[rest.len() as int].0.index == hi - 1);
            assert forall|i: int| lo <= i < hi && occupied(s, i) implies exists|j: int|
                0 <= j < r.len() && r[j].0.index == i by {
                if i < hi - 1 {
                    let j = choose|j: int| 0 <= j < rest.len() && rest[j].0.index == i;
                    assert(r[j] == rest[j]);
                } else {
                    assert(r[rest.len() as int].0.index == i);
                }
            }
        }
    }
}

/// `live_range` reads only the slots in its range.
pub proof fn lemma_live_range_frame<T>(
    s: Slots<T>,
    t: Slots<T>,
    lo: int,
    hi: int,
)
    requires
        s.len() == t.len(),
        forall|k: int| lo <= k < hi && 0 <= k < s.len() ==> s[k] == t[k],
    ensures
        live_range(s, lo, hi) == live_range(t, lo, hi),
    decreases hi - lo,
{
    if hi > lo {
        lemma_live_range_frame(s, t, lo, hi - 1);
    }
}

} // verus!
