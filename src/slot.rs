use vstd::prelude::*;
use crate::config::{GenerationPolicy, Layout};
use crate::error::SparseSlotError;
use crate::id::Id;
use crate::model::{
    after_clear, after_remove, built_capacity, empty_slots, fill, first_live_id, last_live_id, live, live_range,
    lookup, occupied, set_outcome, Slots, lemma_live_range_gap, lemma_live_range_head,
    lemma_live_range_split,
};

verus! {

/// One storage position. Occupied entries are chained in ascending order of
/// index through `next_index` and `previous_index`; a vacant entry has no links.
#[derive(Debug, PartialEq, Eq)]
pub(crate) struct Entry<T> {
    pub(crate) generation: u8,
    pub(crate) item: Option<T>,
    pub(crate) next_index: Option<usize>,
    pub(crate) previous_index: Option<usize>,
}

impl<T> Entry<T> {
    fn vacant() -> (r: Self)
        ensures
            r.generation == 0,
            r.item is None,
            r.next_index is None,
            r.previous_index is None,
    {
        Entry { generation: 0, item: None, next_index: None, previous_index: None }
    }
}

pub(crate) open spec fn occ<T>(e: Seq<Entry<T>>, i: int) -> bool {
    0 <= i < e.len() && e[i].item is Some
}

/// `n` links position `i` to the first occupied entry after it.
pub(crate) open spec fn next_ok<T>(e: Seq<Entry<T>>, i: int, n: Option<usize>) -> bool {
    match n {
        None => forall|k: int| i < k < e.len() ==> !occ(e, k),
        Some(j) => i < j < e.len() && occ(e, j as int) && forall|k: int| i < k < j ==> !occ(e, k),
    }
}

/// `p` links position `i` to the last occupied entry before it.
pub(crate) open spec fn prev_ok<T>(e: Seq<Entry<T>>, i: int, p: Option<usize>) -> bool {
    match p {
        None => forall|k: int| 0 <= k < i ==> !occ(e, k),
        Some(j) => 0 <= j < i && occ(e, j as int) && forall|k: int| j < k < i ==> !occ(e, k),
    }
}

pub(crate) open spec fn entry_ok<T>(e: Seq<Entry<T>>, i: int) -> bool {
    if occ(e, i) {
        next_ok(e, i, e[i].next_index) && prev_ok(e, i, e[i].previous_index)
    } else {
        e[i].next_index is None && e[i].previous_index is None
    }
}

/// The chain through the entries is the ascending list of occupied positions,
/// headed by `first`.
pub(crate) open spec fn chain_ok<T>(e: Seq<Entry<T>>, first: Option<usize>) -> bool {
    &&& next_ok(e, -1, first)
    &&& forall|i: int| 0 <= i < e.len() ==> #[trigger] entry_ok(e, i)
}

/// No entry carries a link.
pub(crate) open spec fn unlinked<T>(e: Seq<Entry<T>>) -> bool {
    forall|i: int|
        0 <= i < e.len() ==> (#[trigger] e[i]).next_index is None && e[i].previous_index is None
}

pub(crate) open spec fn entries_view<T>(e: Seq<Entry<T>>) -> Slots<T> {
    e.map_values(|x: Entry<T>| (x.generation, x.item))
}

/// Occupancy and contents read the same through the abstract view.
pub(crate) proof fn lemma_occ_view<T>(e: Seq<Entry<T>>)
    ensures
        entries_view(e).len() == e.len(),
        forall|k: int| #[trigger] occupied(entries_view(e), k) == occ(e, k),
        forall|k: int|
            0 <= k < e.len() ==> #[trigger] entries_view(e)[k] == (e[k].generation, e[k].item),
{
}

/// Replacing the value of an occupied entry keeps the chain intact.
pub(crate) proof fn lemma_chain_value_update<T>(
    e: Seq<Entry<T>>,
    first: Option<usize>,
    i: int,
    v: T,
)
    requires
        chain_ok(e, first),
        occ(e, i),
    ensures
        chain_ok(
            e.update(
                i,
                Entry {
                    generation: e[i].generation,
                    item: Some(v),
                    next_index: e[i].next_index,
                    previous_index: e[i].previous_index,
                },
            ),
            first,
        ),
{
    let f = e.update(
        i,
        Entry {
            generation: e[i].generation,
            item: Some(v),
            next_index: e[i].next_index,
            previous_index: e[i].previous_index,
        },
    );
    assert(forall|k: int| occ(f, k) == occ(e, k));
    assert forall|k: int| 0 <= k < f.len() implies #[trigger] entry_ok(f, k) by {
        assert(entry_ok(e, k));
    }
}

/// The value behind an optional reference.
pub open spec fn deref_opt<T>(o: Option<&T>) -> Option<T> {
    match o {
        Some(v) => Some(*v),
        None => None,
    }
}

/// A fixed-capacity sparse collection: each slot is empty or holds one value,
/// and is addressed by an [`Id`] that carries the slot's generation.
///
/// The capacity is set at creation and never changes. A value can only be put
/// into an empty slot; removing it advances the slot's generation by one, so
/// that identifiers of the earlier occupancy no longer reach the slot. The
/// counter has 8 bits and wraps: after exactly 256 removals from one slot, an
/// identifier of its first occupancy fits again.
///
/// The [`Layout`] and the [`GenerationPolicy`] are chosen at creation. With
/// [`GenerationPolicy::CallerAsserted`] an insertion accepts whatever
/// generation the identifier carries, which suits callers whose own index
/// allocator already guarantees freshness; [`SparseSlot::new`] picks
/// [`GenerationPolicy::Enforced`], under which a stale identifier cannot be
/// used to fill a slot again.
#[derive(Debug, PartialEq, Eq)]
pub struct SparseSlot<T> {
    pub(crate) items: Vec<Entry<T>>,
    pub(crate) first_occupied: Option<usize>,
    pub(crate) policy: GenerationPolicy,
    pub(crate) layout: Layout,
}

/// The first occupied position at or after `p`, found by scanning.
pub(crate) fn scan_from<T>(items: &Vec<Entry<T>>, p: usize) -> (r: Option<usize>)
    requires
        p <= items@.len(),
    ensures
        match r {
            None => forall|k: int| p <= k < items@.len() ==> !occ(items@, k),
            Some(q) => p <= q < items@.len() && occ(items@, q as int) && forall|k: int|
                p <= k < q ==> !occ(items@, k),
        },
{
    let mut i: usize = p;
    while i < items.len()
        invariant
            p <= i <= items@.len(),
            forall|k: int| p <= k < i ==> !occ(items@, k),
        decreases items@.len() - i,
    {
        if items[i].item.is_some() {
            return Some(i);
        }
        i = i + 1;
    }
    None
}

impl<T> View for SparseSlot<T> {
    type V = Slots<T>;

    open(crate) spec fn view(&self) -> Slots<T> {
        entries_view(self.items@)
    }
}

impl<T> SparseSlot<T> {
    /// The internal chain of occupied slots matches the slots' contents.
    pub open(crate) spec fn wf(&self) -> bool {
        match self.layout {
            Layout::Ordered => chain_ok(self.items@, self.first_occupied),
            Layout::Flat => self.first_occupied is None && unlinked(self.items@),
        }
    }

    /// The layout chosen at creation.
    pub open(crate) spec fn layout(&self) -> Layout {
        self.layout
    }

    pub(crate) proof fn lemma_unfold(&self)
        ensures
            self.items@.len() <= usize::MAX,
            self@ == entries_view(self.items@),
            self@.len() == self.items@.len(),
    {
        lemma_occ_view(self.items@);
        assert(self.items@.len() == self.items.len());
    }

    /// The generation policy chosen at creation.
    pub open(crate) spec fn policy(&self) -> GenerationPolicy {
        self.policy
    }

    /// A container of `capacity` empty slots of generation 0, with ordered
    /// layout, that enforces generations on insertion.
    pub fn new(capacity: usize) -> (r: Self)
        ensures
            r.wf(),
            r@ == empty_slots::<T>(capacity as nat),
            r.policy() == GenerationPolicy::Enforced,
            r.layout() == Layout::Ordered,
    {
        Self::with_config(capacity, Layout::Ordered, GenerationPolicy::Enforced)
    }

    /// A container of `capacity` empty slots of generation 0 with the given
    /// layout and generation policy.
    pub fn with_config(capacity: usize, layout: Layout, policy: GenerationPolicy) -> (r: Self)
        ensures
            r.wf(),
            r@ == empty_slots::<T>(capacity as nat),
            r.policy() == policy,
            r.layout() == layout,
    {
        let mut items: Vec<Entry<T>> = Vec::with_capacity(capacity);
        let mut i: usize = 0;
        while i < capacity
            invariant
                i <= capacity,
                items@.len() == i,
                forall|k: int|
                    0 <= k < i ==> {
                        &&& (#[trigger] items@[k]).generation == 0
                        &&& items@[k].item is None
                        &&& items@[k].next_index is None
                        &&& items@[k].previous_index is None
                    },
            decreases capacity - i,
        {
            items.push(Entry::vacant());
            i = i + 1;
        }
        let r = SparseSlot { items, first_occupied: None, policy, layout };
        assert(r@ =~= empty_slots::<T>(capacity as nat));
        assert forall|i: int| 0 <= i < r.items@.len() implies #[trigger] entry_ok(r.items@, i) by {}
        r
    }

    /// Puts `item` into the empty slot that `id` names.
    ///
    /// Refused, leaving the container unchanged, when the index is not below
    /// the capacity, when the slot already holds a value, or, under
    /// [`GenerationPolicy::Enforced`], when `id` does not carry the slot's
    /// current generation. On success the slot holds `item` under `id`'s
    /// generation; in the ordered layout it is spliced into the chain after
    /// the last occupied slot of lower index, found by walking from the head.
    pub fn try_set(&mut self, id: Id, item: T) -> (r: Result<(), SparseSlotError>)
        requires
            old(self).wf(),
        ensures
            final(self).wf(),
            final(self).policy() == old(self).policy(),
            final(self).layout() == old(self).layout(),
            match set_outcome(old(self)@, id, item, old(self).policy()) {
                Ok(s) => r is Ok && final(self)@ == s,
                Err(e) => r == Err::<(), SparseSlotError>(e) && final(self)@ == old(self)@,
            },
    {
        let idx = id.index;
        if idx >= self.items.len() {
            return Err(SparseSlotError::IndexOutOfBounds(idx));
        }
        if self.items[idx].item.is_some() {
            return Err(SparseSlotError::Occupied(idx));
        }
        let current_generation = self.items[idx].generation;
        if self.policy == GenerationPolicy::Enforced && current_generation != id.generation {
            return Err(SparseSlotError::GenerationMismatch(current_generation));
        }
        if self.layout == Layout::Flat {
            self.items.set(
                idx,
                Entry { generation: id.generation, item: Some(item), next_index: None, previous_index: None },
            );
            assert(self@ =~= old(self)@.update(idx as int, (id.generation, Some(item))));
            return Ok(());
        }
        let ghost e = self.items@;
        let mut prev_index: Option<usize> = None;
        let mut next_index: Option<usize> = self.first_occupied;
        loop
            invariant
                self.items@ == e,
                chain_ok(e, self.first_occupied),
                idx < e.len(),
                !occ(e, idx as int),
                match prev_index {
                    None => next_index == self.first_occupied,
                    Some(p) => p < idx && occ(e, p as int) && next_index == e[p as int].next_index,
                },
                next_ok(e, match prev_index { Some(p) => p as int, None => -1 }, next_index),
            ensures
                match next_index {
                    Some(n) => idx < n,
                    None => true,
                },
                next_ok(e, match prev_index { Some(p) => p as int, None => -1 }, next_index),
                match prev_index {
                    None => true,
                    Some(p) => p < idx && occ(e, p as int),
                },
            decreases
                match next_index {
                    Some(n) => e.len() - n,
                    None => 0,
                },
        {
            match next_index {
                None => break,
                Some(current) => {
                    if current > idx {
                        break;
                    }
                    assert(entry_ok(e, current as int));
                    assert(current != idx);
                    prev_index = Some(current);
                    next_index = self.items[current].next_index;
                },
            }
        }
        let ghost before = match prev_index { Some(p) => p as int, None => -1 };
        self.items.set(idx, Entry { generation: id.generation, item: Some(item), next_index, previous_index: prev_index });
        match prev_index {
            Some(p) => {
                self.items[p].next_index = Some(idx);
            },
            None => {
                self.first_occupied = Some(idx);
            },
        }
        match next_index {
            Some(n) => {
                self.items[n].previous_index = Some(idx);
            },
            None => {},
        }
        let ghost f = self.items@;
        proof {
            assert(forall|k: int| occ(f, k) <==> (occ(e, k) || k == idx));
            assert(next_ok(f, -1, self.first_occupied)) by {
                if prev_index is Some {
                    assert(occ(e, before));
                    assert(next_ok(e, -1, old(self).first_occupied));
                    assert(old(self).first_occupied == self.first_occupied);
                }
            }
            assert forall|i: int| 0 <= i < f.len() implies #[trigger] entry_ok(f, i) by {
                assert(entry_ok(e, i));
                if i == idx {
                } else if i == before {
                } else if next_index == Some(i as usize) {
                } else if occ(e, i) {
                    if i < before {
                        assert(entry_ok(e, before));
                    }
                }
            }
        }
        assert(self@ =~= entries_view(e).update(idx as int, (id.generation, Some(item))));
        Ok(())
    }

    /// Takes out the value that `id` designates, advancing the slot's
    /// generation and unlinking it from the chain. Returns `None`, changing
    /// nothing, when `id` designates no value (stale, vacant or out of range).
    pub fn remove(&mut self, id: Id) -> (r: Option<T>)
        requires
            old(self).wf(),
        ensures
            final(self).wf(),
            final(self).policy() == old(self).policy(),
            final(self).layout() == old(self).layout(),
            r == lookup(old(self)@, id),
            final(self)@ == after_remove(old(self)@, id),
    {
        let idx = id.index;
        if idx >= self.items.len() {
            return None;
        }
        if self.items[idx].generation != id.generation || self.items[idx].item.is_none() {
            return None;
        }
        if self.layout == Layout::Flat {
            let item = self.items[idx].item.take();
            let generation = self.items[idx].generation.wrapping_add(1);
            self.items[idx].generation = generation;
            assert(self@ =~= after_remove(old(self)@, id));
            return item;
        }
        let ghost e = self.items@;
        assert(entry_ok(e, idx as int));
        let prev_index = self.items[idx].previous_index;
        let next_index = self.items[idx].next_index;
        match prev_index {
            Some(p) => {
                self.items[p].next_index = next_index;
            },
            None => {
                self.first_occupied = next_index;
            },
        }
        match next_index {
            Some(n) => {
                self.items[n].previous_index = prev_index;
            },
            None => {},
        }
        let item = self.items[idx].item.take();
        let generation = self.items[idx].generation.wrapping_add(1);
        self.items[idx].generation = generation;
        self.items[idx].next_index = None;
        self.items[idx].previous_index = None;
        let ghost f = self.items@;
        proof {
            let before = match prev_index { Some(p) => p as int, None => -1 };
            assert(forall|k: int| occ(f, k) <==> (occ(e, k) && k != idx));
            assert(next_ok(f, -1, self.first_occupied)) by {
                if prev_index is Some {
                    assert(entry_ok(e, before));
                    assert(next_ok(e, -1, old(self).first_occupied));
                }
            }
            assert forall|i: int| 0 <= i < f.len() implies #[trigger] entry_ok(f, i) by {
                assert(entry_ok(e, i));
                if i == idx {
                } else if i == before {
                    assert(entry_ok(e, before));
                } else if next_index == Some(i as usize) {
                } else if occ(e, i) {
                    if i < idx {
                        assert(next_ok(e, i, e[i].next_index));
                    } else {
                        assert(prev_ok(e, i, e[i].previous_index));
                    }
                }
            }
            assert(self@ =~= after_remove(old(self)@, id));
        }
        item
    }

    /// Empties every occupied slot, advancing each one's generation once.
    pub fn clear(&mut self)
        requires
            old(self).wf(),
        ensures
            final(self).wf(),
            final(self).policy() == old(self).policy(),
            final(self).layout() == old(self).layout(),
            final(self)@ == after_clear(old(self)@),
    {
        let ghost e = self.items@;
        let n = self.items.len();
        let mut i: usize = 0;
        while i < n
            invariant
                i <= n,
                n == e.len(),
                self.items@.len() == n,
                self.policy == old(self).policy,
                e == old(self).items@,
                old(self).wf(),
                self.layout == old(self).layout,
                forall|k: int|
                    0 <= k < i ==> {
                        &&& (#[trigger] self.items@[k]).item is None
                        &&& self.items@[k].next_index is None
                        &&& self.items@[k].previous_index is None
                        &&& self.items@[k].generation == after_clear(entries_view(e))[k].0
                    },
                forall|k: int| i <= k < n ==> #[trigger] self.items@[k] == e[k],
            decreases n - i,
        {
            if self.items[i].item.is_some() {
                self.items[i].item = None;
                let generation = self.items[i].generation.wrapping_add(1);
                self.items[i].generation = generation;
                self.items[i].next_index = None;
                self.items[i].previous_index = None;
            } else if self.layout == Layout::Ordered {
                assert(entry_ok(e, i as int));
            }
            i = i + 1;
        }
        self.first_occupied = None;
        assert(self@ =~= after_clear(old(self)@));
        assert forall|k: int| 0 <= k < self.items@.len() implies #[trigger] entry_ok(self.items@, k) by {}
    }

    /// The value that `id` designates, if any. Never changes the container.
    pub fn get(&self, id: Id) -> (r: Option<&T>)
        ensures
            deref_opt(r) == lookup(self@, id),
    {
        if id.index >= self.items.len() {
            return None;
        }
        let entry = &self.items[id.index];
        if entry.generation != id.generation {
            return None;
        }
        entry.item.as_ref()
    }

    /// A mutable reference to the value that `id` designates, if any. Only the
    /// value can change through it.
    pub fn get_mut(&mut self, id: Id) -> (r: Option<&mut T>)
        requires
            old(self).wf(),
        ensures
            final(self).wf(),
            final(self).policy() == old(self).policy(),
            final(self).layout() == old(self).layout(),
            match lookup(old(self)@, id) {
                None => r is None && final(self)@ == old(self)@,
                Some(v) => r is Some && *r->0 == v && final(self)@ == old(self)@.update(
                    id.index as int,
                    (id.generation, Some(*final(r->0))),
                ),
            },
    {
        let idx = id.index;
        if idx >= self.items.len() {
            return None;
        }
        if self.items[idx].generation != id.generation || self.items[idx].item.is_none() {
            return None;
        }
        let ghost e = self.items@;
        let ghost first = self.first_occupied;
        let ghost layout = self.layout;
        match &mut self.items[idx].item {
            Some(v) => {
                proof {
                    if layout == Layout::Ordered {
                        lemma_chain_value_update(e, first, idx as int, *final(v));
                    }
                }
                Some(v)
            },
            None => None,
        }
    }

    /// The number of occupied slots.
    pub fn len(&self) -> (r: usize)
        ensures
            r == live(self@).len(),
    {
        let ghost s = self@;
        let mut count: usize = 0;
        let mut i: usize = 0;
        while i < self.items.len()
            invariant
                i <= self.items@.len(),
                s == self@,
                count == live_range(s, 0, i as int).len(),
                count <= i,
            decreases self.items@.len() - i,
        {
            if self.items[i].item.is_some() {
                count = count + 1;
            }
            i = i + 1;
        }
        count
    }

    /// Whether no slot is occupied.
    pub fn is_empty(&self) -> (r: bool)
        ensures
            r == (live(self@).len() == 0),
    {
        self.len() == 0
    }

    /// The identifier of the occupied slot of lowest index: the head of the
    /// chain in the ordered layout, found by a scan in the flat one.
    pub fn first_id(&self) -> (r: Option<Id>)
        requires
            self.wf(),
        ensures
            r == first_live_id(self@),
    {
        let found = match self.layout {
            Layout::Ordered => self.first_occupied,
            Layout::Flat => scan_from(&self.items, 0),
        };
        proof {
            lemma_occ_view(self.items@);
        }
        match found {
            None => {
                proof {
                    lemma_live_range_gap(self@, 0, self@.len() as int);
                }
                None
            },
            Some(index) => {
                proof {
                    let s = self@;
                    lemma_live_range_split(s, 0, index as int, s.len() as int);
                    lemma_live_range_gap(s, 0, index as int);
                    lemma_live_range_head(s, index as int, s.len() as int);
                    assert(live(s) =~= seq![
                        (Id { index, generation: s[index as int].0 }, s[index as int].1->0),
                    ] + live_range(s, index + 1, s.len() as int));
                }
                Some(Id::new(index, self.items[index].generation))
            },
        }
    }

    /// The identifier of the occupied slot of highest index, found by a scan
    /// from the end.
    pub fn last_id(&self) -> (r: Option<Id>)
        ensures
            r == last_live_id(self@),
    {
        let ghost s = self@;
        let mut i: usize = self.items.len();
        while i > 0
            invariant
                i <= s.len(),
                s == self@,
                forall|k: int| i <= k < s.len() ==> !occupied(s, k),
            decreases i,
        {
            if self.items[i - 1].item.is_some() {
                proof {
                    let k = i - 1;
                    lemma_live_range_split(s, 0, i as int, s.len() as int);
                    lemma_live_range_gap(s, i as int, s.len() as int);
                    assert(live(s) =~= live_range(s, 0, i as int));
                }
                return Some(Id::new(i - 1, self.items[i - 1].generation));
            }
            i = i - 1;
        }
        proof {
            lemma_live_range_gap(s, 0, s.len() as int);
        }
        None
    }

    /// A container that enforces generations, with room for every pair (and
    /// at least 16 slots), into which the pairs are inserted in order. Pairs
    /// that are refused, such as a second one for the same index, are skipped.
    pub fn from_pairs(pairs: Vec<(Id, T)>) -> (r: Self)
        ensures
            r.wf(),
            r.policy() == GenerationPolicy::Enforced,
            r@ == fill(
                empty_slots::<T>(built_capacity(pairs@.len())),
                pairs@,
                GenerationPolicy::Enforced,
            ),
    {
        let ghost ps = pairs@;
        let n = pairs.len();
        let capacity = if n > 16 { n } else { 16 };
        let mut slot = Self::new(capacity);
        let ghost start = slot@;
        for p in it: pairs.into_iter()
            invariant
                it.seq() == ps,
                slot.wf(),
                slot.policy() == GenerationPolicy::Enforced,
                slot@ == fill(start, ps.take(it.index() as int), GenerationPolicy::Enforced),
        {
            let ghost k = it.index();
            let (id, value) = p;
            let _ = slot.try_set(id, value);
            assert(ps.take(k + 1).drop_last() =~= ps.take(k as int));
        }
        assert(ps.take(ps.len() as int) =~= ps);
        slot
    }

    /// The number of slots, fixed at creation.
    pub fn capacity(&self) -> (r: usize)
        ensures
            r == self@.len(),
    {
        self.items.len()
    }
}

} // verus!
