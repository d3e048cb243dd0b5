//! Walks over a container's occupied slots, in ascending order of index.
use vstd::prelude::*;
use crate::config::Layout;
use crate::id::Id;
use crate::model::{
    after_drain_step, lemma_live_range_facts, lemma_live_range_frame, lemma_live_range_gap,
    lemma_live_range_head, lemma_live_range_split, live, live_ids, live_range, live_values,
};
use crate::slot::{
    chain_ok, entries_view, lemma_occ_view, next_ok, occ, scan_from, unlinked, Entry, SparseSlot,
};

verus! {

/// A cursor into the chain: vacant, or at an occupied entry from which every
/// later occupied entry links to its successor.
pub(crate) open spec fn cursor_ok<T>(e: Seq<Entry<T>>, c: Option<usize>) -> bool {
    match c {
        None => true,
        Some(n) => {
            &&& occ(e, n as int)
            &&& e.len() <= usize::MAX
            &&& forall|i: int| n <= i < e.len() && occ(e, i) ==> next_ok(e, i, #[trigger] e[i].next_index)
        },
    }
}

/// A scanning cursor: vacant, or a position from which to scan.
pub(crate) open spec fn scan_ok<T>(e: Seq<Entry<T>>, c: Option<usize>) -> bool {
    match c {
        None => true,
        Some(p) => p <= e.len() <= usize::MAX,
    }
}

/// A cursor fit for the layout.
pub(crate) open spec fn walk_ok<T>(e: Seq<Entry<T>>, layout: Layout, c: Option<usize>) -> bool {
    match layout {
        Layout::Ordered => cursor_ok(e, c),
        Layout::Flat => scan_ok(e, c),
    }
}

/// Where a walk starts.
pub(crate) open spec fn walk_start(layout: Layout, first: Option<usize>) -> Option<usize> {
    match layout {
        Layout::Ordered => first,
        Layout::Flat => Some(0),
    }
}

/// What a walk of the chain from cursor `c` still visits.
pub(crate) open spec fn remaining_from<T>(e: Seq<Entry<T>>, c: Option<usize>) -> Seq<(Id, T)> {
    match c {
        None => Seq::empty(),
        Some(n) => live_range(entries_view(e), n as int, e.len() as int),
    }
}

/// The head of the chain is a cursor that visits every occupied slot.
pub(crate) proof fn lemma_cursor_start<T>(e: Seq<Entry<T>>, first: Option<usize>)
    requires
        chain_ok(e, first),
        e.len() <= usize::MAX,
    ensures
        cursor_ok(e, first),
        remaining_from(e, first) == live(entries_view(e)),
{
    let s = entries_view(e);
    lemma_occ_view(e);
    assert forall|i: int| 0 <= i < e.len() && occ(e, i) implies next_ok(e, i, #[trigger] e[i].next_index) by {
        assert(crate::slot::entry_ok(e, i));
    }
    match first {
        None => {
            lemma_live_range_gap(s, 0, s.len() as int);
        },
        Some(n) => {
            lemma_live_range_split(s, 0, n as int, s.len() as int);
            lemma_live_range_gap(s, 0, n as int);
            assert(live(s) =~= live_range(s, n as int, s.len() as int));
        },
    }
}

/// A walk starts at a cursor that visits every occupied slot.
pub(crate) proof fn lemma_walk_start<T>(e: Seq<Entry<T>>, layout: Layout, first: Option<usize>)
    requires
        e.len() <= usize::MAX,
        layout == Layout::Ordered ==> chain_ok(e, first),
    ensures
        walk_ok(e, layout, walk_start(layout, first)),
        remaining_from(e, walk_start(layout, first)) == live(entries_view(e)),
{
    if layout == Layout::Ordered {
        lemma_cursor_start(e, first);
    } else {
        lemma_occ_view(e);
    }
}

/// One step of a scan: nothing before `q` remains, then `q`, then the rest.
pub(crate) proof fn lemma_scan_step<T>(e: Seq<Entry<T>>, p: usize, q: Option<usize>)
    requires
        scan_ok(e, Some(p)),
        match q {
            None => forall|k: int| p <= k < e.len() ==> !occ(e, k),
            Some(q) => p <= q < e.len() && occ(e, q as int) && forall|k: int|
                p <= k < q ==> !occ(e, k),
        },
    ensures
        q is None ==> remaining_from(e, Some(p)).len() == 0,
        q matches Some(q) ==> scan_ok(e, Some((q + 1) as usize)) && remaining_from(e, Some(p))
            == seq![(Id { index: q, generation: e[q as int].generation }, e[q as int].item->0)]
            + remaining_from(e, Some((q + 1) as usize)),
{
    let s = entries_view(e);
    lemma_occ_view(e);
    match q {
        None => {
            lemma_live_range_gap(s, p as int, s.len() as int);
        },
        Some(q) => {
            lemma_live_range_split(s, p as int, q as int, s.len() as int);
            lemma_live_range_gap(s, p as int, q as int);
            lemma_live_range_head(s, q as int, s.len() as int);
            assert(live_range(s, p as int, s.len() as int) =~= live_range(s, q as int, s.len() as int));
        },
    }
}

/// One step of a walk: the entry under the cursor, then the rest from its
/// successor.
pub(crate) proof fn lemma_cursor_step<T>(e: Seq<Entry<T>>, n: usize)
    requires
        cursor_ok(e, Some(n)),
    ensures
        cursor_ok(e, e[n as int].next_index),
        remaining_from(e, Some(n)) == seq![
            (Id { index: n, generation: e[n as int].generation }, e[n as int].item->0),
        ] + remaining_from(e, e[n as int].next_index),
{
    let s = entries_view(e);
    lemma_occ_view(e);
    let nx = e[n as int].next_index;
    assert(next_ok(e, n as int, nx));
    lemma_live_range_head(s, n as int, s.len() as int);
    match nx {
        None => {
            lemma_live_range_gap(s, n + 1, s.len() as int);
        },
        Some(m) => {
            lemma_live_range_split(s, n + 1, m as int, s.len() as int);
            lemma_live_range_gap(s, n + 1, m as int);
            assert(live_range(s, n + 1, s.len() as int) =~= live_range(s, m as int, s.len() as int));
        },
    }
}

/// A cursor reads nothing before its position.
pub(crate) proof fn lemma_cursor_frame<T>(e: Seq<Entry<T>>, f: Seq<Entry<T>>, c: Option<usize>)
    requires
        cursor_ok(e, c),
        f.len() == e.len(),
        forall|k: int| 0 <= k < e.len() && (c matches Some(m) && m <= k) ==> f[k] == e[k],
    ensures
        cursor_ok(f, c),
        remaining_from(f, c) == remaining_from(e, c),
{
    if let Some(m) = c {
        let s = entries_view(e);
        let t = entries_view(f);
        lemma_occ_view(e);
        lemma_occ_view(f);
        lemma_live_range_frame(s, t, m as int, s.len() as int);
        assert forall|k: int| m <= k implies occ(f, k) == occ(e, k) by {
            if 0 <= k < e.len() {
                assert(f[k] == e[k]);
            }
        }
        assert forall|i: int| m <= i < f.len() && occ(f, i) implies next_ok(f, i, #[trigger] f[i].next_index) by {
            assert(next_ok(e, i, e[i].next_index));
        }
    }
}

/// A cursor reads nothing before its position, whatever the layout.
pub(crate) proof fn lemma_walk_frame<T>(e: Seq<Entry<T>>, f: Seq<Entry<T>>, layout: Layout, c: Option<usize>)
    requires
        walk_ok(e, layout, c),
        f.len() == e.len(),
        forall|k: int| 0 <= k < e.len() && (c matches Some(m) && m <= k) ==> f[k] == e[k],
    ensures
        walk_ok(f, layout, c),
        remaining_from(f, c) == remaining_from(e, c),
{
    if layout == Layout::Ordered {
        lemma_cursor_frame(e, f, c);
    } else if let Some(m) = c {
        lemma_live_range_frame(entries_view(e), entries_view(f), m as int, e.len() as int);
    }
}

/// The position a walk visits next, and the cursor after it.
pub(crate) fn walk_step<T>(items: &Vec<Entry<T>>, layout: Layout, c: Option<usize>) -> (r: Option<
    (usize, Option<usize>),
>)
    requires
        walk_ok(items@, layout, c),
    ensures
        match r {
            None => remaining_from(items@, c).len() == 0,
            Some((q, nc)) => {
                &&& occ(items@, q as int)
                &&& walk_ok(items@, layout, nc)
                &&& (nc matches Some(m) ==> q < m)
                &&& remaining_from(items@, c) == seq![
                    (
                        Id { index: q, generation: items@[q as int].generation },
                        items@[q as int].item->0,
                    ),
                ] + remaining_from(items@, nc)
            },
        },
{
    match c {
        None => None,
        Some(p) => match layout {
            Layout::Ordered => {
                proof {
                    lemma_cursor_step(items@, p);
                    assert(next_ok(items@, p as int, items@[p as int].next_index));
                }
                Some((p, items[p].next_index))
            },
            Layout::Flat => {
                let found = scan_from(items, p);
                proof {
                    lemma_scan_step(items@, p, found);
                }
                match found {
                    None => None,
                    Some(q) => Some((q, Some(q + 1))),
                }
            },
        },
    }
}

/// A walk over the occupied slots in ascending order of index, yielding each
/// identifier with a shared reference to its value.
pub struct Iter<'a, T> {
    items: &'a Vec<Entry<T>>,
    layout: Layout,
    next_index: Option<usize>,
}

impl<'a, T> Iter<'a, T> {
    pub closed spec fn wf(&self) -> bool {
        walk_ok(self.items@, self.layout, self.next_index)
    }

    /// The identifiers and values still to be yielded, in order.
    pub closed spec fn remaining(&self) -> Seq<(Id, T)> {
        remaining_from(self.items@, self.next_index)
    }

    /// Yields the next entry, or `None` once the walk is over.
    pub fn next(&mut self) -> (r: Option<(Id, &'a T)>)
        requires
            old(self).wf(),
        ensures
            final(self).wf(),
            match r {
                None => old(self).remaining().len() == 0 && final(self).remaining() == old(
                    self,
                ).remaining(),
                Some((id, v)) => old(self).remaining().len() > 0 && old(self).remaining()[0] == (
                    id,
                    *v,
                ) && final(self).remaining() == old(self).remaining().drop_first(),
            },
    {
        match walk_step(self.items, self.layout, self.next_index) {
            None => None,
            Some((current, following)) => {
                let entry = &self.items[current];
                self.next_index = following;
                match &entry.item {
                    Some(v) => {
                        assert(old(self).remaining().drop_first() =~= self.remaining());
                        Some((Id::new(current, entry.generation), v))
                    },
                    None => None,
                }
            },
        }
    }
}

/// A walk over the occupied slots in ascending order of index, yielding each
/// identifier with a mutable reference to its value. Only values can change
/// through it; occupancy and generations stay as they are.
pub struct IterMut<'a, T> {
    slot: &'a mut SparseSlot<T>,
    next_index: Option<usize>,
}

impl<'a, T> IterMut<'a, T> {
    /// The container being walked.
    pub closed spec fn container(&self) -> &'a mut SparseSlot<T> {
        self.slot
    }

    pub closed spec fn wf(&self) -> bool {
        &&& self.slot.wf()
        &&& walk_ok(self.slot.items@, self.slot.layout, self.next_index)
    }

    /// The identifiers and values still to be yielded, in order.
    pub closed spec fn remaining(&self) -> Seq<(Id, T)> {
        remaining_from(self.slot.items@, self.next_index)
    }

    /// Once nothing more is written through the walk, the container stands as
    /// it is now.
    pub proof fn lemma_finished(self)
        requires
            has_resolved(self),
        ensures
            *final(self.container()) == *self.container(),
    {
    }

    /// Yields the next entry, or `None` once the walk is over.
    pub fn next(&mut self) -> (r: Option<(Id, &mut T)>)
        requires
            old(self).wf(),
        ensures
            final(self).wf(),
            *final(final(self).container()) == *final(old(self).container()),
            (*final(self).container()).wf(),
            (*final(self).container()).policy() == (*old(self).container()).policy(),
            (*final(self).container()).layout() == (*old(self).container()).layout(),
            match r {
                None => old(self).remaining().len() == 0,
                Some(_) => old(self).remaining().len() > 0,
            },
            r is None ==> final(self).remaining() == old(self).remaining(),
            r is None ==> (*final(self).container())@ == (*old(self).container())@,
            r is Some ==> final(self).remaining() == old(self).remaining().drop_first(),
            match r {
                Some((id, v)) => old(self).remaining()[0] == (id, *v),
                None => true,
            },
            match r {
                Some((id, v)) => (*final(self).container())@ == (*old(self).container())@.update(
                    id.index as int,
                    (id.generation, Some(*final(v))),
                ),
                None => true,
            },
    {
        let ghost e = self.slot.items@;
        let ghost head = self.slot.first_occupied;
        let layout = self.slot.layout;
        proof {
            self.slot.lemma_unfold();
        }
        match walk_step(&self.slot.items, layout, self.next_index) {
            None => None,
            Some((current, following)) => {
                self.next_index = following;
                let generation = self.slot.items[current].generation;
                assert(self.slot.items@[current as int].item is Some);
                match &mut self.slot.items[current].item {
                    Some(v) => {
                        proof {
                            let f = e.update(
                                current as int,
                                Entry {
                                    generation: e[current as int].generation,
                                    item: Some(*final(v)),
                                    next_index: e[current as int].next_index,
                                    previous_index: e[current as int].previous_index,
                                },
                            );
                            if layout == Layout::Ordered {
                                crate::slot::lemma_chain_value_update(e, head, current as int, *final(v));
                            } else {
                                assert forall|i: int| 0 <= i < f.len() implies (#[trigger] f[i]).next_index is None
                                    && f[i].previous_index is None by {
                                    assert(unlinked(e));
                                    assert(e[i].next_index is None);
                                }
                            }
                            lemma_walk_frame(e, f, layout, following);
                            lemma_occ_view(e);
                            lemma_occ_view(f);
                            assert(entries_view(f) =~= entries_view(e).update(
                                current as int,
                                (generation, Some(*final(v))),
                            ));
                            assert(remaining_from(e, old(self).next_index).drop_first() =~= remaining_from(e, following));
                        }
                        Some((Id::new(current, generation), v))
                    },
                    None => {
                        assert(false);
                        None
                    },
                }
            },
        }
    }
}

/// A walk over the identifiers of the occupied slots, in ascending order.
pub struct Keys<'a, T> {
    iter: Iter<'a, T>,
}

impl<'a, T> Keys<'a, T> {
    pub closed spec fn wf(&self) -> bool {
        self.iter.wf()
    }

    /// The identifiers still to be yielded, in order.
    pub closed spec fn remaining(&self) -> Seq<Id> {
        self.iter.remaining().map_values(|p: (Id, T)| p.0)
    }

    /// Yields the next identifier, or `None` once the walk is over.
    pub fn next(&mut self) -> (r: Option<Id>)
        requires
            old(self).wf(),
        ensures
            final(self).wf(),
            match r {
                None => old(self).remaining().len() == 0 && final(self).remaining() == old(
                    self,
                ).remaining(),
                Some(id) => old(self).remaining().len() > 0 && old(self).remaining()[0] == id
                    && final(self).remaining() == old(self).remaining().drop_first(),
            },
    {
        let r = self.iter.next();
        assert(self.remaining() =~= if r is Some {
            old(self).remaining().drop_first()
        } else {
            old(self).remaining()
        });
        match r {
            Some((id, _)) => Some(id),
            None => None,
        }
    }
}

/// A walk over the values of the occupied slots, in ascending order of index.
pub struct Values<'a, T> {
    iter: Iter<'a, T>,
}

impl<'a, T> Values<'a, T> {
    pub closed spec fn wf(&self) -> bool {
        self.iter.wf()
    }

    /// The values still to be yielded, in order.
    pub closed spec fn remaining(&self) -> Seq<T> {
        self.iter.remaining().map_values(|p: (Id, T)| p.1)
    }

    /// Yields the next value, or `None` once the walk is over.
    pub fn next(&mut self) -> (r: Option<&'a T>)
        requires
            old(self).wf(),
        ensures
            final(self).wf(),
            match r {
                None => old(self).remaining().len() == 0 && final(self).remaining() == old(
                    self,
                ).remaining(),
                Some(v) => old(self).remaining().len() > 0 && old(self).remaining()[0] == *v
                    && final(self).remaining() == old(self).remaining().drop_first(),
            },
    {
        let r = self.iter.next();
        assert(self.remaining() =~= if r is Some {
            old(self).remaining().drop_first()
        } else {
            old(self).remaining()
        });
        match r {
            Some((_, v)) => Some(v),
            None => None,
        }
    }
}

/// A walk over the values of the occupied slots, in ascending order of index,
/// through which they can be changed.
pub struct ValuesMut<'a, T> {
    iter: IterMut<'a, T>,
}

impl<'a, T> ValuesMut<'a, T> {
    /// The container being walked.
    pub closed spec fn container(&self) -> &'a mut SparseSlot<T> {
        self.iter.container()
    }

    pub closed spec fn wf(&self) -> bool {
        self.iter.wf()
    }

    /// The identifiers and values still to be visited, in order.
    pub closed spec fn remaining(&self) -> Seq<(Id, T)> {
        self.iter.remaining()
    }

    /// Once nothing more is written through the walk, the container stands as
    /// it is now.
    pub proof fn lemma_finished(self)
        requires
            has_resolved(self),
        ensures
            *final(self.container()) == *self.container(),
    {
        self.iter.lemma_finished();
    }

    /// Yields the next value, or `None` once the walk is over.
    pub fn next(&mut self) -> (r: Option<&mut T>)
        requires
            old(self).wf(),
        ensures
            final(self).wf(),
            *final(final(self).container()) == *final(old(self).container()),
            (*final(self).container()).wf(),
            (*final(self).container()).policy() == (*old(self).container()).policy(),
            (*final(self).container()).layout() == (*old(self).container()).layout(),
            match r {
                None => old(self).remaining().len() == 0,
                Some(_) => old(self).remaining().len() > 0,
            },
            r is None ==> final(self).remaining() == old(self).remaining(),
            r is None ==> (*final(self).container())@ == (*old(self).container())@,
            r is Some ==> final(self).remaining() == old(self).remaining().drop_first(),
            match r {
                Some(v) => {
                    &&& old(self).remaining()[0].1 == *v
                    &&& (*final(self).container())@ == (*old(self).container())@.update(
                        old(self).remaining()[0].0.index as int,
                        (old(self).remaining()[0].0.generation, Some(*final(v))),
                    )
                },
                None => true,
            },
    {
        match self.iter.next() {
            Some((_, v)) => Some(v),
            None => None,
        }
    }
}

/// A walk that takes the values out of a container it owns, in ascending
/// order of index, each with the identifier it was stored under.
pub struct IntoIter<T> {
    items: Vec<Entry<T>>,
    layout: Layout,
    next_index: Option<usize>,
}

impl<T> IntoIter<T> {
    pub closed spec fn wf(&self) -> bool {
        walk_ok(self.items@, self.layout, self.next_index)
    }

    /// The identifiers and values still to be yielded, in order.
    pub closed spec fn remaining(&self) -> Seq<(Id, T)> {
        remaining_from(self.items@, self.next_index)
    }

    /// Yields the next entry, or `None` once the walk is over.
    pub fn next(&mut self) -> (r: Option<(Id, T)>)
        requires
            old(self).wf(),
        ensures
            final(self).wf(),
            match r {
                None => old(self).remaining().len() == 0 && final(self).remaining() == old(
                    self,
                ).remaining(),
                Some(p) => old(self).remaining().len() > 0 && old(self).remaining()[0] == p
                    && final(self).remaining() == old(self).remaining().drop_first(),
            },
    {
        let ghost e = self.items@;
        match walk_step(&self.items, self.layout, self.next_index) {
            None => None,
            Some((current, following)) => {
                let generation = self.items[current].generation;
                let taken = self.items[current].item.take();
                self.next_index = following;
                proof {
                    lemma_walk_frame(e, self.items@, self.layout, following);
                    assert(remaining_from(e, old(self).next_index).drop_first() =~= remaining_from(e, following));
                }
                match taken {
                    Some(v) => Some((Id::new(current, generation), v)),
                    None => None,
                }
            },
        }
    }
}

/// A walk that removes each occupied slot as it yields it, in ascending order
/// of index; what it has not reached stays in the container.
pub struct Drain<'a, T> {
    slot: &'a mut SparseSlot<T>,
}

impl<'a, T> Drain<'a, T> {
    /// The container being drained.
    pub closed spec fn container(&self) -> &'a mut SparseSlot<T> {
        self.slot
    }

    pub closed spec fn wf(&self) -> bool {
        self.slot.wf()
    }

    /// Once the drain is dropped, the container stands as it is now.
    pub proof fn lemma_finished(self)
        requires
            has_resolved(self),
        ensures
            *final(self.container()) == *self.container(),
    {
    }

    /// Removes the occupied slot of lowest index and yields it under the
    /// identifier it was stored with.
    pub fn next(&mut self) -> (r: Option<(Id, T)>)
        requires
            old(self).wf(),
        ensures
            final(self).wf(),
            *final(final(self).container()) == *final(old(self).container()),
            (*final(self).container()).wf(),
            (*final(self).container()).policy() == (*old(self).container()).policy(),
            (*final(self).container()).layout() == (*old(self).container()).layout(),
            (*final(self).container())@ == after_drain_step((*old(self).container())@),
            match r {
                None => live((*old(self).container())@).len() == 0,
                Some(p) => live((*old(self).container())@).len() > 0 && p == live(
                    (*old(self).container())@,
                )[0],
            },
    {
        match self.slot.first_id() {
            None => None,
            Some(id) => {
                proof {
                    let s = self.slot@;
                    self.slot.lemma_unfold();
                    lemma_live_range_facts(s, 0, s.len() as int);
                }
                match self.slot.remove(id) {
                    Some(v) => Some((id, v)),
                    None => None,
                }
            },
        }
    }
}

impl<T> SparseSlot<T> {
    /// A walk over the occupied slots in ascending order of index.
    pub fn iter(&self) -> (r: Iter<'_, T>)
        requires
            self.wf(),
        ensures
            r.wf(),
            r.remaining() == live(self@),
    {
        proof {
            self.lemma_unfold();
            lemma_walk_start(self.items@, self.layout, self.first_occupied);
        }
        let start = match self.layout {
            Layout::Ordered => self.first_occupied,
            Layout::Flat => Some(0),
        };
        Iter { items: &self.items, layout: self.layout, next_index: start }
    }

    /// A walk over the occupied slots in ascending order of index, through
    /// which their values can be changed.
    pub fn iter_mut(&mut self) -> (r: IterMut<'_, T>)
        requires
            old(self).wf(),
        ensures
            r.wf(),
            r.remaining() == live(old(self)@),
            *r.container() == *old(self),
            *final(r.container()) == *final(self),
    {
        proof {
            self.lemma_unfold();
            lemma_walk_start(self.items@, self.layout, self.first_occupied);
        }
        let start = match self.layout {
            Layout::Ordered => self.first_occupied,
            Layout::Flat => Some(0),
        };
        IterMut { slot: self, next_index: start }
    }

    /// The identifiers of the occupied slots, in ascending order.
    pub fn keys(&self) -> (r: Keys<'_, T>)
        requires
            self.wf(),
        ensures
            r.wf(),
            r.remaining() == live_ids(self@),
    {
        Keys { iter: self.iter() }
    }

    /// The values of the occupied slots, in ascending order of index.
    pub fn values(&self) -> (r: Values<'_, T>)
        requires
            self.wf(),
        ensures
            r.wf(),
            r.remaining() == live_values(self@),
    {
        Values { iter: self.iter() }
    }

    /// The values of the occupied slots, in ascending order of index, through
    /// which they can be changed.
    pub fn values_mut(&mut self) -> (r: ValuesMut<'_, T>)
        requires
            old(self).wf(),
        ensures
            r.wf(),
            r.remaining() == live(old(self)@),
            *r.container() == *old(self),
            *final(r.container()) == *final(self),
    {
        ValuesMut { iter: self.iter_mut() }
    }

    /// A walk that removes each occupied slot as it is yielded.
    pub fn drain(&mut self) -> (r: Drain<'_, T>)
        requires
            old(self).wf(),
        ensures
            r.wf(),
            *r.container() == *old(self),
            *final(r.container()) == *final(self),
    {
        Drain { slot: self }
    }

    /// Consumes the container into a walk that yields its values.
    pub fn into_iter(self) -> (r: IntoIter<T>)
        requires
            self.wf(),
        ensures
            r.wf(),
            r.remaining() == live(self@),
    {
        proof {
            self.lemma_unfold();
            lemma_walk_start(self.items@, self.layout, self.first_occupied);
        }
        let start = match self.layout {
            Layout::Ordered => self.first_occupied,
            Layout::Flat => Some(0),
        };
        IntoIter { items: self.items, layout: self.layout, next_index: start }
    }
}

} // verus!
