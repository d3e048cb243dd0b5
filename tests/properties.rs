use sparse_slot::{GenerationPolicy, Id, Layout, SparseSlot, SparseSlotError};

fn live_ids(slot: &SparseSlot<u32>) -> Vec<Id> {
    let mut ids = Vec::new();
    let mut it = slot.keys();
    while let Some(id) = it.next() {
        ids.push(id);
    }
    ids
}

#[test]
fn round_trip_returns_inserted_value() {
    let mut slot = SparseSlot::new(4);
    let id = Id::new(3, 0);
    assert_eq!(slot.try_set(id, 17u32), Ok(()));
    assert_eq!(slot.get(id), Some(&17));
    assert_eq!(slot.get_mut(id).map(|v| *v), Some(17));
}

#[test]
fn stale_identifier_reaches_nothing() {
    let mut slot = SparseSlot::new(2);
    let id = Id::new(0, 0);
    slot.try_set(id, 5u32).unwrap();
    assert_eq!(slot.remove(id), Some(5));
    assert_eq!(slot.get(id), None);
    assert!(slot.get_mut(id).is_none());
    assert_eq!(slot.remove(id), None);
    slot.try_set(id.next(), 6).unwrap();
    assert_eq!(slot.get(id), None);
    assert_eq!(slot.remove(id), None);
    assert_eq!(slot.get(id.next()), Some(&6));
}

#[test]
fn removal_advances_generation_by_one() {
    let mut slot = SparseSlot::new(1);
    slot.try_set(Id::new(0, 0), 1u32).unwrap();
    slot.remove(Id::new(0, 0));
    assert_eq!(
        slot.try_set(Id::new(0, 2), 2),
        Err(SparseSlotError::GenerationMismatch(1))
    );
    assert_eq!(slot.try_set(Id::new(0, 1), 2), Ok(()));
    assert_eq!(slot.first_id(), Some(Id::new(0, 1)));
}

#[test]
fn generation_wraps_after_255() {
    let mut slot = SparseSlot::new(1);
    let mut id = Id::new(0, 0);
    for _ in 0..256 {
        slot.try_set(id, 0u32).unwrap();
        slot.remove(id);
        id = id.next();
    }
    assert_eq!(id, Id::new(0, 0));
    assert_eq!(Id::new(0, 255).next(), Id::new(0, 0));
    assert!(slot.try_set(Id::new(0, 0), 9).is_ok());
}

#[test]
fn caller_asserted_policy_records_generation() {
    let mut slot = SparseSlot::with_config(2, Layout::Ordered, GenerationPolicy::CallerAsserted);
    let id = Id::new(1, 0);
    slot.try_set(id, 42u32).unwrap();
    assert_eq!(slot.remove(id), Some(42));
    assert_eq!(slot.try_set(id, 43), Ok(()));
    assert_eq!(slot.get(id), Some(&43));
    assert_eq!(slot.try_set(Id::new(0, 7), 1), Ok(()));
    assert_eq!(slot.first_id(), Some(Id::new(0, 7)));
    assert_eq!(slot.try_set(Id::new(0, 3), 1), Err(SparseSlotError::Occupied(0)));
}

#[test]
fn iteration_is_ascending_whatever_the_insertion_order() {
    let mut slot = SparseSlot::new(8);
    for index in [5usize, 1, 7, 0, 3] {
        slot.try_set(Id::new(index, 0), index as u32).unwrap();
    }
    slot.remove(Id::new(3, 0));
    let ids = live_ids(&slot);
    let indices: Vec<usize> = ids.iter().map(|id| id.index()).collect();
    assert_eq!(indices, vec![0, 1, 5, 7]);
    let mut values = Vec::new();
    let mut it = slot.values();
    while let Some(v) = it.next() {
        values.push(*v);
    }
    assert_eq!(values, vec![0, 1, 5, 7]);
}

#[test]
fn scenario_c_index_zero_before_two() {
    let mut slot = SparseSlot::new(3);
    slot.try_set(Id::new(2, 0), "two").unwrap();
    slot.try_set(Id::new(0, 0), "zero").unwrap();
    let mut it = slot.iter();
    assert_eq!(it.next(), Some((Id::new(0, 0), &"zero")));
    assert_eq!(it.next(), Some((Id::new(2, 0), &"two")));
    assert_eq!(it.next(), None);
}

#[test]
fn capacity_never_changes() {
    let mut slot = SparseSlot::new(3);
    slot.try_set(Id::new(0, 0), 1u32).unwrap();
    let _ = slot.try_set(Id::new(5, 0), 1);
    slot.remove(Id::new(0, 0));
    slot.clear();
    assert_eq!(slot.capacity(), 3);
}

#[test]
fn zero_capacity_is_always_empty() {
    let mut slot: SparseSlot<u32> = SparseSlot::new(0);
    assert_eq!(slot.capacity(), 0);
    assert!(slot.is_empty());
    assert_eq!(
        slot.try_set(Id::new(0, 0), 1),
        Err(SparseSlotError::IndexOutOfBounds(0))
    );
    assert_eq!(slot.get(Id::new(0, 0)), None);
    assert_eq!(slot.remove(Id::new(0, 0)), None);
    assert_eq!(slot.first_id(), None);
    assert_eq!(slot.last_id(), None);
}

#[test]
fn out_of_range_lookups_are_absent() {
    let mut slot: SparseSlot<u32> = SparseSlot::new(2);
    assert_eq!(slot.get(Id::new(9, 0)), None);
    assert!(slot.get_mut(Id::new(9, 0)).is_none());
    assert_eq!(slot.remove(Id::new(9, 0)), None);
}

#[test]
fn full_drain_matches_iteration_and_empties() {
    let mut slot = SparseSlot::new(6);
    for index in [4usize, 0, 2] {
        slot.try_set(Id::new(index, 0), index as u32 * 10).unwrap();
    }
    let mut before = Vec::new();
    let mut it = slot.iter();
    while let Some((id, v)) = it.next() {
        before.push((id, *v));
    }
    let mut drained = Vec::new();
    let mut d = slot.drain();
    while let Some(p) = d.next() {
        drained.push(p);
    }
    assert_eq!(drained, before);
    assert_eq!(slot.len(), 0);
    assert_eq!(slot.capacity(), 6);
    assert_eq!(slot.try_set(Id::new(0, 1), 1), Ok(()));
}

#[test]
fn partial_drain_keeps_the_rest() {
    let mut slot = SparseSlot::new(6);
    for index in [1usize, 3, 5] {
        slot.try_set(Id::new(index, 0), index as u32).unwrap();
    }
    {
        let mut d = slot.drain();
        assert_eq!(d.next(), Some((Id::new(1, 0), 1)));
    }
    assert_eq!(live_ids(&slot), vec![Id::new(3, 0), Id::new(5, 0)]);
    assert_eq!(slot.get(Id::new(1, 0)), None);
    assert_eq!(slot.get(Id::new(3, 0)), Some(&3));
    assert_eq!(slot.first_id(), Some(Id::new(3, 0)));
    assert_eq!(slot.len(), 2);
}

#[test]
fn scenario_d_errors() {
    let mut slot = SparseSlot::new(1);
    assert_eq!(slot.try_set(Id::new(0, 0), 1u32), Ok(()));
    assert_eq!(slot.try_set(Id::new(0, 0), 2), Err(SparseSlotError::Occupied(0)));
    assert_eq!(
        slot.try_set(Id::new(999, 0), 3),
        Err(SparseSlotError::IndexOutOfBounds(999))
    );
}

#[test]
fn last_id_finds_highest_occupied() {
    let mut slot = SparseSlot::new(5);
    assert_eq!(slot.last_id(), None);
    slot.try_set(Id::new(1, 0), 1u32).unwrap();
    slot.try_set(Id::new(3, 0), 3).unwrap();
    assert_eq!(slot.last_id(), Some(Id::new(3, 0)));
    slot.remove(Id::new(3, 0));
    assert_eq!(slot.last_id(), Some(Id::new(1, 0)));
}

#[test]
fn get_mut_changes_only_the_value() {
    let mut slot = SparseSlot::new(2);
    let id = Id::new(1, 0);
    slot.try_set(id, 1u32).unwrap();
    *slot.get_mut(id).unwrap() = 8;
    assert_eq!(slot.get(id), Some(&8));
    assert_eq!(live_ids(&slot), vec![id]);
}

#[test]
fn from_pairs_skips_refused_and_has_room() {
    let pairs = vec![
        (Id::new(2, 0), 1u32),
        (Id::new(2, 0), 2),
        (Id::new(0, 3), 3),
        (Id::new(20, 0), 4),
    ];
    let slot = SparseSlot::from_pairs(pairs);
    assert_eq!(slot.capacity(), 16);
    assert_eq!(slot.len(), 1);
    assert_eq!(slot.get(Id::new(2, 0)), Some(&1));

    let many: Vec<(Id, u32)> = (0..20).map(|i| (Id::new(i, 0), i as u32)).collect();
    let slot = SparseSlot::from_pairs(many);
    assert_eq!(slot.capacity(), 20);
    assert_eq!(slot.len(), 20);
    assert_eq!(slot.last_id(), Some(Id::new(19, 0)));
}

#[test]
fn clear_advances_each_occupied_generation_once() {
    let mut slot = SparseSlot::new(3);
    slot.try_set(Id::new(0, 0), 1u32).unwrap();
    slot.clear();
    assert_eq!(slot.try_set(Id::new(0, 1), 1), Ok(()));
    assert_eq!(
        slot.try_set(Id::new(1, 1), 1),
        Err(SparseSlotError::GenerationMismatch(0))
    );
}

#[test]
fn id_accessors_and_conversion() {
    let id = Id::new(7, 3);
    assert_eq!(id.index(), 7);
    assert_eq!(id.generation(), 3);
    assert_eq!(id.next(), Id::new(7, 4));
    assert_eq!(Id::from(((7usize, 3u8),)), id);
    assert!(Id::new(1, 9) < Id::new(2, 0));
    assert!(Id::new(1, 0) < Id::new(1, 1));
}

#[test]
fn into_iter_yields_in_order() {
    let mut slot = SparseSlot::new(4);
    slot.try_set(Id::new(3, 0), "c").unwrap();
    slot.try_set(Id::new(1, 0), "a").unwrap();
    let mut it = slot.into_iter();
    assert_eq!(it.next(), Some((Id::new(1, 0), "a")));
    assert_eq!(it.next(), Some((Id::new(3, 0), "c")));
    assert_eq!(it.next(), None);
}

fn flat() -> SparseSlot<u32> {
    SparseSlot::with_config(6, Layout::Flat, GenerationPolicy::Enforced)
}

#[test]
fn flat_layout_iterates_in_ascending_order() {
    let mut slot = flat();
    for index in [4usize, 0, 2] {
        slot.try_set(Id::new(index, 0), index as u32).unwrap();
    }
    assert_eq!(live_ids(&slot), vec![Id::new(0, 0), Id::new(2, 0), Id::new(4, 0)]);
    assert_eq!(slot.first_id(), Some(Id::new(0, 0)));
    assert_eq!(slot.last_id(), Some(Id::new(4, 0)));
    slot.remove(Id::new(0, 0));
    assert_eq!(slot.first_id(), Some(Id::new(2, 0)));
    assert_eq!(slot.len(), 2);
}

#[test]
fn flat_layout_enforces_generations() {
    let mut slot = flat();
    slot.try_set(Id::new(1, 0), 42).unwrap();
    assert_eq!(slot.remove(Id::new(1, 0)), Some(42));
    assert_eq!(
        slot.try_set(Id::new(1, 0), 43),
        Err(SparseSlotError::GenerationMismatch(1))
    );
    assert_eq!(slot.try_set(Id::new(1, 1), 43), Ok(()));
    assert_eq!(slot.get(Id::new(1, 1)), Some(&43));
    assert_eq!(slot.try_set(Id::new(1, 1), 44), Err(SparseSlotError::Occupied(1)));
    assert_eq!(
        slot.try_set(Id::new(6, 0), 1),
        Err(SparseSlotError::IndexOutOfBounds(6))
    );
}

#[test]
fn flat_layout_walks_and_drains() {
    let mut slot = flat();
    slot.try_set(Id::new(5, 0), 5).unwrap();
    slot.try_set(Id::new(3, 0), 3).unwrap();
    let mut it = slot.iter_mut();
    while let Some((id, v)) = it.next() {
        *v += id.index() as u32;
    }
    assert_eq!(slot.get(Id::new(3, 0)), Some(&6));
    let mut values = Vec::new();
    let mut it = slot.values();
    while let Some(v) = it.next() {
        values.push(*v);
    }
    assert_eq!(values, vec![6, 10]);
    {
        let mut d = slot.drain();
        assert_eq!(d.next(), Some((Id::new(3, 0), 6)));
    }
    assert_eq!(live_ids(&slot), vec![Id::new(5, 0)]);
    let mut it = slot.into_iter();
    assert_eq!(it.next(), Some((Id::new(5, 0), 10)));
    assert_eq!(it.next(), None);
}

#[test]
fn flat_layout_clear() {
    let mut slot = flat();
    slot.try_set(Id::new(0, 0), 1).unwrap();
    slot.try_set(Id::new(5, 0), 2).unwrap();
    slot.clear();
    assert!(slot.is_empty());
    assert_eq!(slot.first_id(), None);
    assert_eq!(slot.try_set(Id::new(5, 1), 3), Ok(()));
}

#[test]
fn containers_compare_by_contents() {
    let mut a = SparseSlot::new(2);
    let mut b = SparseSlot::new(2);
    assert_eq!(a, b);
    a.try_set(Id::new(0, 0), 1u32).unwrap();
    assert_ne!(a, b);
    b.try_set(Id::new(0, 0), 1u32).unwrap();
    assert_eq!(a, b);
    assert!(format!("{:?}", a).contains("SparseSlot"));
}

#[test]
fn clear_matches_a_full_drain() {
    let mut a = SparseSlot::new(5);
    for index in [3usize, 0, 4] {
        a.try_set(Id::new(index, 0), index as u32).unwrap();
    }
    let mut b = SparseSlot::new(5);
    for index in [0usize, 4, 3] {
        b.try_set(Id::new(index, 0), index as u32).unwrap();
    }
    a.clear();
    let mut d = b.drain();
    while d.next().is_some() {}
    assert_eq!(a, b);
    assert_eq!(b.try_set(Id::new(3, 1), 9), Ok(()));
}
