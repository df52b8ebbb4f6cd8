use stash::{Stash, Tag, UniqueStash, VerStash};

#[test]
fn capacity_is_as_asked() {
    let stash: Stash<i32> = Stash::with_capacity(10);
    assert!(stash.capacity() >= 10);
    assert_eq!(stash.len(), 0);
    let unique: UniqueStash<i32> = UniqueStash::with_capacity(10);
    assert!(unique.capacity() >= 10);
    let ver: VerStash<i32> = VerStash::with_capacity(10);
    assert!(ver.capacity() >= 10);
    assert!(ver.is_empty());
}

#[test]
fn reserve_makes_room() {
    let mut stash: Stash<i32> = Stash::new();
    stash.put(1);
    stash.reserve(10);
    assert!(stash.capacity() >= 11);
    assert_eq!(stash.len(), 1);
    assert_eq!(stash.get(0), Some(&1));
    let mut unique: UniqueStash<i32> = UniqueStash::new();
    let tag = unique.put(1);
    unique.reserve(10);
    assert!(unique.capacity() >= 11);
    assert_eq!(unique.get(tag), Some(&1));
}

#[test]
fn reserve_exact_makes_room() {
    let mut stash: Stash<i32> = Stash::new();
    stash.put(1);
    stash.reserve_exact(10);
    assert!(stash.capacity() >= 11);
    assert_eq!(stash.get(0), Some(&1));
    let mut unique: UniqueStash<i32> = UniqueStash::new();
    let tag = unique.put(1);
    unique.reserve_exact(10);
    assert!(unique.capacity() >= 11);
    assert_eq!(unique.get(tag), Some(&1));
    let mut ver: VerStash<i32> = VerStash::new();
    ver.put(1);
    ver.reserve_exact(3);
    ver.reserve(5);
    assert!(ver.capacity() >= 6);
}

#[test]
fn reserve_counts_vacant_slots() {
    let mut stash: Stash<i32> = Stash::with_capacity(4);
    for value in 0..4 {
        stash.put(value);
    }
    stash.take(0);
    stash.take(1);
    let before = stash.capacity();
    stash.reserve(2);
    assert_eq!(stash.capacity(), before);
}

#[test]
fn stored_form_lists_every_slot() {
    let mut stash = UniqueStash::new();
    let tags: Vec<Tag> = (0..4).map(|value| stash.put(value)).collect();
    stash.take(tags[1]);
    stash.take(tags[2]);
    stash.put(20);
    let slots = stash.to_slots();
    assert_eq!(slots, vec![(0, Some(&0)), (1, None), (1, Some(&20)), (0, Some(&3))]);
}

#[test]
fn restored_stash_chains_vacant_slots() {
    let mut stash =
        UniqueStash::from_slots(vec![(5, None), (0, Some("a")), (7, None), (2, Some("b")), (1, None)]);
    assert_eq!(stash.len(), 2);
    assert_eq!(stash.get(Tag::new(1, 0)), Some(&"a"));
    assert_eq!(stash.get(Tag::new(3, 2)), Some(&"b"));
    assert_eq!(stash.get(Tag::new(0, 5)), None);
    assert_eq!(stash.take(Tag::new(2, 7)), None);
    assert_eq!(stash.put("c"), Tag::new(4, 1));
    assert_eq!(stash.put("d"), Tag::new(2, 7));
    assert_eq!(stash.put("e"), Tag::new(0, 5));
    assert_eq!(stash.put("f"), Tag::new(5, 0));
    assert_eq!(stash.len(), 6);
}

#[test]
fn restored_empty_and_full() {
    let mut empty: UniqueStash<u8> = UniqueStash::from_slots(Vec::new());
    assert!(empty.is_empty());
    assert_eq!(empty.put(1), Tag::new(0, 0));
    let mut full = UniqueStash::from_slots(vec![(3, Some(1)), (4, Some(2))]);
    assert_eq!(full.len(), 2);
    assert_eq!(full.put(3), Tag::new(2, 0));
    let mut vacant: UniqueStash<u8> = UniqueStash::from_slots(vec![(3, None)]);
    assert_eq!(vacant.len(), 0);
    assert_eq!(vacant.put(3), Tag::new(0, 3));
    assert_eq!(vacant.put(4), Tag::new(1, 0));
}

#[test]
fn old_keys_stay_dead_after_restoring() {
    let mut stash = UniqueStash::new();
    let old = stash.put(1);
    stash.take(old);
    let live = stash.put(2);
    let slots: Vec<(u64, Option<i32>)> =
        stash.to_slots().into_iter().map(|(version, value)| (version, value.copied())).collect();
    let mut again = UniqueStash::from_slots(slots);
    assert_eq!(again.get(old), None);
    assert_eq!(again.take(old), None);
    assert_eq!(again.get(live), Some(&2));
    assert_eq!(again.take(live), Some(2));
    assert_eq!(again.put(3), Tag::new(0, 2));
}
