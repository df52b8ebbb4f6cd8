use stash::{Index, Stash, Tag, UniqueStash, VerStash};

#[test]
fn reuse_is_last_in_first_out() {
    let mut stash: Stash<String> = Stash::new();
    for value in 0..=10usize {
        assert_eq!(stash.put(value.to_string()), value);
    }
    assert_eq!(stash.len(), 11);
    assert_eq!(stash.take(0), Some(String::from("0")));
    assert_eq!(stash.take(3), Some(String::from("3")));
    assert_eq!(stash.take(9), Some(String::from("9")));
    assert_eq!(stash.len(), 8);
    assert_eq!(stash.next_index(), 9);
    assert_eq!(stash.put(String::from("something")), 9);
    assert_eq!(stash.len(), 9);
    assert_eq!(stash.get(9), Some(&String::from("something")));
    assert_eq!(stash.put(String::from("else")), 3);
    assert_eq!(stash.put(String::from("again")), 0);
    assert_eq!(stash.put(String::from("new")), 11);
    assert_eq!(stash.len(), 12);
}

#[test]
fn size_after_ten_puts_and_three_takes() {
    let mut stash = Stash::new();
    for value in 0..10 {
        stash.put(value);
    }
    assert_eq!(stash.len(), 10);
    stash.take(0);
    stash.take(3);
    stash.take(9);
    assert_eq!(stash.len(), 7);
    assert_eq!(stash.put(100), 9);
    assert_eq!(stash.len(), 8);
    assert_eq!(stash.put(101), 3);
    assert_eq!(stash.len(), 9);
}

#[test]
fn versioned_key_is_not_reused() {
    let mut stash = UniqueStash::new();
    let k0 = stash.put(1);
    assert_eq!(k0, Tag::new(0, 0));
    assert_eq!(stash.take(k0), Some(1));
    assert_eq!(stash.take(k0), None);
    let k1 = stash.put(3);
    assert_eq!(k1, Tag::new(0, 1));
    assert!(k1 != k0);
    assert_eq!(stash.get(k0), None);
    assert_eq!(stash.get(k1), Some(&3));
}

#[test]
fn size_counts_live_keys() {
    let mut stash = Stash::new();
    let mut live: Vec<(usize, usize)> = Vec::new();
    for round in 0..20usize {
        live.push((stash.put(round), round));
        assert_eq!(stash.len(), live.len());
        if round % 3 == 2 {
            let (key, value) = live.remove(round % live.len());
            assert_eq!(stash.take(key), Some(value));
            assert_eq!(stash.len(), live.len());
            assert_eq!(stash.take(key), None);
            assert_eq!(stash.len(), live.len());
        }
        assert_eq!(stash.is_empty(), live.is_empty());
    }
    assert_eq!(stash.len(), 14);
}

#[test]
fn put_then_take_gives_the_value_back() {
    let mut stash = Stash::new();
    let mut unique = UniqueStash::new();
    for value in 0..50u32 {
        let key = stash.put(value);
        assert_eq!(stash.get(key), Some(&value));
        assert_eq!(stash.take(key), Some(value));
        assert_eq!(stash.get(key), None);
        let tag = unique.put(value);
        assert_eq!(unique.get(tag), Some(&value));
        assert_eq!(unique.take(tag), Some(value));
        assert_eq!(unique.get(tag), None);
        assert_eq!(tag, Tag::new(0, value as u64));
    }
}

#[test]
fn taken_key_stays_dead_over_many_cycles() {
    let mut stash = UniqueStash::new();
    let first = stash.put(0u32);
    stash.take(first);
    for round in 1..1000u32 {
        let tag = stash.put(round);
        assert_eq!(tag.offset(), 0);
        assert_eq!(tag.version(), round as u64);
        assert_eq!(stash.get(first), None);
        assert_eq!(stash.take(first), None);
        assert_eq!(stash.take(tag), Some(round));
    }
}

#[test]
fn version_wraps_at_the_last_version() {
    let mut stash = UniqueStash::from_slots(vec![(u64::MAX, Some(7))]);
    let last = Tag::new(0, u64::MAX);
    assert_eq!(stash.get(last), Some(&7));
    assert_eq!(stash.take(last), Some(7));
    let wrapped = stash.put(8);
    assert_eq!(wrapped, Tag::new(0, 0));
    assert_eq!(stash.get(last), None);
    assert_eq!(stash.get(wrapped), Some(&8));
    stash.clear();
    assert_eq!(stash.put(9), Tag::new(0, 1));
}

#[test]
fn same_calls_give_same_keys() {
    let mut numbers: Stash<u64> = Stash::new();
    let mut words: Stash<String> = Stash::new();
    let mut tagged_numbers: UniqueStash<u64> = UniqueStash::new();
    let mut tagged_words: VerStash<String> = VerStash::new();
    let script = [0usize, 0, 0, 1, 0, 2, 0, 0, 1, 1, 2, 0, 2, 2, 0, 0, 1, 0];
    let mut keys = Vec::new();
    let mut tags = Vec::new();
    for (step, kind) in script.iter().enumerate() {
        if *kind == 0 {
            let key = numbers.put(step as u64);
            assert_eq!(key, words.put(format!("word {}", step)));
            let tag = tagged_numbers.put(step as u64);
            assert_eq!(tag, tagged_words.put(format!("word {}", step)));
            keys.push(key);
            tags.push(tag);
        } else {
            let at = (step * 7) % keys.len();
            let key = keys[at];
            assert_eq!(numbers.take(key).is_some(), words.take(key).is_some());
            let tag = tags[at];
            assert_eq!(tagged_numbers.take(tag).is_some(), tagged_words.take(tag).is_some());
        }
        assert_eq!(numbers.len(), words.len());
        assert_eq!(tagged_numbers.len(), tagged_words.len());
    }
    assert_eq!(keys, vec![0, 1, 2, 0, 0, 3, 0, 0, 2, 0]);
}

#[test]
fn keys_stay_below_the_largest_size() {
    let mut stash = Stash::new();
    let mut peak = 0;
    let mut live: Vec<usize> = Vec::new();
    for step in 0..200usize {
        if step % 5 < 3 {
            let next = stash.next_index();
            let key = stash.put(step);
            assert_eq!(key, next);
            live.push(key);
            if stash.len() > peak {
                peak = stash.len();
            }
            assert!(key < peak);
        } else {
            let key = live.swap_remove(step % live.len());
            assert_eq!(stash.take(key).map(|_| ()), Some(()));
        }
        assert!(stash.capacity() >= peak);
    }
    assert_eq!(peak, 42);
}

#[test]
fn cleared_stash_is_like_new() {
    let mut stash = Stash::new();
    for value in 0..5 {
        stash.put(value);
    }
    stash.take(1);
    stash.clear();
    assert_eq!(stash.len(), 0);
    assert!(stash.is_empty());
    assert_eq!(stash.get(0), None);
    assert_eq!(stash.values().next(), None);
    for value in 0..7 {
        assert_eq!(stash.put(value), value);
    }
}

#[test]
fn cleared_unique_stash_bumps_versions() {
    let mut stash = UniqueStash::new();
    let tags: Vec<Tag> = (0..4).map(|value| stash.put(value)).collect();
    assert_eq!(stash.take(tags[1]), Some(1));
    stash.clear();
    assert_eq!(stash.len(), 0);
    for tag in &tags {
        assert_eq!(stash.get(*tag), None);
        assert_eq!(stash.take(*tag), None);
    }
    // The live slots were vacated in ascending order, each becoming the
    // head of the free list.
    assert_eq!(stash.put(10), Tag::new(3, 1));
    assert_eq!(stash.put(11), Tag::new(2, 1));
    assert_eq!(stash.put(12), Tag::new(0, 1));
    assert_eq!(stash.put(13), Tag::new(1, 1));
    assert_eq!(stash.put(14), Tag::new(4, 0));
}

#[test]
fn unchecked_access_to_live_keys() {
    let mut stash = Stash::new();
    let a = stash.put(1);
    let b = stash.put(2);
    assert_eq!(*stash.get_unchecked(a), 1);
    *stash.get_unchecked_mut(b) = 20;
    assert_eq!(stash.take_unchecked(b), 20);
    assert_eq!(stash.len(), 1);
    assert_eq!(stash.put(3), b);
}

#[test]
fn missing_keys_are_none() {
    let mut stash: Stash<u8> = Stash::new();
    assert_eq!(stash.get(0), None);
    assert_eq!(stash.get_mut(5), None);
    assert_eq!(stash.take(usize::MAX), None);
    let mut unique: UniqueStash<u8> = UniqueStash::new();
    assert_eq!(unique.get(Tag::new(0, 0)), None);
    assert_eq!(unique.get_mut(Tag::new(usize::MAX, 0)), None);
    assert_eq!(unique.take(Tag::new(3, 9)), None);
    let tag = unique.put(1);
    assert_eq!(unique.get(Tag::new(tag.offset(), tag.version() + 1)), None);
    assert_eq!(unique.get(Tag::new(tag.offset() + 1, tag.version())), None);
    assert_eq!(unique.len(), 1);
}

#[derive(Clone, Copy, Debug, PartialEq)]
struct Small(u16);

impl Index for Small {
    fn representable(idx: usize) -> bool {
        idx <= u16::MAX as usize
    }

    fn offset(self) -> usize {
        self.0 as usize
    }

    fn from_usize(idx: usize) -> Self {
        if idx > u16::MAX as usize {
            panic!("index type overflowing!");
        }
        Small(idx as u16)
    }

    fn into_usize(self) -> usize {
        self.0 as usize
    }
}

#[test]
fn custom_index() {
    let mut stash: Stash<&str, Small> = Stash::default();
    let key1 = stash.put("foo");
    let key2 = stash.put("bar");
    let key3 = stash.put("baz");
    assert_eq!(key1, Small(0));
    assert_eq!(stash.get(key1), Some(&"foo"));
    assert_eq!(stash.get(key2), Some(&"bar"));
    assert_eq!(stash.get(key3), Some(&"baz"));
    assert_eq!(stash.len(), 3);
    assert_eq!(stash.take(key2), Some("bar"));
    assert_eq!(stash.len(), 2);
    let key4 = stash.put("bin");
    assert_eq!(key4, key2);
    assert_eq!(stash.len(), 3);
    let mut values = Vec::new();
    let mut iter = stash.into_iter();
    while let Some((_, value)) = iter.next() {
        values.push(value);
    }
    values.sort();
    assert_eq!(values, vec!["baz", "bin", "foo"]);
}

#[test]
fn clone_keeps_keys_and_values() {
    let mut stash = Stash::new();
    let a = stash.put(String::from("a"));
    let b = stash.put(String::from("b"));
    stash.take(a);
    let mut copy = stash.clone();
    assert_eq!(copy.len(), 1);
    assert_eq!(copy.get(b), Some(&String::from("b")));
    assert_eq!(copy.put(String::from("c")), stash.put(String::from("d")));
    let mut unique = UniqueStash::new();
    let t = unique.put(5);
    unique.take(t);
    let u = unique.put(6);
    let mut twin = unique.clone();
    assert_eq!(twin.get(t), None);
    assert_eq!(twin.get(u), Some(&6));
    assert_eq!(twin.put(7), unique.put(8));
}
