use stash::{Stash, Tag, UniqueStash, VerStash};

fn sample() -> Stash<u32> {
    let mut stash = Stash::new();
    for value in 0..8 {
        stash.put(value * 10);
    }
    stash.take(0);
    stash.take(4);
    stash.take(7);
    stash
}

#[test]
fn iteration_yields_each_live_value_once() {
    let stash = sample();
    let mut iter = stash.iter();
    assert_eq!(iter.len(), stash.len());
    assert_eq!(iter.size_hint(), (5, Some(5)));
    let mut seen = Vec::new();
    while let Some((key, value)) = iter.next() {
        assert_eq!(stash.get(key), Some(value));
        seen.push(key);
        assert_eq!(iter.len(), 5 - seen.len());
    }
    assert_eq!(seen, vec![1, 2, 3, 5, 6]);
    assert_eq!(iter.next(), None);
    assert_eq!(iter.next_back(), None);
    assert_eq!(iter.len(), 0);
}

#[test]
fn backward_is_forward_reversed() {
    let stash = sample();
    let mut forward = Vec::new();
    let mut iter = stash.iter();
    while let Some((key, value)) = iter.next() {
        forward.push((key, *value));
    }
    let mut backward = Vec::new();
    let mut iter = stash.iter();
    while let Some((key, value)) = iter.next_back() {
        backward.push((key, *value));
    }
    assert_eq!(forward, vec![(1, 10), (2, 20), (3, 30), (5, 50), (6, 60)]);
    backward.reverse();
    assert_eq!(forward, backward);
}

#[test]
fn both_ends_meet_without_overlap() {
    let stash = sample();
    let mut iter = stash.values();
    assert_eq!(iter.next(), Some(&10));
    assert_eq!(iter.next_back(), Some(&60));
    assert_eq!(iter.next_back(), Some(&50));
    assert_eq!(iter.len(), 2);
    assert_eq!(iter.next(), Some(&20));
    assert_eq!(iter.next(), Some(&30));
    assert_eq!(iter.next(), None);
    assert_eq!(iter.next_back(), None);
    let mut owned = sample().into_iter();
    assert_eq!(owned.next_back(), Some((6, 60)));
    assert_eq!(owned.next(), Some((1, 10)));
    assert_eq!(owned.len(), 3);
    assert_eq!(owned.next_back(), Some((5, 50)));
    assert_eq!(owned.next_back(), Some((3, 30)));
    assert_eq!(owned.next_back(), Some((2, 20)));
    assert_eq!(owned.next_back(), None);
    assert_eq!(owned.next(), None);
}

#[test]
fn count_and_last() {
    let stash = sample();
    assert_eq!(stash.values().count(), 5);
    assert_eq!(stash.iter().count(), 5);
    assert_eq!(stash.values().last(), Some(&60));
    assert_eq!(stash.iter().last(), Some((6, &60)));
    let mut iter = stash.values();
    iter.next();
    iter.next_back();
    assert_eq!(iter.count(), 3);
    assert_eq!(sample().into_values().last(), Some(60));
    assert_eq!(sample().into_values().count(), 5);
    let empty: Stash<u8> = Stash::new();
    assert_eq!(empty.values().last(), None);
    assert_eq!(empty.iter().count(), 0);
}

#[test]
fn mutable_iteration_writes_through() {
    let mut stash = sample();
    {
        let mut iter = stash.iter_mut();
        assert_eq!(iter.len(), 5);
        while let Some((key, value)) = iter.next() {
            *value += key as u32;
        }
    }
    assert_eq!(stash.get(1), Some(&11));
    assert_eq!(stash.get(6), Some(&66));
    {
        let mut iter = stash.values_mut();
        let last = iter.next_back().unwrap();
        *last = 0;
        let first = iter.next().unwrap();
        *first = 1;
        assert_eq!(iter.len(), 3);
        assert_eq!(iter.size_hint(), (3, Some(3)));
    }
    assert_eq!(stash.get(1), Some(&1));
    assert_eq!(stash.get(2), Some(&22));
    assert_eq!(stash.get(6), Some(&0));
    assert_eq!(stash.len(), 5);
    assert_eq!(stash.put(1), 7);
    assert_eq!(stash.values_mut().last(), Some(&mut 1));
    assert_eq!(stash.iter_mut().count(), 6);
}

#[test]
fn versioned_iteration_yields_live_tags() {
    let mut stash = UniqueStash::new();
    let tags: Vec<Tag> = (0..5).map(|value| stash.put(value)).collect();
    stash.take(tags[1]);
    stash.take(tags[3]);
    let again = stash.put(30);
    assert_eq!(again, Tag::new(3, 1));
    let mut iter = stash.iter();
    assert_eq!(iter.len(), 4);
    assert_eq!(iter.next(), Some((Tag::new(0, 0), &0)));
    assert_eq!(iter.next_back(), Some((Tag::new(4, 0), &4)));
    assert_eq!(iter.next_back(), Some((Tag::new(3, 1), &30)));
    assert_eq!(iter.next(), Some((Tag::new(2, 0), &2)));
    assert_eq!(iter.next(), None);
    {
        let mut iter = stash.iter_mut();
        while let Some((tag, value)) = iter.next_back() {
            *value += tag.version() as i32 * 100;
        }
    }
    assert_eq!(stash.get(again), Some(&130));
    let mut owned = stash.into_iter();
    assert_eq!(owned.next(), Some((Tag::new(0, 0), 0)));
    assert_eq!(owned.last(), Some((Tag::new(4, 0), 4)));
}

#[test]
fn ver_stash_iterates_like_unique_stash() {
    let mut stash = VerStash::new();
    let a = stash.put('a');
    let b = stash.put('b');
    stash.take(a);
    assert_eq!(stash.iter().next(), Some((b, &'b')));
    assert_eq!(stash.values().count(), 1);
    assert_eq!(stash.capacity() >= 2, true);
    assert_eq!(stash.into_iter().next_back(), Some((b, 'b')));
}
