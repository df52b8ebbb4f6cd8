use stash::{Stash, Tag, UniqueStash};

#[test]
fn extend_puts_in_the_order_of_the_source() {
    let mut stash = Stash::new();
    let keys = stash.extend(vec!["a", "b", "c"]).collect();
    assert_eq!(keys, vec![0, 1, 2]);
    assert_eq!(stash.get(0), Some(&"a"));
    assert_eq!(stash.get(1), Some(&"b"));
    assert_eq!(stash.get(2), Some(&"c"));
}

#[test]
fn extend_puts_as_it_is_read() {
    let mut stash = Stash::new();
    stash.put("x");
    stash.put("y");
    stash.take(0);
    {
        let mut cursor = stash.extend(vec!["a", "b", "c", "d"]);
        assert_eq!(cursor.len(), 4);
        assert_eq!(cursor.size_hint(), (4, Some(4)));
        assert_eq!(cursor.next_back(), Some(0));
        assert_eq!(cursor.next(), Some(2));
        assert_eq!(cursor.len(), 2);
        assert_eq!(cursor.count(), 2);
    }
    assert_eq!(stash.len(), 5);
    assert_eq!(stash.get(0), Some(&"d"));
    assert_eq!(stash.get(1), Some(&"y"));
    assert_eq!(stash.get(2), Some(&"a"));
    assert_eq!(stash.get(3), Some(&"b"));
    assert_eq!(stash.get(4), Some(&"c"));
}

#[test]
fn finish_puts_the_rest() {
    let mut stash = UniqueStash::new();
    {
        let mut cursor = stash.extend(vec![1, 2, 3]);
        assert_eq!(cursor.next(), Some(Tag::new(0, 0)));
        cursor.finish();
    }
    assert_eq!(stash.len(), 3);
    assert_eq!(stash.get(Tag::new(2, 0)), Some(&3));
    {
        let mut cursor = stash.extend(Vec::new());
        assert_eq!(cursor.next(), None);
        assert_eq!(cursor.next_back(), None);
        assert_eq!(cursor.count(), 0);
    }
    assert_eq!(stash.len(), 3);
}

#[test]
fn extend_reserves_room() {
    let mut stash: Stash<u8> = Stash::new();
    stash.put(1);
    let _ = stash.extend(vec![2, 3, 4, 5, 6, 7, 8, 9, 10]).count();
    assert!(stash.capacity() >= 10);
    assert_eq!(stash.len(), 10);
}
