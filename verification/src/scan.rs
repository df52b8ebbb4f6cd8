//! Walking a backing array: what the tables' iterators share.
//!
//! An iterator sees a backing array as the sequence of its live slots, each
//! with its offset and its version, in ascending order of the offsets.

use core::marker::PhantomData;
use vstd::prelude::*;
use crate::unique_stash::tag::Tag;

verus! {

/// A slot of a backing array, as the iterators need it.
pub trait Slot<V>: Sized {
    /// The value in the slot, if it is live.
    spec fn live(&self) -> Option<V>;

    /// The version of the slot; 0 where the table has no versions.
    spec fn stamp(&self) -> u64;

    /// The slot with `value` in place of its live value.
    spec fn refilled(&self, value: V) -> Self;

    /// The version of the slot.
    fn version(&self) -> (version: u64)
        ensures
            version == self.stamp(),
    ;

    /// Borrows the live value.
    fn live_ref(&self) -> (res: Option<&V>)
        ensures
            res == match self.live() {
                Some(value) => Some(&value),
                None => None,
            },
    ;

    /// Borrows the live value mutably. Nothing else of the slot can change
    /// through the borrow.
    fn live_mut(&mut self) -> (res: Option<&mut V>)
        ensures
            match res {
                Some(value) => old(self).live() == Some(*value) && *final(self) == old(
                    self,
                ).refilled(*final(value)),
                None => old(self).live() is None && *final(self) == *old(self),
            },
    ;

    /// Moves the live value out; the slot is dead afterwards.
    fn take_live(&mut self) -> (res: Option<V>)
        ensures
            res == old(self).live(),
            final(self).live() is None,
    ;
}

/// A live slot as an iterator sees it: offset, version and value.
pub struct Item<V> {
    /// The offset of the slot.
    pub offset: usize,
    /// The version of the slot.
    pub stamp: u64,
    /// The live value.
    pub value: V,
}

impl<V> Item<V> {
    /// The key of the slot in a version-guarded table.
    pub open spec fn tag(self) -> Tag {
        Tag { idx: self.offset, ver: self.stamp }
    }
}

/// The live slots of `s`, in ascending order, where the first slot of `s`
/// has the offset `base`.
pub open spec fn live_items<V, E: Slot<V>>(s: Seq<E>, base: int) -> Seq<Item<V>>
    decreases s.len(),
{
    if s.len() == 0 {
        Seq::empty()
    } else {
        let head = live_items::<V, E>(s.drop_last(), base);
        match s.last().live() {
            Some(value) => head.push(
                Item { offset: (base + s.len() - 1) as usize, stamp: s.last().stamp(), value },
            ),
            None => head,
        }
    }
}

/// The live slots of a sequence are those of a prefix, then those of the
/// rest.
pub proof fn lemma_live_split<V, E: Slot<V>>(s: Seq<E>, base: int, k: int)
    requires
        0 <= k <= s.len(),
    ensures
        live_items::<V, E>(s, base) == live_items::<V, E>(s.subrange(0, k), base) + live_items::<
            V,
            E,
        >(s.subrange(k, s.len() as int), base + k),
    decreases s.len(),
{
    let left = s.subrange(0, k);
    let right = s.subrange(k, s.len() as int);
    if k == s.len() {
        assert(left =~= s);
        assert(live_items::<V, E>(right, base + k) =~= Seq::empty());
        assert(live_items::<V, E>(s, base) =~= live_items::<V, E>(left, base) + Seq::empty());
    } else {
        lemma_live_split::<V, E>(s.drop_last(), base, k);
        assert(s.drop_last().subrange(0, k) =~= left);
        assert(s.drop_last().subrange(k, s.len() - 1) =~= right.drop_last());
        assert(right.last() == s.last());
        let a = live_items::<V, E>(left, base);
        let b = live_items::<V, E>(right.drop_last(), base + k);
        match s.last().live() {
            Some(value) => {
                let item = Item {
                    offset: (base + s.len() - 1) as usize,
                    stamp: s.last().stamp(),
                    value,
                };
                assert((a + b).push(item) =~= a + b.push(item));
            },
            None => {},
        }
    }
}

/// A sequence of dead slots has no live slot.
pub proof fn lemma_live_none<V, E: Slot<V>>(s: Seq<E>, base: int)
    requires
        forall|i: int| 0 <= i < s.len() ==> (#[trigger] s[i]).live() is None,
    ensures
        live_items::<V, E>(s, base) == Seq::<Item<V>>::empty(),
    decreases s.len(),
{
    if s.len() > 0 {
        lemma_live_none::<V, E>(s.drop_last(), base);
    }
}

/// The live slots of one slot.
pub proof fn lemma_live_one<V, E: Slot<V>>(s: Seq<E>, base: int)
    requires
        s.len() == 1,
    ensures
        live_items::<V, E>(s, base) == match s[0].live() {
            Some(value) => seq![Item { offset: base as usize, stamp: s[0].stamp(), value }],
            None => Seq::empty(),
        },
{
    assert(live_items::<V, E>(s.drop_last(), base) =~= Seq::empty());
    match s[0].live() {
        Some(value) => {
            assert(live_items::<V, E>(s, base) =~= seq![
                Item { offset: base as usize, stamp: s[0].stamp(), value },
            ]);
        },
        None => {},
    }
}

/// Where the first live slot of `s[front..back]` is at `i`, it is the first
/// of the live slots, and the rest are those of `s[i + 1..back]`.
pub proof fn lemma_live_first<V, E: Slot<V>>(s: Seq<E>, front: int, back: int, i: int)
    requires
        0 <= front <= i < back <= s.len(),
        s[i].live() is Some,
        forall|j: int| front <= j < i ==> (#[trigger] s[j]).live() is None,
    ensures
        live_items::<V, E>(s.subrange(front, back), front) == seq![
            Item { offset: i as usize, stamp: s[i].stamp(), value: s[i].live()->0 },
        ] + live_items::<V, E>(s.subrange(i + 1, back), i + 1),
{
    let w = s.subrange(front, back);
    lemma_live_split::<V, E>(w, front, i - front);
    lemma_live_none::<V, E>(w.subrange(0, i - front), front);
    let rest = w.subrange(i - front, w.len() as int);
    lemma_live_split::<V, E>(rest, i, 1);
    lemma_live_one::<V, E>(rest.subrange(0, 1), i);
    assert(rest.subrange(0, 1)[0] == s[i]);
    assert(rest.subrange(1, rest.len() as int) =~= s.subrange(i + 1, back));
    assert(Seq::<Item<V>>::empty() + live_items::<V, E>(rest, i) =~= live_items::<V, E>(rest, i));
}

/// Where the last live slot of `s[front..back]` is at `i`, it is the last
/// of the live slots, and the rest are those of `s[front..i]`.
pub proof fn lemma_live_last<V, E: Slot<V>>(s: Seq<E>, front: int, back: int, i: int)
    requires
        0 <= front <= i < back <= s.len(),
        s[i].live() is Some,
        forall|j: int| i < j < back ==> (#[trigger] s[j]).live() is None,
    ensures
        live_items::<V, E>(s.subrange(front, back), front) == live_items::<V, E>(
            s.subrange(front, i),
            front,
        ).push(Item { offset: i as usize, stamp: s[i].stamp(), value: s[i].live()->0 }),
{
    let w = s.subrange(front, back);
    lemma_live_split::<V, E>(w, front, i + 1 - front);
    lemma_live_none::<V, E>(w.subrange(i + 1 - front, w.len() as int), i + 1);
    let head = w.subrange(0, i + 1 - front);
    assert(head.drop_last() =~= s.subrange(front, i));
    assert(head.last() == s[i]);
    assert(live_items::<V, E>(head, front) + Seq::<Item<V>>::empty() =~= live_items::<V, E>(
        head,
        front,
    ));
}

/// Where `s[front..back]` has no live slot, it has no live items.
pub proof fn lemma_live_window_none<V, E: Slot<V>>(s: Seq<E>, front: int, back: int)
    requires
        0 <= front <= back <= s.len(),
        forall|j: int| front <= j < back ==> (#[trigger] s[j]).live() is None,
    ensures
        live_items::<V, E>(s.subrange(front, back), front) == Seq::<Item<V>>::empty(),
{
    lemma_live_none::<V, E>(s.subrange(front, back), front);
}

/// The offsets of the live slots lie in the window and ascend, and each
/// item is the live slot at its offset.
pub proof fn lemma_live_sound<V, E: Slot<V>>(s: Seq<E>, base: int)
    requires
        0 <= base,
        base + s.len() <= usize::MAX + 1,
    ensures
        live_items::<V, E>(s, base).len() <= s.len(),
        forall|j: int|
            0 <= j < live_items::<V, E>(s, base).len() ==> {
                let item = #[trigger] live_items::<V, E>(s, base)[j];
                &&& base <= item.offset < base + s.len()
                &&& s[item.offset - base].live() == Some(item.value)
                &&& s[item.offset - base].stamp() == item.stamp
            },
        forall|i: int, j: int|
            0 <= i < j < live_items::<V, E>(s, base).len() ==> live_items::<V, E>(
                s,
                base,
            )[i].offset < live_items::<V, E>(s, base)[j].offset,
    decreases s.len(),
{
    if s.len() > 0 {
        lemma_live_sound::<V, E>(s.drop_last(), base);
        let head = live_items::<V, E>(s.drop_last(), base);
        assert forall|j: int| 0 <= j < head.len() implies s[head[j].offset - base]
            == s.drop_last()[head[j].offset - base] by {}
    }
}

/// Every live slot is among the live items.
pub proof fn lemma_live_complete<V, E: Slot<V>>(s: Seq<E>, base: int, i: int)
    requires
        0 <= i < s.len(),
        s[i].live() is Some,
    ensures
        exists|j: int|
            0 <= j < live_items::<V, E>(s, base).len() && (#[trigger] live_items::<V, E>(
                s,
                base,
            )[j]).offset == (base + i) as usize,
    decreases s.len(),
{
    let items = live_items::<V, E>(s, base);
    if i == s.len() - 1 {
        assert(items[items.len() - 1].offset == (base + i) as usize);
    } else {
        lemma_live_complete::<V, E>(s.drop_last(), base, i);
        let head = live_items::<V, E>(s.drop_last(), base);
        let j = choose|j: int| 0 <= j < head.len() && (#[trigger] head[j]).offset == (base
            + i) as usize;
        assert(items[j] == head[j]);
    }
}

/// The offset of the first live slot of `data[front..back]`.
pub fn first_live<V, E: Slot<V>>(data: &[E], front: usize, back: usize) -> (res: Option<usize>)
    requires
        front <= back <= data@.len(),
    ensures
        match res {
            Some(i) => {
                &&& front <= i < back
                &&& data@[i as int].live() is Some
                &&& forall|j: int| front <= j < i ==> (#[trigger] data@[j]).live() is None
            },
            None => forall|j: int| front <= j < back ==> (#[trigger] data@[j]).live() is None,
        },
{
    let mut i = front;
    while i < back
        invariant
            front <= i <= back <= data@.len(),
            forall|j: int| front <= j < i ==> (#[trigger] data@[j]).live() is None,
        decreases back - i,
    {
        if data[i].live_ref().is_some() {
            return Some(i);
        }
        i += 1;
    }
    None
}

/// The offset of the last live slot of `data[front..back]`.
pub fn last_live<V, E: Slot<V>>(data: &[E], front: usize, back: usize) -> (res: Option<usize>)
    requires
        front <= back <= data@.len(),
    ensures
        match res {
            Some(i) => {
                &&& front <= i < back
                &&& data@[i as int].live() is Some
                &&& forall|j: int| i < j < back ==> (#[trigger] data@[j]).live() is None
            },
            None => forall|j: int| front <= j < back ==> (#[trigger] data@[j]).live() is None,
        },
{
    let mut i = back;
    while i > front
        invariant
            front <= i <= back <= data@.len(),
            forall|j: int| i <= j < back ==> (#[trigger] data@[j]).live() is None,
        decreases i - front,
    {
        i -= 1;
        if data[i].live_ref().is_some() {
            return Some(i);
        }
    }
    None
}

/// A live slot as a mutable iterator holds it: offset, version, and the
/// borrow of the value.
pub struct ItemMut<'a, V> {
    /// The offset of the slot.
    pub offset: usize,
    /// The version of the slot.
    pub stamp: u64,
    /// The borrow of the live value.
    pub value: &'a mut V,
}

impl<'a, V> ItemMut<'a, V> {
    /// The key of the slot in a version-guarded table.
    pub open spec fn tag(self) -> Tag {
        Tag { idx: self.offset, ver: self.stamp }
    }
}

/// The number of live slots before offset `i`.
pub open spec fn rank<V, E: Slot<V>>(s: Seq<E>, i: int) -> int {
    live_items::<V, E>(s.subrange(0, i), 0).len() as int
}

/// One slot more: the rank goes up by one behind a live slot.
pub proof fn lemma_rank_step<V, E: Slot<V>>(s: Seq<E>, i: int)
    requires
        0 <= i < s.len(),
    ensures
        live_items::<V, E>(s.subrange(0, i + 1), 0) == match s[i].live() {
            Some(value) => live_items::<V, E>(s.subrange(0, i), 0).push(
                Item { offset: i as usize, stamp: s[i].stamp(), value },
            ),
            None => live_items::<V, E>(s.subrange(0, i), 0),
        },
        rank::<V, E>(s, i + 1) == rank::<V, E>(s, i) + if s[i].live() is Some {
            1int
        } else {
            0
        },
{
    assert(s.subrange(0, i + 1).drop_last() =~= s.subrange(0, i));
    assert(s.subrange(0, i + 1).last() == s[i]);
}

/// The rank does not go down.
pub proof fn lemma_rank_mono<V, E: Slot<V>>(s: Seq<E>, i: int, j: int)
    requires
        0 <= i <= j <= s.len(),
    ensures
        rank::<V, E>(s, i) <= rank::<V, E>(s, j),
    decreases j - i,
{
    if i < j {
        lemma_rank_mono::<V, E>(s, i, j - 1);
        lemma_rank_step::<V, E>(s, j - 1);
    }
}

/// The live slot at offset `i` is the live item of rank `rank(s, i)`.
pub proof fn lemma_rank_item<V, E: Slot<V>>(s: Seq<E>, i: int)
    requires
        0 <= i < s.len(),
        s[i].live() is Some,
    ensures
        0 <= rank::<V, E>(s, i) < live_items::<V, E>(s, 0).len(),
        live_items::<V, E>(s, 0)[rank::<V, E>(s, i)] == (Item {
            offset: i as usize,
            stamp: s[i].stamp(),
            value: s[i].live()->0,
        }),
{
    lemma_live_split::<V, E>(s, 0, i + 1);
    lemma_rank_step::<V, E>(s, i);
}

/// Borrows every live value of `slots` at once, in ascending order of the
/// offsets. Whatever is written through the borrows ends up in the slot of
/// the borrow, and nothing else of `slots` changes.
pub fn collect_mut<'a, V, E: Slot<V>>(slots: &'a mut [E]) -> (items: Vec<Option<ItemMut<'a, V>>>)
    ensures
        items@.len() == live_items::<V, E>(old(slots)@, 0).len(),
        forall|j: int|
            0 <= j < items@.len() ==> {
                let item = live_items::<V, E>(old(slots)@, 0)[j];
                &&& (#[trigger] items@[j]) is Some
                &&& items@[j]->0.offset == item.offset
                &&& items@[j]->0.stamp == item.stamp
                &&& *items@[j]->0.value == item.value
                &&& item.offset < old(slots)@.len()
                &&& final(slots)@[item.offset as int] == old(slots)@[item.offset as int].refilled(
                    *final(items@[j]->0.value),
                )
            },
        final(slots)@.len() == old(slots)@.len(),
        forall|i: int|
            0 <= i < old(slots)@.len() && old(slots)@[i].live() is None
                ==> #[trigger] final(slots)@[i] == old(slots)@[i],
{
    let ghost orig = slots@;
    let total = slots.len();
    let mut items: Vec<Option<ItemMut<'a, V>>> = Vec::new();
    let mut rest = slots;
    let mut offset: usize = 0;
    proof {
        assert(orig.subrange(0, 0) =~= Seq::empty());
        assert(final(slots)@.subrange(0, final(slots)@.len() as int) =~= final(slots)@);
    }
    while rest.len() > 0
        invariant
            total == orig.len(),
            offset + rest@.len() == orig.len(),
            rest@ == orig.subrange(offset as int, orig.len() as int),
            offset <= final(slots)@.len(),
            final(slots)@.subrange(offset as int, final(slots)@.len() as int) == final(rest)@,
            items@.len() == rank::<V, E>(orig, offset as int),
            forall|j: int|
                0 <= j < items@.len() ==> {
                    let item = live_items::<V, E>(orig.subrange(0, offset as int), 0)[j];
                    &&& (#[trigger] items@[j]) is Some
                    &&& items@[j]->0.offset == item.offset
                    &&& items@[j]->0.stamp == item.stamp
                    &&& *items@[j]->0.value == item.value
                },
            forall|i: int|
                0 <= i < offset ==> #[trigger] final(slots)@[i] == match orig[i].live() {
                    Some(_) => orig[i].refilled(*final(items@[rank::<V, E>(orig, i)]->0.value)),
                    None => orig[i],
                },
        decreases rest@.len(),
    {
        let ghost k = offset as int;
        assert(offset < total);
        let (head, tail) = rest.split_at_mut(1);
        rest = tail;
        proof {
            lemma_rank_step::<V, E>(orig, k);
            assert(head@[0] == orig[k]);
            assert forall|i: int| 0 <= i < k && orig[i].live() is Some implies rank::<V, E>(
                orig,
                i,
            ) < rank::<V, E>(orig, k) by {
                lemma_rank_step::<V, E>(orig, i);
                lemma_rank_mono::<V, E>(orig, i + 1, k);
            }
        }
        match head.first_mut() {
            Some(slot) => {
                let stamp = slot.version();
                match slot.live_mut() {
                    Some(value) => {
                        items.push(Some(ItemMut { offset, stamp, value }));
                    },
                    None => {},
                }
            },
            None => {},
        }
        proof {
            let fs = final(slots)@;
            let tl = fs.subrange(k, fs.len() as int);
            assert(tl.len() == fs.len() - k);
            assert(tl.len() == 1 + final(rest)@.len());
            assert(tl.subrange(1, tl.len() as int) =~= final(rest)@);
            assert(fs.subrange(k + 1, fs.len() as int) =~= tl.subrange(1, tl.len() as int));
            assert(fs[k] == tl[0]);
            assert(rest@ =~= orig.subrange(k + 1, orig.len() as int));
        }
        offset += 1;
    }
    proof {
        assert(orig.subrange(0, orig.len() as int) =~= orig);
        lemma_live_sound::<V, E>(orig, 0);
        assert forall|j: int| 0 <= j < items@.len() implies {
            let item = live_items::<V, E>(orig, 0)[j];
            &&& item.offset < orig.len()
            &&& final(slots)@[item.offset as int] == orig[item.offset as int].refilled(
                *final((#[trigger] items@[j])->0.value),
            )
        } by {
            let item = live_items::<V, E>(orig, 0)[j];
            let i = item.offset as int;
            lemma_rank_item::<V, E>(orig, i);
            let r = rank::<V, E>(orig, i);
            if r < j {
                assert(live_items::<V, E>(orig, 0)[r].offset < live_items::<V, E>(
                    orig,
                    0,
                )[j].offset);
            }
            if j < r {
                assert(live_items::<V, E>(orig, 0)[j].offset < live_items::<V, E>(
                    orig,
                    0,
                )[r].offset);
            }
        }
    }
    items
}

/// A walk over the live slots of a borrowed backing array, from both ends.
pub struct Refs<'a, V, E: Slot<V>> {
    data: &'a [E],
    front: usize,
    back: usize,
    len: usize,
    _marker: PhantomData<V>,
}

impl<'a, V, E: Slot<V>> Refs<'a, V, E> {
    /// The live slots not yet visited, in ascending order.
    pub closed spec fn remaining(&self) -> Seq<Item<V>> {
        live_items::<V, E>(self.data@.subrange(self.front as int, self.back as int), self.front as int)
    }

    /// The window lies in the array, and `len` counts its live slots.
    pub closed spec fn wf(&self) -> bool {
        &&& self.front <= self.back <= self.data@.len()
        &&& self.len == self.remaining().len()
    }

    /// A walk over all of `data`, which has `len` live slots.
    pub fn new(data: &'a [E], len: usize) -> (walk: Self)
        requires
            len == live_items::<V, E>(data@, 0).len(),
        ensures
            walk.wf(),
            walk.remaining() == live_items::<V, E>(data@, 0),
    {
        proof {
            assert(data@.subrange(0, data@.len() as int) =~= data@);
        }
        Refs { data, front: 0, back: data.len(), len, _marker: PhantomData }
    }

    /// The number of live slots not yet visited.
    pub fn len(&self) -> (n: usize)
        requires
            self.wf(),
        ensures
            n == self.remaining().len(),
    {
        self.len
    }

    /// Visits the first of the remaining live slots.
    pub fn next(&mut self) -> (res: Option<(usize, &'a E)>)
        requires
            old(self).wf(),
        ensures
            final(self).wf(),
            match res {
                Some((offset, slot)) => {
                    &&& old(self).remaining().len() > 0
                    &&& old(self).remaining()[0] == (Item {
                        offset,
                        stamp: slot.stamp(),
                        value: slot.live()->0,
                    })
                    &&& slot.live() is Some
                    &&& final(self).remaining() == old(self).remaining().drop_first()
                },
                None => old(self).remaining().len() == 0 && final(self).remaining() == old(
                    self,
                ).remaining(),
            },
    {
        match first_live(self.data, self.front, self.back) {
            Some(i) => {
                proof {
                    lemma_live_first::<V, E>(self.data@, self.front as int, self.back as int, i as int);
                    let rest = live_items::<V, E>(
                        self.data@.subrange(i + 1, self.back as int),
                        i + 1,
                    );
                    assert(old(self).remaining().drop_first() =~= rest);
                }
                self.front = i + 1;
                self.len -= 1;
                Some((i, &self.data[i]))
            },
            None => {
                proof {
                    lemma_live_window_none::<V, E>(
                        self.data@,
                        self.front as int,
                        self.back as int,
                    );
                }
                None
            },
        }
    }

    /// Visits the last of the remaining live slots.
    pub fn next_back(&mut self) -> (res: Option<(usize, &'a E)>)
        requires
            old(self).wf(),
        ensures
            final(self).wf(),
            match res {
                Some((offset, slot)) => {
                    &&& old(self).remaining().len() > 0
                    &&& old(self).remaining().last() == (Item {
                        offset,
                        stamp: slot.stamp(),
                        value: slot.live()->0,
                    })
                    &&& slot.live() is Some
                    &&& final(self).remaining() == old(self).remaining().drop_last()
                },
                None => old(self).remaining().len() == 0 && final(self).remaining() == old(
                    self,
                ).remaining(),
            },
    {
        match last_live(self.data, self.front, self.back) {
            Some(i) => {
                proof {
                    lemma_live_last::<V, E>(self.data@, self.front as int, self.back as int, i as int);
                    let rest = live_items::<V, E>(
                        self.data@.subrange(self.front as int, i as int),
                        self.front as int,
                    );
                    assert(old(self).remaining().drop_last() =~= rest);
                }
                self.back = i;
                self.len -= 1;
                Some((i, &self.data[i]))
            },
            None => {
                proof {
                    lemma_live_window_none::<V, E>(
                        self.data@,
                        self.front as int,
                        self.back as int,
                    );
                }
                None
            },
        }
    }
}

/// A walk that moves the live values out of a backing array, from both
/// ends.
pub struct Owned<V, E: Slot<V>> {
    data: Vec<E>,
    front: usize,
    back: usize,
    len: usize,
    _marker: PhantomData<V>,
}

impl<V, E: Slot<V>> Owned<V, E> {
    /// The live slots not yet visited, in ascending order.
    pub closed spec fn remaining(&self) -> Seq<Item<V>> {
        live_items::<V, E>(self.data@.subrange(self.front as int, self.back as int), self.front as int)
    }

    /// The window lies in the array, and `len` counts its live slots.
    pub closed spec fn wf(&self) -> bool {
        &&& self.front <= self.back <= self.data@.len()
        &&& self.len == self.remaining().len()
    }

    /// A walk over all of `data`, which has `len` live slots.
    pub fn new(data: Vec<E>, len: usize) -> (walk: Self)
        requires
            len == live_items::<V, E>(data@, 0).len(),
        ensures
            walk.wf(),
            walk.remaining() == live_items::<V, E>(data@, 0),
    {
        proof {
            assert(data@.subrange(0, data@.len() as int) =~= data@);
        }
        let back = data.len();
        Owned { data, front: 0, back, len, _marker: PhantomData }
    }

    /// The number of live slots not yet visited.
    pub fn len(&self) -> (n: usize)
        requires
            self.wf(),
        ensures
            n == self.remaining().len(),
    {
        self.len
    }

    /// Moves the value out of the slot at `i`, which is live.
    fn extract(&mut self, i: usize) -> (item: Item<V>)
        requires
            i < old(self).data@.len(),
            old(self).data@[i as int].live() is Some,
        ensures
            item == (Item {
                offset: i,
                stamp: old(self).data@[i as int].stamp(),
                value: old(self).data@[i as int].live()->0,
            }),
            final(self).data@.len() == old(self).data@.len(),
            forall|j: int|
                0 <= j < old(self).data@.len() && j != i ==> final(self).data@[j] == old(
                    self,
                ).data@[j],
            final(self).front == old(self).front,
            final(self).back == old(self).back,
            final(self).len == old(self).len,
    {
        let slot = &mut self.data[i];
        let stamp = slot.version();
        match slot.take_live() {
            Some(value) => Item { offset: i, stamp, value },
            None => vstd::pervasive::unreached(),
        }
    }

    /// Visits the first of the remaining live slots.
    pub fn next(&mut self) -> (res: Option<Item<V>>)
        requires
            old(self).wf(),
        ensures
            final(self).wf(),
            match res {
                Some(item) => {
                    &&& old(self).remaining().len() > 0
                    &&& old(self).remaining()[0] == item
                    &&& final(self).remaining() == old(self).remaining().drop_first()
                },
                None => old(self).remaining().len() == 0 && final(self).remaining() == old(
                    self,
                ).remaining(),
            },
    {
        match first_live(self.data.as_slice(), self.front, self.back) {
            Some(i) => {
                proof {
                    lemma_live_first::<V, E>(self.data@, self.front as int, self.back as int, i as int);
                }
                let item = self.extract(i);
                proof {
                    assert(self.data@.subrange(i + 1, self.back as int) =~= old(
                        self,
                    ).data@.subrange(i + 1, self.back as int));
                    let rest = live_items::<V, E>(
                        self.data@.subrange(i + 1, self.back as int),
                        i + 1,
                    );
                    assert(old(self).remaining().drop_first() =~= rest);
                }
                self.front = i + 1;
                self.len -= 1;
                Some(item)
            },
            None => {
                proof {
                    lemma_live_window_none::<V, E>(
                        self.data@,
                        self.front as int,
                        self.back as int,
                    );
                }
                None
            },
        }
    }

    /// Visits the last of the remaining live slots.
    pub fn next_back(&mut self) -> (res: Option<Item<V>>)
        requires
            old(self).wf(),
        ensures
            final(self).wf(),
            match res {
                Some(item) => {
                    &&& old(self).remaining().len() > 0
                    &&& old(self).remaining().last() == item
                    &&& final(self).remaining() == old(self).remaining().drop_last()
                },
                None => old(self).remaining().len() == 0 && final(self).remaining() == old(
                    self,
                ).remaining(),
            },
    {
        match last_live(self.data.as_slice(), self.front, self.back) {
            Some(i) => {
                proof {
                    lemma_live_last::<V, E>(self.data@, self.front as int, self.back as int, i as int);
                }
                let item = self.extract(i);
                proof {
                    assert(self.data@.subrange(self.front as int, i as int) =~= old(
                        self,
                    ).data@.subrange(self.front as int, i as int));
                    let rest = live_items::<V, E>(
                        self.data@.subrange(self.front as int, i as int),
                        self.front as int,
                    );
                    assert(old(self).remaining().drop_last() =~= rest);
                }
                self.back = i;
                self.len -= 1;
                Some(item)
            },
            None => {
                proof {
                    lemma_live_window_none::<V, E>(
                        self.data@,
                        self.front as int,
                        self.back as int,
                    );
                }
                None
            },
        }
    }
}

/// A walk over the mutable borrows of the live values of a backing array,
/// from both ends.
pub struct Muts<'a, V> {
    items: Vec<Option<ItemMut<'a, V>>>,
    front: usize,
    back: usize,
}

impl<'a, V> Muts<'a, V> {
    /// The borrows not yet handed out, in ascending order of the offsets.
    pub closed spec fn remaining(&self) -> Seq<ItemMut<'a, V>> {
        Seq::new((self.back - self.front) as nat, |j: int| self.items@[self.front + j]->0)
    }

    /// The window lies in the array and holds a borrow at each place.
    pub closed spec fn wf(&self) -> bool {
        &&& self.front <= self.back <= self.items@.len()
        &&& forall|j: int| self.front <= j < self.back ==> (#[trigger] self.items@[j]) is Some
    }

    /// Borrows every live value of `slots`. What is written through a
    /// borrow ends up in its slot, and nothing else of `slots` changes.
    pub fn new<E: Slot<V>>(slots: &'a mut [E]) -> (walk: Self)
        ensures
            walk.wf(),
            walk.remaining().len() == live_items::<V, E>(old(slots)@, 0).len(),
            forall|j: int|
                0 <= j < walk.remaining().len() ==> {
                    let item = live_items::<V, E>(old(slots)@, 0)[j];
                    &&& (#[trigger] walk.remaining()[j]).offset == item.offset
                    &&& walk.remaining()[j].stamp == item.stamp
                    &&& *walk.remaining()[j].value == item.value
                    &&& item.offset < old(slots)@.len()
                    &&& final(slots)@[item.offset as int] == old(slots)@[item.offset as int].refilled(
                        *final(walk.remaining()[j].value),
                    )
                },
            final(slots)@.len() == old(slots)@.len(),
            forall|i: int|
                0 <= i < old(slots)@.len() && old(slots)@[i].live() is None
                    ==> #[trigger] final(slots)@[i] == old(slots)@[i],
    {
        let items = collect_mut(slots);
        let back = items.len();
        let walk = Muts { items, front: 0, back };
        proof {
            assert forall|j: int| 0 <= j < walk.remaining().len() implies (
            #[trigger] walk.remaining()[j]) == walk.items@[j]->0 by {}
        }
        walk
    }

    /// The number of borrows not yet handed out.
    pub fn len(&self) -> (n: usize)
        requires
            self.wf(),
        ensures
            n == self.remaining().len(),
    {
        self.back - self.front
    }

    /// Hands out the first of the remaining borrows.
    pub fn next(&mut self) -> (res: Option<ItemMut<'a, V>>)
        requires
            old(self).wf(),
        ensures
            final(self).wf(),
            match res {
                Some(item) => {
                    &&& old(self).remaining().len() > 0
                    &&& old(self).remaining()[0] == item
                    &&& final(self).remaining() == old(self).remaining().drop_first()
                },
                None => old(self).remaining().len() == 0 && final(self).remaining() == old(
                    self,
                ).remaining(),
            },
    {
        if self.front < self.back {
            let item = self.items[self.front].take();
            self.front += 1;
            proof {
                assert(self.remaining() =~= old(self).remaining().drop_first());
            }
            item
        } else {
            None
        }
    }

    /// Hands out the last of the remaining borrows.
    pub fn next_back(&mut self) -> (res: Option<ItemMut<'a, V>>)
        requires
            old(self).wf(),
        ensures
            final(self).wf(),
            match res {
                Some(item) => {
                    &&& old(self).remaining().len() > 0
                    &&& old(self).remaining().last() == item
                    &&& final(self).remaining() == old(self).remaining().drop_last()
                },
                None => old(self).remaining().len() == 0 && final(self).remaining() == old(
                    self,
                ).remaining(),
            },
    {
        if self.front < self.back {
            self.back -= 1;
            let item = self.items[self.back].take();
            proof {
                assert(self.remaining() =~= old(self).remaining().drop_last());
            }
            item
        } else {
            None
        }
    }

    /// A walk that is dropped leaves the values of the borrows not yet
    /// handed out as they are.
    pub proof fn lemma_dropped(self)
        requires
            self.wf(),
            has_resolved(self),
        ensures
            forall|j: int|
                0 <= j < self.remaining().len() ==> *(#[trigger] self.remaining()[j]).value
                    == *final(self.remaining()[j].value),
    {
        assert forall|j: int| 0 <= j < self.remaining().len() implies *(
        #[trigger] self.remaining()[j]).value == *final(self.remaining()[j].value) by {
            assert(has_resolved(self.items));
            assert(has_resolved(self.items@[self.front + j]));
        }
    }
}

/// A step of an iterator that yields an item from the front.
pub open spec fn steps_front<T>(before: Seq<T>, after: Seq<T>) -> bool {
    before.len() > 0 && after == before.drop_first()
}

/// A step of an iterator that yields an item from the back.
pub open spec fn steps_back<T>(before: Seq<T>, after: Seq<T>) -> bool {
    before.len() > 0 && after == before.drop_last()
}

/// A step of an iterator that has nothing left to yield.
pub open spec fn stays_empty<T>(before: Seq<T>, after: Seq<T>) -> bool {
    before.len() == 0 && after == before
}

/// What `n` steps from the front yield, in the order of the steps.
pub open spec fn from_front<T>(items: Seq<T>, n: nat) -> Seq<T>
    decreases n,
{
    if n == 0 || items.len() == 0 {
        Seq::empty()
    } else {
        seq![items[0]] + from_front(items.drop_first(), (n - 1) as nat)
    }
}

/// What `n` steps from the back yield, in the order of the steps.
pub open spec fn from_back<T>(items: Seq<T>, n: nat) -> Seq<T>
    decreases n,
{
    if n == 0 || items.len() == 0 {
        Seq::empty()
    } else {
        seq![items.last()] + from_back(items.drop_last(), (n - 1) as nat)
    }
}

/// Steps from the front yield a prefix of the items.
pub proof fn lemma_from_front<T>(items: Seq<T>, n: nat)
    requires
        n <= items.len(),
    ensures
        from_front(items, n) == items.subrange(0, n as int),
    decreases n,
{
    if n > 0 {
        lemma_from_front(items.drop_first(), (n - 1) as nat);
        assert(seq![items[0]] + items.drop_first().subrange(0, n - 1) =~= items.subrange(
            0,
            n as int,
        ));
    } else {
        assert(items.subrange(0, 0) =~= Seq::<T>::empty());
    }
}

/// Steps from the back yield a suffix of the items, last first.
pub proof fn lemma_from_back<T>(items: Seq<T>, n: nat)
    requires
        n <= items.len(),
    ensures
        from_back(items, n) == items.subrange(items.len() - n, items.len() as int).reverse(),
    decreases n,
{
    let suffix = items.subrange(items.len() - n, items.len() as int);
    if n > 0 {
        lemma_from_back(items.drop_last(), (n - 1) as nat);
        let shorter = items.drop_last().subrange(items.len() - n, items.len() - 1);
        assert(shorter =~= suffix.drop_last());
        assert(seq![items.last()] + suffix.drop_last().reverse() =~= suffix.reverse());
    } else {
        assert(suffix.reverse() =~= Seq::<T>::empty());
    }
}

/// Iterating from both ends visits each item once: however the steps are
/// shared between front and back, what the front yields, followed by what
/// the back yields turned round, is the whole sequence. Iterating from the
/// back alone yields the reverse of iterating from the front alone.
pub proof fn lemma_both_ends<T>(items: Seq<T>, n: nat)
    requires
        n <= items.len(),
    ensures
        from_front(items, n) + from_back(items, (items.len() - n) as nat).reverse() == items,
        from_back(items, items.len()) == from_front(items, items.len()).reverse(),
{
    lemma_from_front(items, n);
    lemma_from_back(items, (items.len() - n) as nat);
    lemma_from_front(items, items.len());
    lemma_from_back(items, items.len());
    let suffix = items.subrange(n as int, items.len() as int);
    assert(suffix.reverse().reverse() =~= suffix);
    assert(items.subrange(0, n as int) + suffix =~= items);
    assert(items.subrange(0, items.len() as int) =~= items);
}

} // verus!
