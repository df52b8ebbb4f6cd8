//! The iterators of a `Stash`.
//!
//! Each yields the live values in ascending order of their offsets, from
//! either end, and knows how many are left. What is left is the iterator's
//! `remaining()`.

use core::marker::PhantomData;
use vstd::prelude::*;
use crate::index::Index;
use crate::scan::{stays_empty, steps_back, steps_front, Item, ItemMut, Muts, Owned, Refs, Slot};
use crate::stash::entry;
use crate::stash::entry::Entry;

verus! {

/// Iterator over references to the values in the stash.
pub struct Values<'a, V> {
    inner: Refs<'a, V, Entry<V>>,
}

impl<'a, V> Values<'a, V> {
    /// Wraps a walk over the backing array.
    pub(super) fn new(inner: Refs<'a, V, Entry<V>>) -> (it: Self)
        requires
            inner.wf(),
        ensures
            it.wf(),
            it.remaining() == inner.remaining(),
    {
        Values { inner }
    }

    /// The live slots not yet visited, in ascending order.
    pub closed spec fn remaining(&self) -> Seq<Item<V>> {
        self.inner.remaining()
    }

    /// The invariant of the iterator.
    pub closed spec fn wf(&self) -> bool {
        self.inner.wf()
    }

    /// The next value from the front.
    pub fn next(&mut self) -> (res: Option<&'a V>)
        requires
            old(self).wf(),
        ensures
            final(self).wf(),
            match res {
                Some(value) => steps_front(old(self).remaining(), final(self).remaining())
                    && *value == old(self).remaining()[0].value,
                None => stays_empty(old(self).remaining(), final(self).remaining()),
            },
    {
        match self.inner.next() {
            Some((_, slot)) => entry::value_ref(slot),
            None => None,
        }
    }

    /// The next value from the back.
    pub fn next_back(&mut self) -> (res: Option<&'a V>)
        requires
            old(self).wf(),
        ensures
            final(self).wf(),
            match res {
                Some(value) => steps_back(old(self).remaining(), final(self).remaining())
                    && *value == old(self).remaining().last().value,
                None => stays_empty(old(self).remaining(), final(self).remaining()),
            },
    {
        match self.inner.next_back() {
            Some((_, slot)) => entry::value_ref(slot),
            None => None,
        }
    }

    /// The number of values left.
    pub fn len(&self) -> (n: usize)
        requires
            self.wf(),
        ensures
            n == self.remaining().len(),
    {
        self.inner.len()
    }

    /// The number of values left, as both bounds.
    pub fn size_hint(&self) -> (hint: (usize, Option<usize>))
        requires
            self.wf(),
        ensures
            hint.0 == self.remaining().len(),
            hint.1 == Some(hint.0),
    {
        (self.inner.len(), Some(self.inner.len()))
    }

    /// The number of values left.
    pub fn count(self) -> (n: usize)
        requires
            self.wf(),
        ensures
            n == self.remaining().len(),
    {
        self.inner.len()
    }

    /// The last of the values left.
    pub fn last(self) -> (res: Option<&'a V>)
        requires
            self.wf(),
        ensures
            match res {
                Some(value) => self.remaining().len() > 0 && *value
                    == self.remaining().last().value,
                None => self.remaining().len() == 0,
            },
    {
        let mut this = self;
        this.next_back()
    }
}

/// Iterator over the `(index, &value)` pairs.
pub struct Iter<'a, V, Ix: Index> {
    inner: Refs<'a, V, Entry<V>>,
    _marker: PhantomData<Ix>,
}

impl<'a, V, Ix: Index> Iter<'a, V, Ix> {
    /// Wraps a walk over the backing array.
    pub(super) fn new(inner: Refs<'a, V, Entry<V>>) -> (it: Self)
        requires
            inner.wf(),
            forall|j: int|
                0 <= j < inner.remaining().len() ==> Ix::representable(
                    (#[trigger] inner.remaining()[j]).offset,
                ),
        ensures
            it.wf(),
            it.remaining() == inner.remaining(),
    {
        Iter { inner, _marker: PhantomData }
    }

    /// The live slots not yet visited, in ascending order.
    pub closed spec fn remaining(&self) -> Seq<Item<V>> {
        self.inner.remaining()
    }

    /// The invariant of the iterator; with it, every offset left has a key.
    pub closed spec fn wf(&self) -> bool {
        &&& self.inner.wf()
        &&& forall|j: int|
            0 <= j < self.inner.remaining().len() ==> Ix::representable(
                (#[trigger] self.inner.remaining()[j]).offset,
            )
    }

    /// The next pair from the front.
    pub fn next(&mut self) -> (res: Option<(Ix, &'a V)>)
        requires
            old(self).wf(),
        ensures
            final(self).wf(),
            match res {
                Some((key, value)) => {
                    &&& steps_front(old(self).remaining(), final(self).remaining())
                    &&& key.offset() == old(self).remaining()[0].offset
                    &&& *value == old(self).remaining()[0].value
                },
                None => stays_empty(old(self).remaining(), final(self).remaining()),
            },
    {
        let ghost before = self.inner.remaining();
        match self.inner.next() {
            Some((offset, slot)) => {
                proof {
                    assert(before[0].offset == offset);
                    assert forall|j: int|
                        0 <= j < self.inner.remaining().len() implies Ix::representable(
                        (#[trigger] self.inner.remaining()[j]).offset,
                    ) by {
                        assert(self.inner.remaining()[j] == before[j + 1]);
                    }
                }
                entry::value_index_ref((offset, slot))
            },
            None => None,
        }
    }

    /// The next pair from the back.
    pub fn next_back(&mut self) -> (res: Option<(Ix, &'a V)>)
        requires
            old(self).wf(),
        ensures
            final(self).wf(),
            match res {
                Some((key, value)) => {
                    &&& steps_back(old(self).remaining(), final(self).remaining())
                    &&& key.offset() == old(self).remaining().last().offset
                    &&& *value == old(self).remaining().last().value
                },
                None => stays_empty(old(self).remaining(), final(self).remaining()),
            },
    {
        let ghost before = self.inner.remaining();
        match self.inner.next_back() {
            Some((offset, slot)) => {
                proof {
                    assert(before[before.len() - 1].offset == offset);
                    assert forall|j: int|
                        0 <= j < self.inner.remaining().len() implies Ix::representable(
                        (#[trigger] self.inner.remaining()[j]).offset,
                    ) by {
                        assert(self.inner.remaining()[j] == before[j]);
                    }
                }
                entry::value_index_ref((offset, slot))
            },
            None => None,
        }
    }

    /// The number of pairs left.
    pub fn len(&self) -> (n: usize)
        requires
            self.wf(),
        ensures
            n == self.remaining().len(),
    {
        self.inner.len()
    }

    /// The number of pairs left, as both bounds.
    pub fn size_hint(&self) -> (hint: (usize, Option<usize>))
        requires
            self.wf(),
        ensures
            hint.0 == self.remaining().len(),
            hint.1 == Some(hint.0),
    {
        (self.inner.len(), Some(self.inner.len()))
    }

    /// The number of pairs left.
    pub fn count(self) -> (n: usize)
        requires
            self.wf(),
        ensures
            n == self.remaining().len(),
    {
        self.inner.len()
    }

    /// The last of the pairs left.
    pub fn last(self) -> (res: Option<(Ix, &'a V)>)
        requires
            self.wf(),
        ensures
            match res {
                Some((key, value)) => {
                    &&& self.remaining().len() > 0
                    &&& key.offset() == self.remaining().last().offset
                    &&& *value == self.remaining().last().value
                },
                None => self.remaining().len() == 0,
            },
    {
        let mut this = self;
        this.next_back()
    }
}

/// Iterator over values in the stash.
pub struct IntoValues<V> {
    inner: Owned<V, Entry<V>>,
}

impl<V> IntoValues<V> {
    /// Wraps a walk over the backing array.
    pub(super) fn new(inner: Owned<V, Entry<V>>) -> (it: Self)
        requires
            inner.wf(),
        ensures
            it.wf(),
            it.remaining() == inner.remaining(),
    {
        IntoValues { inner }
    }

    /// The live slots not yet visited, in ascending order.
    pub closed spec fn remaining(&self) -> Seq<Item<V>> {
        self.inner.remaining()
    }

    /// The invariant of the iterator.
    pub closed spec fn wf(&self) -> bool {
        self.inner.wf()
    }

    /// The next value from the front.
    pub fn next(&mut self) -> (res: Option<V>)
        requires
            old(self).wf(),
        ensures
            final(self).wf(),
            match res {
                Some(value) => steps_front(old(self).remaining(), final(self).remaining())
                    && value == old(self).remaining()[0].value,
                None => stays_empty(old(self).remaining(), final(self).remaining()),
            },
    {
        match self.inner.next() {
            Some(item) => Some(item.value),
            None => None,
        }
    }

    /// The next value from the back.
    pub fn next_back(&mut self) -> (res: Option<V>)
        requires
            old(self).wf(),
        ensures
            final(self).wf(),
            match res {
                Some(value) => steps_back(old(self).remaining(), final(self).remaining())
                    && value == old(self).remaining().last().value,
                None => stays_empty(old(self).remaining(), final(self).remaining()),
            },
    {
        match self.inner.next_back() {
            Some(item) => Some(item.value),
            None => None,
        }
    }

    /// The number of values left.
    pub fn len(&self) -> (n: usize)
        requires
            self.wf(),
        ensures
            n == self.remaining().len(),
    {
        self.inner.len()
    }

    /// The number of values left, as both bounds.
    pub fn size_hint(&self) -> (hint: (usize, Option<usize>))
        requires
            self.wf(),
        ensures
            hint.0 == self.remaining().len(),
            hint.1 == Some(hint.0),
    {
        (self.inner.len(), Some(self.inner.len()))
    }

    /// The number of values left.
    pub fn count(self) -> (n: usize)
        requires
            self.wf(),
        ensures
            n == self.remaining().len(),
    {
        self.inner.len()
    }

    /// The last of the values left.
    pub fn last(self) -> (res: Option<V>)
        requires
            self.wf(),
        ensures
            match res {
                Some(value) => self.remaining().len() > 0 && value
                    == self.remaining().last().value,
                None => self.remaining().len() == 0,
            },
    {
        let mut this = self;
        this.next_back()
    }
}

/// Iterator over the `(index, value)` pairs.
pub struct IntoIter<V, Ix: Index> {
    inner: Owned<V, Entry<V>>,
    _marker: PhantomData<Ix>,
}

impl<V, Ix: Index> IntoIter<V, Ix> {
    /// Wraps a walk over the backing array.
    pub(super) fn new(inner: Owned<V, Entry<V>>) -> (it: Self)
        requires
            inner.wf(),
            forall|j: int|
                0 <= j < inner.remaining().len() ==> Ix::representable(
                    (#[trigger] inner.remaining()[j]).offset,
                ),
        ensures
            it.wf(),
            it.remaining() == inner.remaining(),
    {
        IntoIter { inner, _marker: PhantomData }
    }

    /// The live slots not yet visited, in ascending order.
    pub closed spec fn remaining(&self) -> Seq<Item<V>> {
        self.inner.remaining()
    }

    /// The invariant of the iterator; with it, every offset left has a key.
    pub closed spec fn wf(&self) -> bool {
        &&& self.inner.wf()
        &&& forall|j: int|
            0 <= j < self.inner.remaining().len() ==> Ix::representable(
                (#[trigger] self.inner.remaining()[j]).offset,
            )
    }

    /// The next pair from the front.
    pub fn next(&mut self) -> (res: Option<(Ix, V)>)
        requires
            old(self).wf(),
        ensures
            final(self).wf(),
            match res {
                Some((key, value)) => {
                    &&& steps_front(old(self).remaining(), final(self).remaining())
                    &&& key.offset() == old(self).remaining()[0].offset
                    &&& value == old(self).remaining()[0].value
                },
                None => stays_empty(old(self).remaining(), final(self).remaining()),
            },
    {
        let ghost before = self.inner.remaining();
        match self.inner.next() {
            Some(item) => {
                proof {
                    assert(before[0] == item);
                    assert forall|j: int|
                        0 <= j < self.inner.remaining().len() implies Ix::representable(
                        (#[trigger] self.inner.remaining()[j]).offset,
                    ) by {
                        assert(self.inner.remaining()[j] == before[j + 1]);
                    }
                }
                Some((Ix::from_usize(item.offset), item.value))
            },
            None => None,
        }
    }

    /// The next pair from the back.
    pub fn next_back(&mut self) -> (res: Option<(Ix, V)>)
        requires
            old(self).wf(),
        ensures
            final(self).wf(),
            match res {
                Some((key, value)) => {
                    &&& steps_back(old(self).remaining(), final(self).remaining())
                    &&& key.offset() == old(self).remaining().last().offset
                    &&& value == old(self).remaining().last().value
                },
                None => stays_empty(old(self).remaining(), final(self).remaining()),
            },
    {
        let ghost before = self.inner.remaining();
        match self.inner.next_back() {
            Some(item) => {
                proof {
                    assert(before[before.len() - 1] == item);
                    assert forall|j: int|
                        0 <= j < self.inner.remaining().len() implies Ix::representable(
                        (#[trigger] self.inner.remaining()[j]).offset,
                    ) by {
                        assert(self.inner.remaining()[j] == before[j]);
                    }
                }
                Some((Ix::from_usize(item.offset), item.value))
            },
            None => None,
        }
    }

    /// The number of pairs left.
    pub fn len(&self) -> (n: usize)
        requires
            self.wf(),
        ensures
            n == self.remaining().len(),
    {
        self.inner.len()
    }

    /// The number of pairs left, as both bounds.
    pub fn size_hint(&self) -> (hint: (usize, Option<usize>))
        requires
            self.wf(),
        ensures
            hint.0 == self.remaining().len(),
            hint.1 == Some(hint.0),
    {
        (self.inner.len(), Some(self.inner.len()))
    }

    /// The number of pairs left.
    pub fn count(self) -> (n: usize)
        requires
            self.wf(),
        ensures
            n == self.remaining().len(),
    {
        self.inner.len()
    }

    /// The last of the pairs left.
    pub fn last(self) -> (res: Option<(Ix, V)>)
        requires
            self.wf(),
        ensures
            match res {
                Some((key, value)) => {
                    &&& self.remaining().len() > 0
                    &&& key.offset() == self.remaining().last().offset
                    &&& value == self.remaining().last().value
                },
                None => self.remaining().len() == 0,
            },
    {
        let mut this = self;
        this.next_back()
    }
}

/// Iterator over mutable references to the values in the stash.
pub struct ValuesMut<'a, V> {
    inner: Muts<'a, V>,
}

impl<'a, V> ValuesMut<'a, V> {
    /// Wraps a walk over the backing array.
    pub(super) fn new(inner: Muts<'a, V>) -> (it: Self)
        requires
            inner.wf(),
        ensures
            it.wf(),
            it.remaining() == inner.remaining(),
    {
        ValuesMut { inner }
    }

    /// The borrows not yet handed out, in ascending order of the offsets.
    pub closed spec fn remaining(&self) -> Seq<ItemMut<'a, V>> {
        self.inner.remaining()
    }

    /// The invariant of the iterator.
    pub closed spec fn wf(&self) -> bool {
        self.inner.wf()
    }

    /// An iterator that is dropped leaves the values of the borrows not yet
    /// handed out as they are.
    pub proof fn lemma_dropped(self)
        requires
            self.wf(),
            has_resolved(self),
        ensures
            forall|j: int|
                0 <= j < self.remaining().len() ==> *(#[trigger] self.remaining()[j]).value
                    == *final(self.remaining()[j].value),
    {
        self.inner.lemma_dropped();
    }

    /// The next borrow from the front.
    pub fn next(&mut self) -> (res: Option<&'a mut V>)
        requires
            old(self).wf(),
        ensures
            final(self).wf(),
            match res {
                Some(value) => steps_front(old(self).remaining(), final(self).remaining())
                    && *value == *old(self).remaining()[0].value
                    && *final(value) == *final(old(self).remaining()[0].value),
                None => stays_empty(old(self).remaining(), final(self).remaining()),
            },
    {
        match self.inner.next() {
            Some(item) => Some(item.value),
            None => None,
        }
    }

    /// The next borrow from the back.
    pub fn next_back(&mut self) -> (res: Option<&'a mut V>)
        requires
            old(self).wf(),
        ensures
            final(self).wf(),
            match res {
                Some(value) => steps_back(old(self).remaining(), final(self).remaining())
                    && *value == *old(self).remaining().last().value
                    && *final(value) == *final(old(self).remaining().last().value),
                None => stays_empty(old(self).remaining(), final(self).remaining()),
            },
    {
        match self.inner.next_back() {
            Some(item) => Some(item.value),
            None => None,
        }
    }

    /// The number of borrows left.
    pub fn len(&self) -> (n: usize)
        requires
            self.wf(),
        ensures
            n == self.remaining().len(),
    {
        self.inner.len()
    }

    /// The number of borrows left, as both bounds.
    pub fn size_hint(&self) -> (hint: (usize, Option<usize>))
        requires
            self.wf(),
        ensures
            hint.0 == self.remaining().len(),
            hint.1 == Some(hint.0),
    {
        (self.inner.len(), Some(self.inner.len()))
    }

    /// The number of borrows left.
    pub fn count(self) -> (n: usize)
        requires
            self.wf(),
        ensures
            n == self.remaining().len(),
    {
        self.inner.len()
    }

    /// The last of the borrows left.
    pub fn last(self) -> (res: Option<&'a mut V>)
        requires
            self.wf(),
        ensures
            match res {
                Some(value) => self.remaining().len() > 0 && *value == *self.remaining().last().value
                    && *final(value) == *final(self.remaining().last().value),
                None => self.remaining().len() == 0,
            },
    {
        let mut this = self;
        this.next_back()
    }
}

/// Iterator over the `(index, &mut value)` pairs.
pub struct IterMut<'a, V, Ix: Index> {
    inner: Muts<'a, V>,
    _marker: PhantomData<Ix>,
}

impl<'a, V, Ix: Index> IterMut<'a, V, Ix> {
    /// Wraps a walk over the backing array.
    pub(super) fn new(inner: Muts<'a, V>) -> (it: Self)
        requires
            inner.wf(),
            forall|j: int|
                0 <= j < inner.remaining().len() ==> Ix::representable(
                    (#[trigger] inner.remaining()[j]).offset,
                ),
        ensures
            it.wf(),
            it.remaining() == inner.remaining(),
    {
        IterMut { inner, _marker: PhantomData }
    }

    /// The borrows not yet handed out, in ascending order of the offsets.
    pub closed spec fn remaining(&self) -> Seq<ItemMut<'a, V>> {
        self.inner.remaining()
    }

    /// The invariant of the iterator; with it, every offset left has a key.
    pub closed spec fn wf(&self) -> bool {
        &&& self.inner.wf()
        &&& forall|j: int|
            0 <= j < self.inner.remaining().len() ==> Ix::representable(
                (#[trigger] self.inner.remaining()[j]).offset,
            )
    }

    /// An iterator that is dropped leaves the values of the borrows not yet
    /// handed out as they are.
    pub proof fn lemma_dropped(self)
        requires
            self.wf(),
            has_resolved(self),
        ensures
            forall|j: int|
                0 <= j < self.remaining().len() ==> *(#[trigger] self.remaining()[j]).value
                    == *final(self.remaining()[j].value),
    {
        self.inner.lemma_dropped();
    }

    /// The next pair from the front.
    pub fn next(&mut self) -> (res: Option<(Ix, &'a mut V)>)
        requires
            old(self).wf(),
        ensures
            final(self).wf(),
            match res {
                Some((key, value)) => {
                    &&& steps_front(old(self).remaining(), final(self).remaining())
                    &&& key.offset() == old(self).remaining()[0].offset
                    &&& *value == *old(self).remaining()[0].value
                    && *final(value) == *final(old(self).remaining()[0].value)
                },
                None => stays_empty(old(self).remaining(), final(self).remaining()),
            },
    {
        let ghost before = self.inner.remaining();
        match self.inner.next() {
            Some(item) => {
                proof {
                    assert(before[0] == item);
                    assert forall|j: int|
                        0 <= j < self.inner.remaining().len() implies Ix::representable(
                        (#[trigger] self.inner.remaining()[j]).offset,
                    ) by {
                        assert(self.inner.remaining()[j] == before[j + 1]);
                    }
                }
                Some((Ix::from_usize(item.offset), item.value))
            },
            None => None,
        }
    }

    /// The next pair from the back.
    pub fn next_back(&mut self) -> (res: Option<(Ix, &'a mut V)>)
        requires
            old(self).wf(),
        ensures
            final(self).wf(),
            match res {
                Some((key, value)) => {
                    &&& steps_back(old(self).remaining(), final(self).remaining())
                    &&& key.offset() == old(self).remaining().last().offset
                    &&& *value == *old(self).remaining().last().value
                    && *final(value) == *final(old(self).remaining().last().value)
                },
                None => stays_empty(old(self).remaining(), final(self).remaining()),
            },
    {
        let ghost before = self.inner.remaining();
        match self.inner.next_back() {
            Some(item) => {
                proof {
                    assert(before[before.len() - 1] == item);
                    assert forall|j: int|
                        0 <= j < self.inner.remaining().len() implies Ix::representable(
                        (#[trigger] self.inner.remaining()[j]).offset,
                    ) by {
                        assert(self.inner.remaining()[j] == before[j]);
                    }
                }
                Some((Ix::from_usize(item.offset), item.value))
            },
            None => None,
        }
    }

    /// The number of pairs left.
    pub fn len(&self) -> (n: usize)
        requires
            self.wf(),
        ensures
            n == self.remaining().len(),
    {
        self.inner.len()
    }

    /// The number of pairs left, as both bounds.
    pub fn size_hint(&self) -> (hint: (usize, Option<usize>))
        requires
            self.wf(),
        ensures
            hint.0 == self.remaining().len(),
            hint.1 == Some(hint.0),
    {
        (self.inner.len(), Some(self.inner.len()))
    }

    /// The number of pairs left.
    pub fn count(self) -> (n: usize)
        requires
            self.wf(),
        ensures
            n == self.remaining().len(),
    {
        self.inner.len()
    }

    /// The last of the pairs left.
    pub fn last(self) -> (res: Option<(Ix, &'a mut V)>)
        requires
            self.wf(),
        ensures
            match res {
                Some((key, value)) => {
                    &&& self.remaining().len() > 0
                    &&& key.offset() == self.remaining().last().offset
                    &&& *value == *self.remaining().last().value
                    && *final(value) == *final(self.remaining().last().value)
                },
                None => self.remaining().len() == 0,
            },
    {
        let mut this = self;
        this.next_back()
    }
}

} // verus!
