//! A table that reuses keys.

pub mod entry;
pub mod extend;
pub mod iter;
pub mod model;

use core::marker::PhantomData;
use vstd::prelude::*;
use vstd::pervasive::unreached;
use crate::index::Index;
use crate::backing;
use crate::scan::{lemma_live_complete, lemma_live_sound, live_items, Muts, Owned, Refs, Slot};
use crate::stash::entry::Entry;
use crate::stash::extend::Extend;
use crate::stash::iter::{IntoIter, IntoValues, Iter, IterMut, Values, ValuesMut};
use crate::stash::model::Table;

verus! {

/// A table that hands out its own keys and reuses the keys of taken values.
///
/// The table is a backing array of slots. A vacant slot holds the offset of
/// the vacant slot that will be reused after it, so the vacant slots form a
/// list, the free list, which `put` pops and `take` pushes.
///
/// 1. Keys do not depend on the values: two tables that see the same calls
///    hand out the same keys.
/// 2. A key is always less than the number of slots, and a slot is added only
///    while no slot is vacant.
pub struct Stash<V, Ix = usize> {
    /// The backing array.
    data: Vec<Entry<V>>,
    /// The number of live values.
    size: usize,
    /// The head of the free list: the offset that the next `put` fills.
    next_free: usize,
    /// The free list as a sequence, head first.
    free: Ghost<Seq<usize>>,
    _marker: PhantomData<Ix>,
}

/// The offset at position `i` of a free list over `slots` slots: the list's
/// `i`-th member, or `slots` past its end.
pub open spec fn link(free: Seq<usize>, i: int, slots: nat) -> int {
    if 0 <= i < free.len() {
        free[i] as int
    } else {
        slots as int
    }
}

impl<V, Ix> View for Stash<V, Ix> {
    type V = Table<V>;

    closed spec fn view(&self) -> Table<V> {
        Table {
            values: Map::new(
                |i: usize| i < self.data@.len() && self.data@[i as int] is Full,
                |i: usize| self.data@[i as int]->Full_0,
            ),
            free: self.free@,
            slots: self.data@.len(),
        }
    }
}

impl<V, Ix: Index> Stash<V, Ix> {
    /// The invariant of the table: each vacant slot holds the offset of the
    /// next one of the free list, the last of them the length of the backing
    /// array, `len` counts the live values, and each live offset has a key.
    pub closed spec fn wf(&self) -> bool {
        &&& forall|k: usize| #[trigger] self@.values.contains_key(k) ==> Ix::representable(k)
        &&& self.next_free == link(self.free@, 0, self.data@.len())
        &&& forall|i: int|
            0 <= i < self.free@.len() ==> (#[trigger] self.free@[i]) < self.data@.len()
                && self.data@[self.free@[i] as int] == Entry::<V>::Empty(
                link(self.free@, i + 1, self.data@.len()) as usize,
            )
        &&& self.size == self@.values.len()
        &&& self@.wf()
    }

    /// A well-formed stash has a well-formed model.
    pub proof fn lemma_view_wf(&self)
        requires
            self.wf(),
        ensures
            self@.wf(),
    {
    }

    /// An empty stash, with room for `capacity` values.
    fn empty(capacity: usize) -> (stash: Self)
        ensures
            stash.wf(),
            stash@ == Table::<V>::fresh(),
    {
        let stash = Stash {
            data: Vec::with_capacity(capacity),
            size: 0,
            next_free: 0,
            free: Ghost(Seq::empty()),
            _marker: PhantomData,
        };
        proof {
            assert(stash@.values =~= Map::<usize, V>::empty());
        }
        stash
    }

    /// Returns the number of elements the stash can hold without
    /// reallocating: at least the number of its slots.
    pub fn capacity(&self) -> (cap: usize)
        ensures
            cap >= self@.slots,
    {
        backing::capacity(&self.data)
    }

    /// The number of items in the stash.
    pub fn len(&self) -> (n: usize)
        requires
            self.wf(),
        ensures
            n == self@.len(),
    {
        self.size
    }

    /// Check if this `Stash<V>` is empty.
    pub fn is_empty(&self) -> (res: bool)
        requires
            self.wf(),
        ensures
            res == (self@.len() == 0),
    {
        self.size == 0
    }

    /// Reserves capacity for at least `additional` more elements to be put
    /// into the given `Stash<T>`. The stash itself does not change.
    pub fn reserve(&mut self, additional: usize)
        requires
            old(self).wf(),
            old(self)@.len() + additional <= usize::MAX,
        ensures
            final(self).wf(),
            final(self)@ == old(self)@,
    {
        let missing = self.shortfall(additional);
        if missing > 0 {
            self.data.reserve(missing);
        }
    }

    /// Reserves the minimum capacity for exactly `additional` more elements
    /// to be put into the given `Stash<T>`. The stash itself does not change.
    pub fn reserve_exact(&mut self, additional: usize)
        requires
            old(self).wf(),
            old(self)@.len() + additional <= usize::MAX,
        ensures
            final(self).wf(),
            final(self)@ == old(self)@,
    {
        let missing = self.shortfall(additional);
        if missing > 0 {
            backing::reserve_exact(&mut self.data, missing);
        }
    }

    /// Moves the value out of the live slot at `offset` and pushes the slot
    /// on the free list.
    fn vacate(&mut self, offset: usize) -> (value: V)
        requires
            old(self).wf(),
            old(self)@.values.contains_key(offset),
        ensures
            final(self).wf(),
            Some(value) == old(self)@.get(offset),
            final(self)@ == old(self)@.take(offset),
    {
        let mut slot = Entry::Empty(self.next_free);
        core::mem::swap(&mut self.data[offset], &mut slot);
        proof {
            let free = seq![offset] + self.free@;
            assert forall|i: int| 0 <= i < free.len() implies (#[trigger] free[i])
                < self.data@.len() && self.data@[free[i] as int] == Entry::<V>::Empty(
                link(free, i + 1, self.data@.len()) as usize,
            ) by {
                if i > 0 {
                    assert(free[i] == self.free@[i - 1]);
                }
            }
            self.free = Ghost(free);
        }
        self.next_free = offset;
        self.size -= 1;
        proof {
            assert(self@.values =~= old(self)@.values.remove(offset));
            old(self)@.lemma_take(offset);
        }
        match slot {
            Entry::Full(value) => value,
            Entry::Empty(_) => unreached(),
        }
    }

    /// Borrows the value of the live slot at `offset`.
    fn slot_mut(&mut self, offset: usize) -> (value: &mut V)
        requires
            old(self).wf(),
            old(self)@.values.contains_key(offset),
        ensures
            final(self).wf(),
            Some(*value) == old(self)@.get(offset),
            final(self)@ == old(self)@.set(offset, *final(value)),
    {
        let value = match &mut self.data[offset] {
            Entry::Full(value) => value,
            Entry::Empty(_) => unreached(),
        };
        proof {
            assert(after_borrow(*self)@.values =~= old(self)@.values.insert(
                offset,
                *final(value),
            ));
            old(self)@.lemma_set(offset, *final(value));
        }
        value
    }

    /// Clear the stash. Cleared stash will give the same keys as a new stash
    /// for subsequent puts.
    ///
    /// The slots are vacated one by one, and the stash is well-formed
    /// between any two of them.
    pub fn clear(&mut self)
        requires
            old(self).wf(),
        ensures
            final(self).wf(),
            final(self)@ == Table::<V>::fresh(),
    {
        let mut i: usize = 0;
        while i < self.data.len()
            invariant
                self.wf(),
                i <= self@.slots,
                forall|k: usize| k < i ==> !self@.values.contains_key(k),
            decreases self@.slots - i,
        {
            let live = match &self.data[i] {
                Entry::Full(_) => true,
                Entry::Empty(_) => false,
            };
            if live {
                let _ = self.vacate(i);
            }
            i += 1;
        }
        proof {
            assert(self@.values =~= Map::<usize, V>::empty());
        }
        self.data.clear();
        self.next_free = 0;
        proof {
            self.free = Ghost(Seq::empty());
            assert(self@.values =~= Map::<usize, V>::empty());
        }
    }
}

impl<V> Stash<V, usize> {
    /// Constructs a new, empty `Stash<V, usize>`.
    ///
    /// This is a convenience method. Use `Stash::default` for a constructor
    /// that is generic in the type of index used.
    pub fn new() -> (stash: Self)
        ensures
            stash.wf(),
            stash@ == Table::<V>::fresh(),
    {
        Stash::empty(0)
    }

    /// Constructs a new, empty `Stash<V, usize>` with the specified
    /// capacity.
    pub fn with_capacity(capacity: usize) -> (stash: Self)
        ensures
            stash.wf(),
            stash@ == Table::<V>::fresh(),
    {
        Stash::empty(capacity)
    }
}

impl<V, Ix: Index> Stash<V, Ix> {
    /// The number of slots that the backing array lacks to take
    /// `additional` more values: each vacant slot takes one of them. This
    /// is what `reserve` and `reserve_exact` ask of the backing array.
    fn shortfall(&self, additional: usize) -> (missing: usize)
        requires
            self.wf(),
        ensures
            missing == if self@.free.len() >= additional {
                0
            } else {
                additional - self@.free.len()
            },
            missing > 0 ==> self@.slots + missing == self@.len() + additional,
    {
        let extra_space = self.data.len() - self.size;
        if extra_space < additional {
            additional - extra_space
        } else {
            0
        }
    }

    /// The live slots of the backing array below `k` are the items of the
    /// model below `k`.
    proof fn lemma_live_items(&self, k: nat)
        requires
            k <= self.data@.len(),
        ensures
            live_items::<V, Entry<V>>(self.data@.subrange(0, k as int), 0) == self@.items_below(k),
        decreases k,
    {
        if k > 0 {
            self.lemma_live_items((k - 1) as nat);
            assert(self.data@.subrange(0, k as int).drop_last() =~= self.data@.subrange(
                0,
                k - 1,
            ));
            assert(self.data@.subrange(0, k as int).last() == self.data@[k - 1]);
            assert(self.data.len() == self.data@.len());
            let slot = self.data@[k - 1];
            assert(self@.values.contains_key((k - 1) as usize) == (slot is Full));
            assert(slot.live() is Some == (slot is Full));
            if slot is Full {
                assert(self@.values[(k - 1) as usize] == slot->Full_0);
                assert(slot.live() == Some(slot->Full_0));
            }
        }
    }

    /// The live slots of the backing array are the items of the model, and
    /// each has a key.
    proof fn lemma_items(&self)
        requires
            self.wf(),
        ensures
            live_items::<V, Entry<V>>(self.data@, 0) == self@.items(),
            self@.items().len() == self.size,
            forall|j: int|
                0 <= j < self@.items().len() ==> Ix::representable(
                    (#[trigger] self@.items()[j]).offset,
                ),
    {
        self.lemma_live_items(self.data@.len());
        assert(self.data@.subrange(0, self.data@.len() as int) =~= self.data@);
        self@.lemma_items();
    }

    /// Put all items of `items` into the stash, first to last.
    ///
    /// Returns a cursor over the indices where the items are inserted. The
    /// items are actually inserted as the cursor is read; its `count`,
    /// `collect` and `finish` insert the rest all at once.
    pub fn extend(&mut self, items: Vec<V>) -> (cursor: Extend<'_, V, Ix>)
        requires
            old(self).wf(),
            old(self)@.slots + items@.len() <= usize::MAX,
            forall|k: usize| k < old(self)@.slots + items@.len() ==> Ix::representable(k),
        ensures
            cursor.wf(),
            cursor.stash@ == old(self)@,
            cursor.source@ == items@,
            *final(cursor.stash) == *final(self),
    {
        proof {
            self.lemma_view_wf();
        }
        self.reserve(items.len());
        Extend { source: backing::deque_from_vec(items), stash: self }
    }

    /// Iterate over the items in this `Stash<V>`.
    ///
    /// Returns an iterator that yields `(index, &value)` pairs, in ascending
    /// order of the offsets.
    pub fn iter(&self) -> (it: Iter<'_, V, Ix>)
        requires
            self.wf(),
        ensures
            it.wf(),
            it.remaining() == self@.items(),
    {
        proof {
            self.lemma_items();
        }
        Iter::new(Refs::new(self.data.as_slice(), self.size))
    }

    /// Iterate over the values in this `Stash<V>` by reference, in ascending
    /// order of the offsets.
    pub fn values(&self) -> (it: Values<'_, V>)
        requires
            self.wf(),
        ensures
            it.wf(),
            it.remaining() == self@.items(),
    {
        proof {
            self.lemma_items();
        }
        Values::new(Refs::new(self.data.as_slice(), self.size))
    }

    /// Iterate over the values in this `Stash<V>` by value, in ascending
    /// order of the offsets.
    pub fn into_values(self) -> (it: IntoValues<V>)
        requires
            self.wf(),
        ensures
            it.wf(),
            it.remaining() == self@.items(),
    {
        proof {
            self.lemma_items();
        }
        IntoValues::new(Owned::new(self.data, self.size))
    }

    /// Iterate over the `(index, value)` pairs of this `Stash<V>` by value,
    /// in ascending order of the offsets.
    pub fn into_iter(self) -> (it: IntoIter<V, Ix>)
        requires
            self.wf(),
        ensures
            it.wf(),
            it.remaining() == self@.items(),
    {
        proof {
            self.lemma_items();
        }
        IntoIter::new(Owned::new(self.data, self.size))
    }

    /// Borrows every live value. What is written through a borrow is the
    /// value of its key afterwards, and nothing else changes.
    fn borrow_all(&mut self) -> (walk: Muts<'_, V>)
        requires
            old(self).wf(),
        ensures
            walk.wf(),
            walk.remaining().len() == old(self)@.items().len(),
            forall|j: int|
                0 <= j < walk.remaining().len() ==> {
                    let item = old(self)@.items()[j];
                    &&& (#[trigger] walk.remaining()[j]).offset == item.offset
                    &&& *walk.remaining()[j].value == item.value
                    &&& final(self)@.values[item.offset] == *final(walk.remaining()[j].value)
                },
            final(self).wf(),
            final(self)@.same_shape(old(self)@),
    {
        proof {
            self.lemma_items();
        }
        let inner = Muts::new(self.data.as_mut_slice());
        proof {
            let before = old(self).data@;
            let after = after_borrow(*self).data@;
            assert forall|i: int| 0 <= i < before.len() implies (#[trigger] after[i]) == before[i]
                || (before[i] is Full && after[i] is Full) by {
                if before[i].live() is Some {
                    lemma_live_complete::<V, Entry<V>>(before, 0, i);
                    let j = choose|j: int|
                        0 <= j < live_items::<V, Entry<V>>(before, 0).len() && (
                        #[trigger] live_items::<V, Entry<V>>(before, 0)[j]).offset == i as usize;
                    assert(inner.remaining()[j].offset == i);
                }
            }
            Self::lemma_rewritten(*old(self), after_borrow(*self));
            assert forall|j: int| 0 <= j < inner.remaining().len() implies after_borrow(
                *self,
            )@.values[old(self)@.items()[j].offset] == *final(
                (#[trigger] inner.remaining()[j]).value
            ) by {
                let offset = old(self)@.items()[j].offset;
                lemma_live_sound::<V, Entry<V>>(before, 0);
                assert(live_items::<V, Entry<V>>(before, 0)[j].offset == offset);
                assert(before[offset as int].live() is Some);
                assert(after[offset as int] == before[offset as int].refilled(
                    *final(inner.remaining()[j].value),
                ));
            }
        }
        inner
    }

    /// Mutably iterate over the items in this `Stash<V>`.
    ///
    /// Returns an iterator that yields `(index, &mut value)` pairs, in
    /// ascending order of the offsets. What is written through a borrow is
    /// the value of its key afterwards, and nothing else changes.
    pub fn iter_mut(&mut self) -> (it: IterMut<'_, V, Ix>)
        requires
            old(self).wf(),
        ensures
            it.wf(),
            it.remaining().len() == old(self)@.items().len(),
            forall|j: int|
                0 <= j < it.remaining().len() ==> {
                    let item = old(self)@.items()[j];
                    &&& (#[trigger] it.remaining()[j]).offset == item.offset
                    &&& *it.remaining()[j].value == item.value
                    &&& final(self)@.values[item.offset] == *final(it.remaining()[j].value)
                },
            final(self).wf(),
            final(self)@.same_shape(old(self)@),
    {
        proof {
            self.lemma_items();
        }
        IterMut::new(self.borrow_all())
    }

    /// Mutably iterate over the values in this `Stash<V>` by reference, in
    /// ascending order of the offsets. What is written through a borrow is
    /// the value of its key afterwards, and nothing else changes.
    pub fn values_mut(&mut self) -> (it: ValuesMut<'_, V>)
        requires
            old(self).wf(),
        ensures
            it.wf(),
            it.remaining().len() == old(self)@.items().len(),
            forall|j: int|
                0 <= j < it.remaining().len() ==> {
                    let item = old(self)@.items()[j];
                    &&& (#[trigger] it.remaining()[j]).offset == item.offset
                    &&& *it.remaining()[j].value == item.value
                    &&& final(self)@.values[item.offset] == *final(it.remaining()[j].value)
                },
            final(self).wf(),
            final(self)@.same_shape(old(self)@),
    {
        ValuesMut::new(self.borrow_all())
    }

    /// A stash whose live values were overwritten stays well-formed and
    /// keeps its shape.
    proof fn lemma_rewritten(before: Self, after: Self)
        requires
            before.wf(),
            after.size == before.size,
            after.next_free == before.next_free,
            after.free@ == before.free@,
            after.data@.len() == before.data@.len(),
            forall|i: int|
                0 <= i < before.data@.len() ==> (#[trigger] after.data@[i]) == before.data@[i] || (
                before.data@[i] is Full && after.data@[i] is Full),
        ensures
            after.wf(),
            after@.same_shape(before@),
    {
        assert(after@.values.dom() =~= before@.values.dom()) by {
            assert forall|k: usize| after@.values.dom().contains(k) == before@.values.dom().contains(
                k,
            ) by {
                if k < before.data@.len() {
                    assert(after.data@[k as int] == before.data@[k as int] || (
                    before.data@[k as int] is Full && after.data@[k as int] is Full));
                }
            }
        }
        before@.lemma_same_shape(after@);
        assert forall|i: int| 0 <= i < after.free@.len() implies (#[trigger] after.free@[i])
            < after.data@.len() && after.data@[after.free@[i] as int] == Entry::<V>::Empty(
            link(after.free@, i + 1, after.data@.len()) as usize,
        ) by {
            let k = before.free@[i] as int;
            assert(after.data@[k] == before.data@[k] || (before.data@[k] is Full
                && after.data@[k] is Full));
        }
        assert forall|k: usize| #[trigger] after@.values.contains_key(k) implies Ix::representable(
            k,
        ) by {
            assert(before@.values.dom().contains(k));
            assert(before@.values.contains_key(k));
        }
    }

    /// Get the index that would be returned from next call to `put`.
    pub fn next_index(&self) -> (key: Ix)
        requires
            self.wf(),
            Ix::representable(self@.next()),
        ensures
            key.offset() == self@.next(),
    {
        Ix::from_usize(self.next_free)
    }

    /// Put a value into the stash.
    ///
    /// Returns the index at which this value was stored: the head of the
    /// free list, or, while no slot is vacant, the offset of a new slot.
    pub fn put(&mut self, value: V) -> (key: Ix)
        requires
            old(self).wf(),
            Ix::representable(old(self)@.next()),
        ensures
            final(self).wf(),
            key.offset() == old(self)@.next(),
            final(self)@ == old(self)@.put(value),
    {
        let key = Ix::from_usize(self.next_free);
        let loc = self.next_free;
        if loc == self.data.len() {
            self.data.push(Entry::Full(value));
            self.next_free = self.data.len();
        } else {
            let mut slot = Entry::Full(value);
            core::mem::swap(&mut self.data[loc], &mut slot);
            match slot {
                Entry::Empty(next) => {
                    self.next_free = next;
                },
                Entry::Full(_) => {
                    unreached::<()>();
                },
            }
            proof {
                self.free = Ghost(self.free@.drop_first());
            }
        }
        self.size += 1;
        proof {
            assert(self@.values =~= old(self)@.values.insert(loc, value));
            old(self)@.lemma_put(value);
        }
        key
    }

    /// Take an item from a slot (if non empty).
    ///
    /// The slot becomes the head of the free list.
    pub fn take(&mut self, index: Ix) -> (res: Option<V>)
        requires
            old(self).wf(),
        ensures
            final(self).wf(),
            res == old(self)@.get(index.offset()),
            final(self)@ == old(self)@.take(index.offset()),
    {
        let take_index = index.into_usize();
        if take_index >= self.data.len() {
            return None;
        }
        match &self.data[take_index] {
            Entry::Empty(_) => {
                return None;
            },
            Entry::Full(_) => {},
        }
        Some(self.vacate(take_index))
    }

    /// Take an item from a slot that is known to be live, without bounds or
    /// empty checking.
    ///
    /// The caller owes the proof that `index` came from `put` and that its
    /// value has not been taken since.
    pub fn take_unchecked(&mut self, index: Ix) -> (value: V)
        requires
            old(self).wf(),
            old(self)@.values.contains_key(index.offset()),
        ensures
            final(self).wf(),
            Some(value) == old(self)@.get(index.offset()),
            final(self)@ == old(self)@.take(index.offset()),
    {
        self.vacate(index.into_usize())
    }

    /// Get a reference to the value at `index`.
    pub fn get(&self, index: Ix) -> (res: Option<&V>)
        requires
            self.wf(),
        ensures
            res == match self@.get(index.offset()) {
                Some(value) => Some(&value),
                None => None,
            },
    {
        let i = index.into_usize();
        if i < self.data.len() {
            entry::value_ref(&self.data[i])
        } else {
            None
        }
    }

    /// Get a reference to the value at `index` without bounds or empty
    /// checking.
    ///
    /// The caller owes the proof that `index` came from `put` and that its
    /// value has not been taken since.
    pub fn get_unchecked(&self, index: Ix) -> (value: &V)
        requires
            self.wf(),
            self@.values.contains_key(index.offset()),
        ensures
            Some(*value) == self@.get(index.offset()),
    {
        match &self.data[index.into_usize()] {
            Entry::Full(value) => value,
            Entry::Empty(_) => unreached(),
        }
    }

    /// Get a mutable reference to the value at `index`.
    ///
    /// Nothing but that value can change through the reference.
    pub fn get_mut(&mut self, index: Ix) -> (res: Option<&mut V>)
        requires
            old(self).wf(),
        ensures
            final(self).wf(),
            match res {
                Some(value) => {
                    &&& Some(*value) == old(self)@.get(index.offset())
                    &&& final(self)@ == old(self)@.set(index.offset(), *final(value))
                },
                None => old(self)@.get(index.offset()) is None && final(self)@ == old(self)@,
            },
    {
        let i = index.into_usize();
        if i < self.data.len() {
            match &self.data[i] {
                Entry::Empty(_) => {
                    return None;
                },
                Entry::Full(_) => {},
            }
            Some(self.slot_mut(i))
        } else {
            None
        }
    }

    /// Get a mutable reference to the value at `index` without bounds or
    /// empty checking.
    ///
    /// The caller owes the proof that `index` came from `put` and that its
    /// value has not been taken since.
    pub fn get_unchecked_mut(&mut self, index: Ix) -> (value: &mut V)
        requires
            old(self).wf(),
            old(self)@.values.contains_key(index.offset()),
        ensures
            final(self).wf(),
            Some(*value) == old(self)@.get(index.offset()),
            final(self)@ == old(self)@.set(index.offset(), *final(value)),
    {
        self.slot_mut(index.into_usize())
    }
}

impl<V: Clone, Ix: Index> Clone for Stash<V, Ix> {
    /// A stash of the same shape, holding clones of the values.
    fn clone(&self) -> (res: Self)
        ensures
            self.wf() ==> {
                &&& res.wf()
                &&& res@.same_shape(self@)
                &&& forall|k: usize| #[trigger]
                    self@.values.contains_key(k) ==> cloned(self@.values[k], res@.values[k])
            },
    {
        let mut data: Vec<Entry<V>> = Vec::with_capacity(self.data.len());
        let mut i: usize = 0;
        while i < self.data.len()
            invariant
                i <= self.data@.len(),
                data@.len() == i,
                forall|j: int|
                    0 <= j < i ==> match self.data@[j] {
                        Entry::Empty(next) => (#[trigger] data@[j]) == Entry::<V>::Empty(next),
                        Entry::Full(value) => data@[j] is Full && cloned(value, data@[j]->Full_0),
                    },
            decreases self.data@.len() - i,
        {
            data.push(self.data[i].clone());
            i += 1;
        }
        let res = Stash {
            data,
            size: self.size,
            next_free: self.next_free,
            free: Ghost(self.free@),
            _marker: PhantomData,
        };
        proof {
            if self.wf() {
                assert forall|i: int| 0 <= i < self.data@.len() implies (#[trigger] res.data@[i])
                    == self.data@[i] || (self.data@[i] is Full && res.data@[i] is Full) by {}
                Self::lemma_rewritten(*self, res);
            }
        }
        res
    }
}

impl<V, Ix: Index> Default for Stash<V, Ix> {
    fn default() -> (stash: Self)
        ensures
            stash.wf(),
            stash@ == Table::<V>::fresh(),
    {
        Stash::empty(0)
    }
}

} // verus!
